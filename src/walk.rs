use vstd::prelude::*;
use crate::batch::BatchAccumulator;
use crate::collection::FileCollection;
use crate::file_data::FileData;
use crate::top_k::{
    capped, count_at_least, drawn_from, is_top_k, lemma_count_concat, lemma_count_prefix, lemma_count_push,
    lemma_inserted, lemma_merge_spec, lemma_top_k_of_itself,
};

verus! {

/// What a directory listing says an entry is. Symbolic links, devices,
/// sockets and the like are `Other`.
pub enum EntryKind {
    File,
    Directory,
    Other,
}

/// One entry of a directory listing. `size` is `None` where the file's
/// metadata could not be read.
pub struct DirEntryInfo {
    pub path: String,
    pub kind: EntryKind,
    pub size: Option<u64>,
}

impl DirEntryInfo {
    pub fn new(path: String, kind: EntryKind, size: Option<u64>) -> (r: DirEntryInfo)
        ensures
            r.path == path,
            r.kind == kind,
            r.size == size,
    {
        DirEntryInfo { path, kind, size }
    }
}

/// A regular file of known, non-zero size: the only kind of entry that can
/// be among the results.
pub open spec fn qualifies(e: DirEntryInfo) -> bool {
    &&& e.kind is File
    &&& e.size is Some
    &&& e.size->Some_0 > 0
}

pub open spec fn file_of(e: DirEntryInfo) -> FileData {
    FileData { path: e.path, size: e.size->Some_0 }
}

/// The candidates of a listing, in listing order.
pub open spec fn qualifying_files(s: Seq<DirEntryInfo>) -> Seq<FileData>
    decreases s.len(),
{
    if s.len() == 0 {
        Seq::<FileData>::empty()
    } else if qualifies(s.last()) {
        qualifying_files(s.drop_last()).push(file_of(s.last()))
    } else {
        qualifying_files(s.drop_last())
    }
}

/// The paths of the subdirectories of a listing, in listing order.
pub open spec fn subdirectory_paths(s: Seq<DirEntryInfo>) -> Seq<String>
    decreases s.len(),
{
    if s.len() == 0 {
        Seq::<String>::empty()
    } else if s.last().kind is Directory {
        subdirectory_paths(s.drop_last()).push(s.last().path)
    } else {
        subdirectory_paths(s.drop_last())
    }
}

/// All the files kept in a sequence of collections, one after the other.
pub open spec fn all_kept(cs: Seq<FileCollection>) -> Seq<FileData>
    decreases cs.len(),
{
    if cs.len() == 0 {
        Seq::<FileData>::empty()
    } else {
        all_kept(cs.drop_last()) + cs.last()@
    }
}

/// The file an entry stands for, where it is a candidate.
pub fn candidate(e: &DirEntryInfo) -> (r: Option<FileData>)
    ensures
        r == (if qualifies(*e) {
            Some(file_of(*e))
        } else {
            None::<FileData>
        }),
{
    match e.kind {
        EntryKind::File => match e.size {
            Some(n) => {
                if n > 0 {
                    Some(FileData::new(e.path.clone(), n))
                } else {
                    None
                }
            },
            None => None,
        },
        _ => None,
    }
}

/// The `k` largest candidates of one directory listing, largest first.
/// With `batched` the files go through a `BatchAccumulator`; the sizes kept
/// are the same either way.
pub fn collect_files(entries: &Vec<DirEntryInfo>, k: usize, batched: bool) -> (r: FileCollection)
    ensures
        r.wf(),
        r.cap() == k,
        is_top_k(r@, qualifying_files(entries@), k as nat),
{
    let ghost es = entries@;
    let mut target = FileCollection::new(k);
    let mut acc = BatchAccumulator::new();
    let mut i: usize = 0;
    proof {
        assert(es.take(0) =~= Seq::<DirEntryInfo>::empty());
        assert forall|v: int| #[trigger] count_at_least(Seq::<FileData>::empty(), v) == 0 by {}
    }
    while i < entries.len()
        invariant
            es == entries@,
            i <= es.len(),
            target.wf(),
            target.cap() == k,
            acc.wf(),
            !batched ==> acc.pending() == Seq::<FileData>::empty(),
            drawn_from(target@, qualifying_files(es.take(i as int))),
            drawn_from(acc.pending(), qualifying_files(es.take(i as int))),
            forall|v: int|
                capped(k as nat, count_at_least(target@, v) + count_at_least(acc.pending(), v)) == capped(
                    k as nat,
                    #[trigger] count_at_least(qualifying_files(es.take(i as int)), v),
                ),
        decreases es.len() - i,
    {
        let ghost q0 = qualifying_files(es.take(i as int));
        let ghost t0 = target@;
        let ghost p0 = acc.pending();
        proof {
            assert(es.take(i + 1).drop_last() =~= es.take(i as int));
            assert(es.take(i + 1).last() == es[i as int]);
        }
        let c = candidate(&entries[i]);
        match c {
            Some(f) => {
                let ghost q1 = q0.push(f);
                assert(qualifying_files(es.take(i + 1)) == q1);
                if batched {
                    acc.add(&mut target, f);
                    proof {
                        assert forall|v: int|
                            capped(k as nat, count_at_least(target@, v) + count_at_least(acc.pending(), v))
                                == capped(k as nat, #[trigger] count_at_least(q1, v)) by {
                            lemma_count_push(q0, f, v);
                        }
                        lemma_drawn_push(t0 + p0.push(f), target@, q0, f);
                        lemma_drawn_push(p0.push(f), acc.pending(), q0, f);
                    }
                } else {
                    proof {
                        lemma_inserted(t0, f, k as nat);
                    }
                    target.smart_insert(f);
                    proof {
                        assert forall|v: int|
                            capped(k as nat, count_at_least(target@, v) + count_at_least(acc.pending(), v))
                                == capped(k as nat, #[trigger] count_at_least(q1, v)) by {
                            lemma_count_push(q0, f, v);
                            lemma_count_prefix(target@, v);
                            assert(count_at_least(acc.pending(), v) == 0);
                        }
                        assert forall|j: int| 0 <= j < target@.len() implies q1.contains(#[trigger] target@[j]) by {
                            if target@[j] == f {
                                assert(q1[q0.len() as int] == f);
                            } else {
                                let x = choose|x: int| 0 <= x < t0.len() && t0[x] == target@[j];
                                let y = choose|y: int| 0 <= y < q0.len() && q0[y] == t0[x];
                                assert(q1[y] == q0[y]);
                            }
                        }
                    }
                }
            },
            None => {
                assert(qualifying_files(es.take(i + 1)) == q0);
            },
        }
        i = i + 1;
    }
    let ghost q = qualifying_files(es);
    let ghost t0 = target@;
    let ghost p0 = acc.pending();
    proof {
        assert(es.take(es.len() as int) =~= es);
    }
    acc.flush(&mut target);
    proof {
        assert forall|v: int| #[trigger] count_at_least(target@, v) == capped(k as nat, count_at_least(q, v)) by {
            assert(capped(k as nat, count_at_least(t0, v) + count_at_least(p0, v)) == capped(
                k as nat,
                count_at_least(q, v),
            ));
        }
        assert forall|j: int| 0 <= j < target@.len() implies q.contains(#[trigger] target@[j]) by {
            let x = choose|x: int| 0 <= x < (t0 + p0).len() && (t0 + p0)[x] == target@[j];
            if x < t0.len() {
                assert(t0.contains(t0[x]));
            } else {
                assert(p0.contains(p0[x - t0.len()]));
            }
        }
    }
    target
}

/// The paths of the subdirectories of one listing, to be walked in turn.
/// Symbolic links to directories are `Other` and are not followed.
pub fn subdirectories(entries: &Vec<DirEntryInfo>) -> (r: Vec<String>)
    ensures
        r@ == subdirectory_paths(entries@),
{
    let ghost es = entries@;
    let mut out: Vec<String> = Vec::new();
    let mut i: usize = 0;
    proof {
        assert(es.take(0) =~= Seq::<DirEntryInfo>::empty());
    }
    while i < entries.len()
        invariant
            es == entries@,
            i <= es.len(),
            out@ == subdirectory_paths(es.take(i as int)),
        decreases es.len() - i,
    {
        proof {
            assert(es.take(i + 1).drop_last() =~= es.take(i as int));
            assert(es.take(i + 1).last() == es[i as int]);
        }
        match entries[i].kind {
            EntryKind::Directory => {
                out.push(entries[i].path.clone());
            },
            _ => {},
        }
        i = i + 1;
    }
    proof {
        assert(es.take(es.len() as int) =~= es);
    }
    out
}

/// Folds the results of the subdirectories into the result of a
/// directory's own files. The result is a top selection of everything the
/// operands keep, under the capacity of `local`.
pub fn fold_results(local: FileCollection, children: &Vec<FileCollection>) -> (r: FileCollection)
    requires
        local.wf(),
        forall|i: int| 0 <= i < children@.len() ==> (#[trigger] children@[i]).wf(),
    ensures
        r.wf(),
        r.cap() == local.cap(),
        is_top_k(r@, local@ + all_kept(children@), local.cap()),
{
    let ghost cs = children@;
    let ghost k = local.cap();
    let mut acc = local;
    let mut i: usize = 0;
    proof {
        lemma_top_k_of_itself(acc@, k);
        assert(cs.take(0) =~= Seq::<FileCollection>::empty());
        assert(acc@ + all_kept(cs.take(0)) =~= acc@);
    }
    while i < children.len()
        invariant
            cs == children@,
            i <= cs.len(),
            forall|j: int| 0 <= j < cs.len() ==> (#[trigger] cs[j]).wf(),
            acc.wf(),
            acc.cap() == k,
            is_top_k(acc@, local@ + all_kept(cs.take(i as int)), k),
        decreases cs.len() - i,
    {
        let ghost a0 = acc@;
        let ghost before = local@ + all_kept(cs.take(i as int));
        let ghost c = cs[i as int]@;
        let ghost after = local@ + all_kept(cs.take(i + 1));
        proof {
            assert(cs.take(i + 1).drop_last() =~= cs.take(i as int));
            assert(after =~= before + c);
            lemma_merge_spec(a0, c, k);
        }
        acc.merge(&children[i]);
        proof {
            assert forall|v: int| #[trigger] count_at_least(acc@, v) == capped(k, count_at_least(after, v)) by {
                lemma_count_concat(before, c, v);
            }
            assert forall|j: int| 0 <= j < acc@.len() implies after.contains(#[trigger] acc@[j]) by {
                if a0.contains(acc@[j]) {
                    let x = choose|x: int| 0 <= x < a0.len() && a0[x] == acc@[j];
                    let y = choose|y: int| 0 <= y < before.len() && before[y] == a0[x];
                    assert(after[y] == before[y]);
                } else {
                    let x = choose|x: int| 0 <= x < c.len() && c[x] == acc@[j];
                    assert(after[before.len() + x] == c[x]);
                }
            }
        }
        i = i + 1;
    }
    proof {
        assert(cs.take(cs.len() as int) =~= cs);
    }
    acc
}

/// Where everything in `from` is drawn from `q` plus one more file `f`, so
/// is everything in `r` that is drawn from `from`.
proof fn lemma_drawn_push(from: Seq<FileData>, r: Seq<FileData>, q: Seq<FileData>, f: FileData)
    requires
        drawn_from(r, from),
        forall|i: int| 0 <= i < from.len() ==> #[trigger] from[i] == f || q.contains(from[i]),
    ensures
        drawn_from(r, q.push(f)),
{
    assert forall|j: int| 0 <= j < r.len() implies q.push(f).contains(#[trigger] r[j]) by {
        let x = choose|x: int| 0 <= x < from.len() && from[x] == r[j];
        if from[x] == f {
            assert(q.push(f)[q.len() as int] == f);
        } else {
            let y = choose|y: int| 0 <= y < q.len() && q[y] == from[x];
            assert(q.push(f)[y] == q[y]);
        }
    }
}

} // verus!
