use vstd::prelude::*;
use crate::file_data::FileData;
use crate::top_k::{
    capped, insert_pos, inserted, lemma_count_prefix, lemma_inserted, lemma_merge_spec,
    lemma_merged, merge_spec, merged, sorted_desc,
};

verus! {

/// At most `max_size` files, largest first.
pub struct FileCollection {
    files: Vec<FileData>,
    max_size: usize,
}

impl View for FileCollection {
    type V = Seq<FileData>;

    closed spec fn view(&self) -> Seq<FileData> {
        self.files@
    }
}

impl FileCollection {
    /// The capacity fixed at construction.
    pub closed spec fn cap(&self) -> nat {
        self.max_size as nat
    }

    /// Descending by size and within capacity.
    pub open spec fn wf(&self) -> bool {
        sorted_desc(self@) && self@.len() <= self.cap()
    }

    /// An empty collection that keeps at most `max_size` files. With
    /// `max_size` zero it never keeps anything.
    pub fn new(max_size: usize) -> (r: Self)
        ensures
            r.wf(),
            r@ == Seq::<FileData>::empty(),
            r.cap() == max_size,
    {
        FileCollection { files: Vec::new(), max_size }
    }

    pub fn capacity(&self) -> (r: usize)
        ensures
            r == self.cap(),
    {
        self.max_size
    }

    pub fn len(&self) -> (r: usize)
        ensures
            r == self@.len(),
    {
        self.files.len()
    }

    pub fn is_empty(&self) -> (r: bool)
        ensures
            r == (self@.len() == 0),
    {
        self.files.len() == 0
    }

    /// The kept files, largest first.
    pub fn files(&self) -> (r: &Vec<FileData>)
        ensures
            r@ == self@,
    {
        &self.files
    }

    /// Hands out the kept files, largest first.
    pub fn into_files(self) -> (r: Vec<FileData>)
        ensures
            r@ == self@,
    {
        self.files
    }

    /// Where a file of `target_size` bytes would go: after every kept file of
    /// at least that size. `None` where that place is at or past the
    /// capacity, so the file cannot be among the largest; when the collection
    /// is full this is decided by one comparison with the smallest kept file.
    pub fn find_insert_position(&self, target_size: &u64) -> (r: Option<usize>)
        requires
            self.wf(),
        ensures
            r == (if insert_pos(self@, *target_size) < self.cap() {
                Some(insert_pos(self@, *target_size) as usize)
            } else {
                None::<usize>
            }),
    {
        let t = *target_size;
        proof {
            lemma_count_prefix(self@, t as int);
        }
        let n = self.files.len();
        if n >= self.max_size && (n == 0 || t <= self.files[n - 1].size) {
            proof {
                if n > 0 {
                    assert(self@[n - 1].size >= t);
                }
            }
            return None;
        }
        let mut lo: usize = 0;
        let mut hi: usize = n;
        while lo < hi
            invariant
                0 <= lo <= hi <= n,
                n == self@.len(),
                sorted_desc(self@),
                forall|i: int| 0 <= i < lo ==> #[trigger] self@[i].size >= t,
                forall|i: int| hi <= i < n ==> #[trigger] self@[i].size < t,
            decreases hi - lo,
        {
            let mid = lo + (hi - lo) / 2;
            if self.files[mid].size >= t {
                lo = mid + 1;
            } else {
                hi = mid;
            }
        }
        proof {
            let c = insert_pos(self@, t);
            if lo < c {
                assert(self@[lo as int].size >= t);
            } else if lo > c {
                assert(self@[c as int].size >= t);
            }
        }
        Some(lo)
    }

    /// Offers one file: it goes in at its place unless that place is at or
    /// past the capacity, and a file pushed past the capacity drops.
    pub fn smart_insert(&mut self, file: FileData)
        requires
            old(self).wf(),
        ensures
            final(self).wf(),
            final(self).cap() == old(self).cap(),
            final(self)@ == inserted(old(self)@, file, old(self).cap()),
    {
        proof {
            lemma_inserted(self@, file, self.cap());
            lemma_count_prefix(self@, file.size as int);
        }
        let pos = self.find_insert_position(&file.size);
        match pos {
            Some(p) => {
                self.files.insert(p, file);
                if self.files.len() > self.max_size {
                    self.files.pop();
                }
            },
            None => {},
        }
    }

    /// Merges `other` in: the result is the first `capacity` files of the
    /// stable descending merge, this collection's files first among equals,
    /// as if each file of `other` had been offered in turn.
    pub fn merge(&mut self, other: &FileCollection)
        requires
            old(self).wf(),
            other.wf(),
        ensures
            final(self).wf(),
            final(self).cap() == old(self).cap(),
            final(self)@ == merge_spec(old(self)@, other@, old(self).cap()),
    {
        let ghost sa = self@;
        let ghost sb = other@;
        proof {
            lemma_merged(sa, sb);
            lemma_merge_spec(sa, sb, self.cap());
        }
        let la = self.files.len();
        let lb = other.files.len();
        let m: usize = if lb > self.max_size - la {
            self.max_size
        } else {
            la + lb
        };
        let mut out: Vec<FileData> = Vec::new();
        let mut i: usize = 0;
        let mut j: usize = 0;
        proof {
            assert(sa.skip(0) =~= sa);
            assert(sb.skip(0) =~= sb);
            assert(merged(sa, sb).skip(0) =~= merged(sa, sb));
        }
        while out.len() < m
            invariant
                sa == self.files@,
                sb == other.files@,
                la == sa.len(),
                lb == sb.len(),
                m == capped(self.cap(), sa.len() + sb.len()),
                i <= la,
                j <= lb,
                i + j == out.len(),
                out.len() <= m,
                merged(sa, sb).len() == la + lb,
                out@ == merged(sa, sb).take(out.len() as int),
                merged(sa.skip(i as int), sb.skip(j as int)) == merged(sa, sb).skip(out.len() as int),
            decreases m - out.len(),
        {
            let ghost n = out.len() as int;
            let ghost whole = merged(sa, sb);
            let ghost sa_i = sa.skip(i as int);
            let ghost sb_j = sb.skip(j as int);
            if i < la && (j >= lb || self.files[i].size >= other.files[j].size) {
                let x = self.files[i].duplicate();
                proof {
                    assert(sa_i.drop_first() =~= sa.skip(i + 1));
                    if j >= lb {
                        assert(sb_j.len() == 0);
                    }
                    assert(merged(sa_i, sb_j) == seq![sa_i[0]] + merged(sa_i.drop_first(), sb_j));
                    assert(whole.skip(n)[0] == x);
                    assert(whole.skip(n + 1) =~= whole.skip(n).drop_first());
                }
                out.push(x);
                i = i + 1;
                proof {
                    assert(out@ =~= whole.take(n + 1));
                }
            } else {
                let x = other.files[j].duplicate();
                proof {
                    assert(sb_j.drop_first() =~= sb.skip(j + 1));
                    if i >= la {
                        assert(sa_i.len() == 0);
                        assert(merged(sa_i, sb_j) == sb_j);
                    }
                    assert(merged(sa_i, sb_j) == seq![sb_j[0]] + merged(sa_i, sb_j.drop_first()));
                    assert(whole.skip(n)[0] == x);
                    assert(whole.skip(n + 1) =~= whole.skip(n).drop_first());
                }
                out.push(x);
                j = j + 1;
                proof {
                    assert(out@ =~= whole.take(n + 1));
                }
            }
        }
        self.files = out;
    }
}

} // verus!
