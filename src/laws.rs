use vstd::prelude::*;
use crate::file_data::FileData;
use crate::top_k::{
    capped, count_at_least, inserted, is_top_k, lemma_count_concat, lemma_count_prefix, lemma_inserted,
    lemma_merge_spec, merge_spec, sizes, sorted_desc,
};
use crate::walk::{file_of, qualifies, qualifying_files, DirEntryInfo};

verus! {

/// Two descending sequences that agree on how many entries reach every
/// threshold hold the same sizes in the same order.
pub proof fn lemma_counts_fix_sizes(r1: Seq<FileData>, r2: Seq<FileData>)
    requires
        sorted_desc(r1),
        sorted_desc(r2),
        forall|v: int| #[trigger] count_at_least(r1, v) == count_at_least(r2, v),
    ensures
        sizes(r1) == sizes(r2),
{
    lemma_count_prefix(r1, 0);
    lemma_count_prefix(r2, 0);
    if r1.len() > 0 {
        assert(r1[r1.len() - 1].size >= 0);
    }
    if r2.len() > 0 {
        assert(r2[r2.len() - 1].size >= 0);
    }
    assert(r1.len() == r2.len());
    assert forall|i: int| 0 <= i < r1.len() implies r1[i].size == r2[i].size by {
        let w1 = r1[i].size as int;
        let w2 = r2[i].size as int;
        lemma_count_prefix(r1, w1);
        lemma_count_prefix(r2, w1);
        lemma_count_prefix(r1, w2);
        lemma_count_prefix(r2, w2);
    }
    assert(sizes(r1) =~= sizes(r2));
}

/// Any two top-`k` selections of the same files keep the same sizes in the
/// same order; only files of equal size may differ.
pub proof fn lemma_top_k_sizes_unique(r1: Seq<FileData>, r2: Seq<FileData>, input: Seq<FileData>, k: nat)
    requires
        is_top_k(r1, input, k),
        is_top_k(r2, input, k),
    ensures
        sizes(r1) == sizes(r2),
{
    assert forall|v: int| #[trigger] count_at_least(r1, v) == count_at_least(r2, v) by {
        assert(count_at_least(r1, v) == capped(k, count_at_least(input, v)));
        assert(count_at_least(r2, v) == capped(k, count_at_least(input, v)));
    }
    lemma_counts_fix_sizes(r1, r2);
}

/// Batching makes no difference to what a listing yields: a result gathered
/// through batches and one gathered file by file keep the same sizes.
pub proof fn lemma_batching_unobservable(
    entries: Seq<DirEntryInfo>,
    k: nat,
    batched: Seq<FileData>,
    direct: Seq<FileData>,
)
    requires
        is_top_k(batched, qualifying_files(entries), k),
        is_top_k(direct, qualifying_files(entries), k),
    ensures
        sizes(batched) == sizes(direct),
{
    lemma_top_k_sizes_unique(batched, direct, qualifying_files(entries), k);
}

/// Merging is commutative and associative in the sizes it keeps: whatever
/// the order or grouping of the operands, the same sizes remain.
pub proof fn lemma_merge_order_irrelevant(a: Seq<FileData>, b: Seq<FileData>, c: Seq<FileData>, k: nat)
    requires
        sorted_desc(a),
        sorted_desc(b),
        sorted_desc(c),
    ensures
        sizes(merge_spec(a, b, k)) == sizes(merge_spec(b, a, k)),
        sizes(merge_spec(merge_spec(a, b, k), c, k)) == sizes(merge_spec(a, merge_spec(b, c, k), k)),
{
    lemma_merge_spec(a, b, k);
    lemma_merge_spec(b, a, k);
    lemma_counts_fix_sizes(merge_spec(a, b, k), merge_spec(b, a, k));
    lemma_merge_spec(b, c, k);
    lemma_merge_spec(merge_spec(a, b, k), c, k);
    lemma_merge_spec(a, merge_spec(b, c, k), k);
    lemma_counts_fix_sizes(merge_spec(merge_spec(a, b, k), c, k), merge_spec(a, merge_spec(b, c, k), k));
}

/// `s` after offering it each entry of `es` in turn.
pub open spec fn inserted_all(s: Seq<FileData>, es: Seq<FileData>, cap: nat) -> Seq<FileData>
    decreases es.len(),
{
    if es.len() == 0 {
        s
    } else {
        inserted_all(inserted(s, es[0], cap), es.drop_first(), cap)
    }
}

proof fn lemma_inserted_all(s: Seq<FileData>, es: Seq<FileData>, cap: nat)
    requires
        sorted_desc(s),
        s.len() <= cap,
    ensures
        sorted_desc(inserted_all(s, es, cap)),
        forall|v: int|
            #[trigger] count_at_least(inserted_all(s, es, cap), v) == capped(
                cap,
                count_at_least(s, v) + count_at_least(es, v),
            ),
    decreases es.len(),
{
    if es.len() == 0 {
        assert forall|v: int| #[trigger] count_at_least(inserted_all(s, es, cap), v) == capped(
            cap,
            count_at_least(s, v) + count_at_least(es, v),
        ) by {
            lemma_count_prefix(s, v);
        }
    } else {
        let s1 = inserted(s, es[0], cap);
        lemma_inserted(s, es[0], cap);
        lemma_inserted_all(s1, es.drop_first(), cap);
    }
}

/// Merging keeps the same sizes as offering each file of the other
/// collection, one at a time, largest first.
pub proof fn lemma_merge_matches_inserting(a: Seq<FileData>, b: Seq<FileData>, k: nat)
    requires
        sorted_desc(a),
        sorted_desc(b),
        a.len() <= k,
    ensures
        sizes(merge_spec(a, b, k)) == sizes(inserted_all(a, b, k)),
{
    lemma_merge_spec(a, b, k);
    lemma_inserted_all(a, b, k);
    lemma_counts_fix_sizes(merge_spec(a, b, k), inserted_all(a, b, k));
}

/// Reducing subtree by subtree is sound: a top-`k` selection of what two
/// top-`k` selections keep is a top-`k` selection of all their files.
pub proof fn lemma_top_k_compose(
    a: Seq<FileData>,
    all_a: Seq<FileData>,
    b: Seq<FileData>,
    all_b: Seq<FileData>,
    r: Seq<FileData>,
    k: nat,
)
    requires
        is_top_k(a, all_a, k),
        is_top_k(b, all_b, k),
        is_top_k(r, a + b, k),
    ensures
        is_top_k(r, all_a + all_b, k),
{
    assert forall|v: int| #[trigger] count_at_least(r, v) == capped(k, count_at_least(all_a + all_b, v)) by {
        lemma_count_concat(a, b, v);
        lemma_count_concat(all_a, all_b, v);
        assert(count_at_least(a, v) == capped(k, count_at_least(all_a, v)));
        assert(count_at_least(b, v) == capped(k, count_at_least(all_b, v)));
    }
    assert forall|i: int| 0 <= i < r.len() implies (all_a + all_b).contains(#[trigger] r[i]) by {
        let x = choose|x: int| 0 <= x < (a + b).len() && (a + b)[x] == r[i];
        if x < a.len() {
            assert(a.contains(a[x]));
            let y = choose|y: int| 0 <= y < all_a.len() && all_a[y] == a[x];
            assert((all_a + all_b)[y] == all_a[y]);
        } else {
            assert(b.contains(b[x - a.len()]));
            let y = choose|y: int| 0 <= y < all_b.len() && all_b[y] == b[x - a.len()];
            assert((all_a + all_b)[all_a.len() + y] == all_b[y]);
        }
    }
}

/// A sequence holding a file of `w` bytes has more entries of at least `w`
/// bytes than of at least `w + 1`.
proof fn lemma_count_drops_past(s: Seq<FileData>, x: FileData)
    ensures
        count_at_least(s, x.size as int) >= count_at_least(s, x.size + 1),
        s.contains(x) ==> count_at_least(s, x.size as int) > count_at_least(s, x.size + 1),
    decreases s.len(),
{
    if s.len() > 0 {
        lemma_count_drops_past(s.drop_first(), x);
        if s.contains(x) && s[0] != x {
            let j = choose|j: int| 0 <= j < s.len() && s[j] == x;
            assert(s.drop_first()[j - 1] == x);
        }
    }
}

/// Where all sizes differ, the result is exactly the files that have fewer
/// than `k` larger files beside them.
pub proof fn lemma_top_k_exact_for_distinct_sizes(r: Seq<FileData>, input: Seq<FileData>, k: nat)
    requires
        is_top_k(r, input, k),
        forall|i: int, j: int|
            0 <= i < input.len() && 0 <= j < input.len() && i != j ==> input[i].size != input[j].size,
    ensures
        forall|x: FileData|
            input.contains(x) ==> (r.contains(x) <==> #[trigger] count_at_least(input, x.size + 1) < k),
{
    assert forall|x: FileData| input.contains(x) implies (r.contains(x) <==> #[trigger] count_at_least(
        input,
        x.size + 1,
    ) < k) by {
        let w = x.size as int;
        lemma_count_prefix(r, w);
        lemma_count_prefix(r, w + 1);
        assert(count_at_least(r, w + 1) == capped(k, count_at_least(input, w + 1)));
        assert(count_at_least(r, w) == capped(k, count_at_least(input, w)));
        if r.contains(x) {
            let i = choose|i: int| 0 <= i < r.len() && r[i] == x;
            assert(!(r[i].size >= w + 1));
        }
        if count_at_least(input, w + 1) < k {
            lemma_count_drops_past(input, x);
            let i = count_at_least(r, w + 1) as int;
            assert(r[i].size >= w);
            let y = r[i];
            assert(input.contains(y));
            let a = choose|a: int| 0 <= a < input.len() && input[a] == y;
            let b = choose|b: int| 0 <= b < input.len() && input[b] == x;
            assert(a == b);
        }
    }
}

/// `x` is the file of some candidate entry of `s`.
spec fn comes_from_listing(s: Seq<DirEntryInfo>, x: FileData) -> bool {
    exists|j: int| 0 <= j < s.len() && qualifies(s[j]) && file_of(s[j]) == x
}

/// Each candidate of a listing stands for a regular file of the listing
/// whose size is known and not zero.
proof fn lemma_candidates_qualify(s: Seq<DirEntryInfo>)
    ensures
        forall|i: int|
            0 <= i < qualifying_files(s).len() ==> comes_from_listing(s, #[trigger] qualifying_files(s)[i]),
    decreases s.len(),
{
    if s.len() > 0 {
        let s0 = s.drop_last();
        let q0 = qualifying_files(s0);
        lemma_candidates_qualify(s0);
        let q = qualifying_files(s);
        assert forall|i: int| 0 <= i < q.len() implies comes_from_listing(s, #[trigger] q[i]) by {
            if i < q0.len() {
                assert(q[i] == q0[i]);
                assert(comes_from_listing(s0, q0[i]));
                let j = choose|j: int| 0 <= j < s0.len() && qualifies(s0[j]) && file_of(s0[j]) == q0[i];
                assert(s[j] == s0[j]);
            } else {
                assert(qualifies(s[s.len() - 1]));
                assert(q[i] == file_of(s[s.len() - 1]));
            }
        }
    }
}

/// No result holds anything but a regular file of non-zero size from the
/// listing: empty files, directories, links and other entries never appear.
pub proof fn lemma_results_exclude(entries: Seq<DirEntryInfo>, r: Seq<FileData>, k: nat)
    requires
        is_top_k(r, qualifying_files(entries), k),
    ensures
        forall|i: int| 0 <= i < r.len() ==> (#[trigger] r[i]).size > 0,
        forall|i: int|
            0 <= i < r.len() ==> exists|j: int|
                0 <= j < entries.len() && entries[j].kind is File && file_of(entries[j]) == #[trigger] r[i],
{
    let q = qualifying_files(entries);
    lemma_candidates_qualify(entries);
    assert forall|i: int| 0 <= i < r.len() implies (#[trigger] r[i]).size > 0 && exists|j: int|
        0 <= j < entries.len() && entries[j].kind is File && file_of(entries[j]) == r[i] by {
        let y = choose|y: int| 0 <= y < q.len() && q[y] == r[i];
        assert(comes_from_listing(entries, q[y]));
        let j = choose|j: int| 0 <= j < entries.len() && qualifies(entries[j]) && file_of(entries[j]) == q[y];
    }
}

} // verus!
