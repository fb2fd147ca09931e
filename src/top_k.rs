use vstd::prelude::*;
use crate::file_data::FileData;

verus! {

/// `c`, but never more than `k`.
pub open spec fn capped(k: nat, c: nat) -> nat {
    if c < k {
        c
    } else {
        k
    }
}

/// Every entry is at least as large as each entry after it.
pub open spec fn sorted_desc(s: Seq<FileData>) -> bool {
    forall|i: int, j: int| 0 <= i < j < s.len() ==> s[i].size >= s[j].size
}

/// How many entries of `s` hold at least `v` bytes.
pub open spec fn count_at_least(s: Seq<FileData>, v: int) -> nat
    decreases s.len(),
{
    if s.len() == 0 {
        0
    } else {
        (if s[0].size >= v {
            1nat
        } else {
            0nat
        }) + count_at_least(s.drop_first(), v)
    }
}

/// The sizes of `s`, in order.
pub open spec fn sizes(s: Seq<FileData>) -> Seq<u64> {
    s.map_values(|f: FileData| f.size)
}

/// Each entry of `r` is an entry of `src`.
pub open spec fn drawn_from(r: Seq<FileData>, src: Seq<FileData>) -> bool {
    forall|i: int| 0 <= i < r.len() ==> src.contains(#[trigger] r[i])
}

/// `r` holds the `k` largest entries of `input`, largest first: for every
/// threshold it holds as many entries of at least that size as `input` does,
/// up to `k`. Entries of equal size may be picked and ordered either way.
pub open spec fn is_top_k(r: Seq<FileData>, input: Seq<FileData>, k: nat) -> bool {
    &&& sorted_desc(r)
    &&& r.len() <= k
    &&& drawn_from(r, input)
    &&& forall|v: int| #[trigger] count_at_least(r, v) == capped(k, count_at_least(input, v))
}

/// Where an entry of `size` bytes goes in a descending sequence: after every
/// entry of at least that size.
pub open spec fn insert_pos(s: Seq<FileData>, size: u64) -> nat {
    count_at_least(s, size as int)
}

/// `s` after offering it `e` under capacity `cap`: `e` goes in at its place
/// unless that place is at or past `cap`, and an entry pushed past `cap` drops.
pub open spec fn inserted(s: Seq<FileData>, e: FileData, cap: nat) -> Seq<FileData> {
    let p = insert_pos(s, e.size);
    if p < cap {
        let t = s.insert(p as int, e);
        if t.len() > cap {
            t.drop_last()
        } else {
            t
        }
    } else {
        s
    }
}

/// The stable descending merge of `a` and `b`: on equal sizes, `a` comes first.
pub open spec fn merged(a: Seq<FileData>, b: Seq<FileData>) -> Seq<FileData>
    decreases a.len() + b.len(),
{
    if a.len() == 0 {
        b
    } else if b.len() == 0 {
        a
    } else if a[0].size >= b[0].size {
        seq![a[0]] + merged(a.drop_first(), b)
    } else {
        seq![b[0]] + merged(a, b.drop_first())
    }
}

/// The first `cap` entries of the merge of `a` and `b`.
pub open spec fn merge_spec(a: Seq<FileData>, b: Seq<FileData>, cap: nat) -> Seq<FileData> {
    merged(a, b).take(capped(cap, a.len() + b.len()) as int)
}

pub proof fn lemma_count_concat(a: Seq<FileData>, b: Seq<FileData>, v: int)
    ensures
        count_at_least(a + b, v) == count_at_least(a, v) + count_at_least(b, v),
    decreases a.len(),
{
    if a.len() > 0 {
        assert((a + b).drop_first() =~= a.drop_first() + b);
        lemma_count_concat(a.drop_first(), b, v);
    } else {
        assert(a + b =~= b);
    }
}

pub proof fn lemma_count_one(e: FileData, v: int)
    ensures
        count_at_least(seq![e], v) == (if e.size >= v { 1nat } else { 0nat }),
{
    assert(seq![e].drop_first() =~= Seq::<FileData>::empty());
    assert(count_at_least(Seq::<FileData>::empty(), v) == 0);
}

/// In a descending sequence the entries of at least `v` bytes form a prefix,
/// and its length is their count.
pub proof fn lemma_count_prefix(s: Seq<FileData>, v: int)
    requires
        sorted_desc(s),
    ensures
        count_at_least(s, v) <= s.len(),
        forall|i: int| 0 <= i < s.len() ==> (i < count_at_least(s, v) <==> #[trigger] s[i].size >= v),
    decreases s.len(),
{
    if s.len() > 0 {
        let t = s.drop_first();
        assert(sorted_desc(t)) by {
            assert forall|i: int, j: int| 0 <= i < j < t.len() implies t[i].size >= t[j].size by {
                assert(t[i] == s[i + 1] && t[j] == s[j + 1]);
            }
        }
        lemma_count_prefix(t, v);
        assert forall|i: int| 0 <= i < s.len() implies (i < count_at_least(s, v) <==> s[i].size >= v) by {
            if i > 0 {
                assert(s[i] == t[i - 1]);
            } else if s[0].size < v && count_at_least(t, v) > 0 {
                assert(t[0] == s[1]);
            }
        }
    }
}

/// Cutting a descending sequence to its first `m` entries caps every count at `m`.
pub proof fn lemma_count_take(t: Seq<FileData>, m: int, v: int)
    requires
        sorted_desc(t),
        0 <= m <= t.len(),
    ensures
        sorted_desc(t.take(m)),
        count_at_least(t.take(m), v) == capped(m as nat, count_at_least(t, v)),
{
    let tm = t.take(m);
    assert(sorted_desc(tm)) by {
        assert forall|i: int, j: int| 0 <= i < j < tm.len() implies tm[i].size >= tm[j].size by {
            assert(tm[i] == t[i] && tm[j] == t[j]);
        }
    }
    lemma_count_prefix(t, v);
    lemma_count_prefix(tm, v);
    let c = count_at_least(t, v);
    let d = count_at_least(tm, v);
    if d < capped(m as nat, c) {
        assert(tm[d as int] == t[d as int]);
        assert(t[d as int].size >= v);
    } else if d > capped(m as nat, c) {
        assert(tm[d - 1] == t[d - 1]);
        assert(tm[d - 1].size >= v);
    }
}

/// Placing `e` at its place in a descending sequence keeps it descending,
/// and adds `e` to every count it reaches.
pub proof fn lemma_insert_at_pos(s: Seq<FileData>, e: FileData)
    requires
        sorted_desc(s),
    ensures
        sorted_desc(s.insert(insert_pos(s, e.size) as int, e)),
        forall|i: int|
            0 <= i < s.len() + 1 ==> (#[trigger] s.insert(insert_pos(s, e.size) as int, e)[i] == e
                || s.contains(s.insert(insert_pos(s, e.size) as int, e)[i])),
        forall|v: int|
            #[trigger] count_at_least(s.insert(insert_pos(s, e.size) as int, e), v) == count_at_least(s, v)
                + (if e.size >= v { 1nat } else { 0nat }),
{
    let p = insert_pos(s, e.size);
    lemma_count_prefix(s, e.size as int);
    let t = s.insert(p as int, e);
    assert(sorted_desc(t)) by {
        assert forall|i: int, j: int| 0 <= i < j < t.len() implies t[i].size >= t[j].size by {
            if j < p {
                assert(t[i] == s[i] && t[j] == s[j]);
            } else if j == p {
                assert(t[i] == s[i]);
            } else if i == p {
                assert(t[j] == s[j - 1]);
            } else if i < p {
                assert(t[i] == s[i] && t[j] == s[j - 1]);
            } else {
                assert(t[i] == s[i - 1] && t[j] == s[j - 1]);
            }
        }
    }
    assert forall|i: int| 0 <= i < t.len() implies (t[i] == e || s.contains(t[i])) by {
        if i < p {
            assert(t[i] == s[i]);
        } else if i > p {
            assert(t[i] == s[i - 1]);
        }
    }
    assert(t =~= s.take(p as int) + seq![e] + s.skip(p as int));
    assert(s =~= s.take(p as int) + s.skip(p as int));
    assert forall|v: int|
        #[trigger] count_at_least(t, v) == count_at_least(s, v) + (if e.size >= v { 1nat } else { 0nat }) by {
        lemma_count_concat(s.take(p as int) + seq![e], s.skip(p as int), v);
        lemma_count_concat(s.take(p as int), seq![e], v);
        lemma_count_concat(s.take(p as int), s.skip(p as int), v);
        lemma_count_one(e, v);
    }
}

/// Dropping the last entry of a descending sequence of `cap + 1` entries caps
/// every count at `cap`.
pub proof fn lemma_drop_last_count(t: Seq<FileData>, cap: nat)
    requires
        sorted_desc(t),
        t.len() == cap + 1,
    ensures
        sorted_desc(t.drop_last()),
        forall|v: int| #[trigger] count_at_least(t.drop_last(), v) == capped(cap, count_at_least(t, v)),
{
    assert(t.drop_last() =~= t.take(cap as int));
    assert forall|v: int| #[trigger] count_at_least(t.drop_last(), v) == capped(cap, count_at_least(t, v)) by {
        lemma_count_take(t, cap as int, v);
    }
    lemma_count_take(t, cap as int, 0);
}

/// What offering one entry does: the result stays descending and within
/// `cap`, its entries come from `s` or are `e`, and every count grows by
/// what `e` adds, up to `cap`.
pub proof fn lemma_inserted(s: Seq<FileData>, e: FileData, cap: nat)
    requires
        sorted_desc(s),
        s.len() <= cap,
    ensures
        sorted_desc(inserted(s, e, cap)),
        inserted(s, e, cap).len() <= cap,
        forall|i: int|
            0 <= i < inserted(s, e, cap).len() ==> (#[trigger] inserted(s, e, cap)[i] == e
                || s.contains(inserted(s, e, cap)[i])),
        forall|v: int|
            #[trigger] count_at_least(inserted(s, e, cap), v) == capped(
                cap,
                count_at_least(s, v) + (if e.size >= v { 1nat } else { 0nat }),
            ),
{
    let p = insert_pos(s, e.size);
    lemma_count_prefix(s, e.size as int);
    if p < cap {
        let t = s.insert(p as int, e);
        lemma_insert_at_pos(s, e);
        if t.len() > cap {
            lemma_drop_last_count(t, cap);
            assert forall|i: int| 0 <= i < t.drop_last().len() implies (t.drop_last()[i] == e
                || s.contains(t.drop_last()[i])) by {
                assert(t.drop_last()[i] == t[i]);
            }
        } else {
            assert forall|v: int| #[trigger] count_at_least(t, v) == capped(cap, count_at_least(t, v)) by {
                lemma_count_prefix(t, v);
            }
        }
    } else {
        assert forall|v: int|
            #[trigger] count_at_least(s, v) == capped(
                cap,
                count_at_least(s, v) + (if e.size >= v { 1nat } else { 0nat }),
            ) by {
            lemma_count_prefix(s, v);
            if e.size >= v && s.len() > 0 {
                assert(s[s.len() - 1].size >= v);
            }
        }
    }
}

/// Every entry of the merge is bounded by whatever bounds both inputs.
pub proof fn lemma_merged_bounded(a: Seq<FileData>, b: Seq<FileData>, w: int)
    requires
        forall|i: int| 0 <= i < a.len() ==> #[trigger] a[i].size <= w,
        forall|i: int| 0 <= i < b.len() ==> #[trigger] b[i].size <= w,
    ensures
        forall|i: int| 0 <= i < merged(a, b).len() ==> #[trigger] merged(a, b)[i].size <= w,
    decreases a.len() + b.len(),
{
    if a.len() > 0 && b.len() > 0 {
        if a[0].size >= b[0].size {
            let a1 = a.drop_first();
            assert forall|i: int| 0 <= i < a1.len() implies #[trigger] a1[i].size <= w by {
                assert(a1[i] == a[i + 1]);
            }
            lemma_merged_bounded(a1, b, w);
            let m = merged(a, b);
            assert forall|i: int| 0 <= i < m.len() implies #[trigger] m[i].size <= w by {
                if i > 0 {
                    assert(m[i] == merged(a1, b)[i - 1]);
                }
            }
        } else {
            let b1 = b.drop_first();
            assert forall|i: int| 0 <= i < b1.len() implies #[trigger] b1[i].size <= w by {
                assert(b1[i] == b[i + 1]);
            }
            lemma_merged_bounded(a, b1, w);
            let m = merged(a, b);
            assert forall|i: int| 0 <= i < m.len() implies #[trigger] m[i].size <= w by {
                if i > 0 {
                    assert(m[i] == merged(a, b1)[i - 1]);
                }
            }
        }
    }
}

/// The merge of two descending sequences is descending, holds both, and
/// holds nothing else.
pub proof fn lemma_merged(a: Seq<FileData>, b: Seq<FileData>)
    requires
        sorted_desc(a),
        sorted_desc(b),
    ensures
        merged(a, b).len() == a.len() + b.len(),
        sorted_desc(merged(a, b)),
        forall|i: int|
            0 <= i < merged(a, b).len() ==> a.contains(#[trigger] merged(a, b)[i]) || b.contains(
                merged(a, b)[i],
            ),
        forall|v: int|
            #[trigger] count_at_least(merged(a, b), v) == count_at_least(a, v) + count_at_least(b, v),
    decreases a.len() + b.len(),
{
    let m = merged(a, b);
    if a.len() == 0 {
        assert forall|v: int| #[trigger] count_at_least(m, v) == count_at_least(a, v) + count_at_least(b, v) by {
            assert(count_at_least(a, v) == 0);
        }
    } else if b.len() == 0 {
        assert forall|v: int| #[trigger] count_at_least(m, v) == count_at_least(a, v) + count_at_least(b, v) by {
            assert(count_at_least(b, v) == 0);
        }
    } else {
        let (x, a1, b1) = if a[0].size >= b[0].size {
            (a[0], a.drop_first(), b)
        } else {
            (b[0], a, b.drop_first())
        };
        assert(sorted_desc(a1)) by {
            assert forall|i: int, j: int| 0 <= i < j < a1.len() implies a1[i].size >= a1[j].size by {
                if a[0].size >= b[0].size {
                    assert(a1[i] == a[i + 1] && a1[j] == a[j + 1]);
                }
            }
        }
        assert(sorted_desc(b1)) by {
            assert forall|i: int, j: int| 0 <= i < j < b1.len() implies b1[i].size >= b1[j].size by {
                if a[0].size < b[0].size {
                    assert(b1[i] == b[i + 1] && b1[j] == b[j + 1]);
                }
            }
        }
        lemma_merged(a1, b1);
        let rest = merged(a1, b1);
        assert(m == seq![x] + rest);
        assert forall|i: int| 0 <= i < a1.len() implies #[trigger] a1[i].size <= x.size by {
            if a[0].size >= b[0].size {
                assert(a1[i] == a[i + 1]);
            }
        }
        assert forall|i: int| 0 <= i < b1.len() implies #[trigger] b1[i].size <= x.size by {
            if a[0].size < b[0].size {
                assert(b1[i] == b[i + 1]);
            }
        }
        lemma_merged_bounded(a1, b1, x.size as int);
        assert(sorted_desc(m)) by {
            assert forall|i: int, j: int| 0 <= i < j < m.len() implies m[i].size >= m[j].size by {
                assert(m[j] == rest[j - 1]);
                if i > 0 {
                    assert(m[i] == rest[i - 1]);
                }
            }
        }
        assert forall|i: int| 0 <= i < m.len() implies a.contains(#[trigger] m[i]) || b.contains(m[i]) by {
            if i == 0 {
                if a[0].size >= b[0].size {
                    assert(a[0] == m[0]);
                } else {
                    assert(b[0] == m[0]);
                }
            } else {
                assert(m[i] == rest[i - 1]);
                if a1.contains(rest[i - 1]) {
                    let k = choose|k: int| 0 <= k < a1.len() && a1[k] == rest[i - 1];
                    if a[0].size >= b[0].size {
                        assert(a[k + 1] == a1[k]);
                    }
                } else {
                    let k = choose|k: int| 0 <= k < b1.len() && b1[k] == rest[i - 1];
                    if a[0].size < b[0].size {
                        assert(b[k + 1] == b1[k]);
                    }
                }
            }
        }
        assert forall|v: int| #[trigger] count_at_least(m, v) == count_at_least(a, v) + count_at_least(b, v) by {
            lemma_count_concat(seq![x], rest, v);
            lemma_count_one(x, v);
        }
    }
}

/// Taking the first `cap` entries of the merge of two descending sequences
/// gives a top-`cap` selection of both together.
pub proof fn lemma_merge_spec(a: Seq<FileData>, b: Seq<FileData>, cap: nat)
    requires
        sorted_desc(a),
        sorted_desc(b),
    ensures
        sorted_desc(merge_spec(a, b, cap)),
        merge_spec(a, b, cap).len() <= cap,
        forall|i: int|
            0 <= i < merge_spec(a, b, cap).len() ==> a.contains(#[trigger] merge_spec(a, b, cap)[i])
                || b.contains(merge_spec(a, b, cap)[i]),
        forall|v: int|
            #[trigger] count_at_least(merge_spec(a, b, cap), v) == capped(
                cap,
                count_at_least(a, v) + count_at_least(b, v),
            ),
{
    let m = merged(a, b);
    lemma_merged(a, b);
    let n = capped(cap, a.len() + b.len());
    assert forall|v: int| #[trigger] count_at_least(merge_spec(a, b, cap), v) == capped(
        cap,
        count_at_least(a, v) + count_at_least(b, v),
    ) by {
        lemma_count_take(m, n as int, v);
        lemma_count_prefix(m, v);
    }
    lemma_count_take(m, n as int, 0);
    assert forall|i: int| 0 <= i < merge_spec(a, b, cap).len() implies a.contains(
        #[trigger] merge_spec(a, b, cap)[i],
    ) || b.contains(merge_spec(a, b, cap)[i]) by {
        assert(merge_spec(a, b, cap)[i] == m[i]);
    }
}

/// A descending sequence within `k` entries is a top-`k` selection of itself.
pub proof fn lemma_top_k_of_itself(r: Seq<FileData>, k: nat)
    requires
        sorted_desc(r),
        r.len() <= k,
    ensures
        is_top_k(r, r, k),
{
    assert forall|v: int| #[trigger] count_at_least(r, v) == capped(k, count_at_least(r, v)) by {
        lemma_count_prefix(r, v);
    }
    assert forall|i: int| 0 <= i < r.len() implies r.contains(#[trigger] r[i]) by {
        assert(r[i] == r[i]);
    }
}

/// Appending one entry to a sequence adds that entry to every count it reaches.
pub proof fn lemma_count_push(s: Seq<FileData>, e: FileData, v: int)
    ensures
        count_at_least(s.push(e), v) == count_at_least(s, v) + (if e.size >= v { 1nat } else { 0nat }),
{
    assert(s.push(e) =~= s + seq![e]);
    lemma_count_concat(s, seq![e], v);
    lemma_count_one(e, v);
}

} // verus!
