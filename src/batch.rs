use vstd::prelude::*;
use crate::collection::FileCollection;
use crate::file_data::FileData;
use crate::top_k::{
    capped, count_at_least, drawn_from, lemma_count_prefix, lemma_count_push, lemma_inserted,
};

verus! {

/// How many files a batch gathers before it is handed on.
pub const BATCH_SIZE: usize = 256;

/// Gathers discovered files into batches, kept largest first, and hands each
/// full batch to a target collection at once. A batch whose largest file is
/// no larger than the smallest file of a full target is dropped whole.
pub struct BatchAccumulator {
    batch: FileCollection,
}

impl BatchAccumulator {
    /// The files gathered and not yet handed on.
    pub closed spec fn pending(&self) -> Seq<FileData> {
        self.batch@
    }

    pub closed spec fn inv(&self) -> bool {
        &&& self.batch.wf()
        &&& self.batch.cap() == BATCH_SIZE
    }

    /// Room is left for at least one more file.
    pub open spec fn wf(&self) -> bool {
        self.inv() && self.pending().len() < BATCH_SIZE
    }

    pub fn new() -> (r: Self)
        ensures
            r.wf(),
            r.pending() == Seq::<FileData>::empty(),
    {
        BatchAccumulator { batch: FileCollection::new(BATCH_SIZE) }
    }

    /// Hands the pending files to `target`: afterwards `target` holds what
    /// offering each of them would have left in it, and nothing is pending.
    pub fn flush(&mut self, target: &mut FileCollection)
        requires
            old(self).inv(),
            old(target).wf(),
        ensures
            final(self).wf(),
            final(self).pending() == Seq::<FileData>::empty(),
            final(target).wf(),
            final(target).cap() == old(target).cap(),
            drawn_from(final(target)@, old(target)@ + old(self).pending()),
            forall|v: int|
                #[trigger] count_at_least(final(target)@, v) == capped(
                    old(target).cap(),
                    count_at_least(old(target)@, v) + count_at_least(old(self).pending(), v),
                ),
    {
        let ghost t0 = target@;
        let ghost b = self.batch@;
        let ghost k = target.cap();
        let ghost both = t0 + b;
        proof {
            assert forall|i: int| 0 <= i < t0.len() implies both.contains(#[trigger] t0[i]) by {
                assert(both[i] == t0[i]);
            }
        }
        let n = self.batch.len();
        if n > 0 {
            let tl = target.len();
            let reject = tl >= target.capacity() && (tl == 0 || self.batch.files()[0].size
                <= target.files()[tl - 1].size);
            if reject {
                proof {
                    assert forall|v: int| #[trigger] count_at_least(t0, v) == capped(
                        k,
                        count_at_least(t0, v) + count_at_least(b, v),
                    ) by {
                        lemma_count_prefix(t0, v);
                        lemma_count_prefix(b, v);
                        if tl > 0 && v <= t0[tl - 1].size {
                            assert(t0[tl - 1].size >= v);
                        } else if tl > 0 && count_at_least(b, v) > 0 {
                            assert(b[0].size >= v);
                        }
                    }
                }
            } else {
                let mut i: usize = 0;
                proof {
                    assert(b.take(0) =~= Seq::<FileData>::empty());
                    assert forall|v: int| #[trigger] count_at_least(t0, v) == capped(
                        k,
                        count_at_least(t0, v) + count_at_least(b.take(0), v),
                    ) by {
                        lemma_count_prefix(t0, v);
                    }
                }
                while i < n
                    invariant
                        i <= n,
                        n == b.len(),
                        b == self.batch@,
                        both == t0 + b,
                        target.wf(),
                        target.cap() == k,
                        drawn_from(target@, both),
                        forall|v: int| #[trigger] count_at_least(target@, v) == capped(
                            k,
                            count_at_least(t0, v) + count_at_least(b.take(i as int), v),
                        ),
                    decreases n - i,
                {
                    let f = self.batch.files()[i].duplicate();
                    proof {
                        lemma_inserted(target@, f, k);
                        assert(b.take(i + 1) =~= b.take(i as int).push(f));
                        assert forall|v: int| #[trigger] count_at_least(b.take(i + 1), v) == count_at_least(
                            b.take(i as int),
                            v,
                        ) + (if f.size >= v { 1nat } else { 0nat }) by {
                            lemma_count_push(b.take(i as int), f, v);
                        }
                        assert(both[t0.len() + i] == f);
                    }
                    target.smart_insert(f);
                    i = i + 1;
                }
                proof {
                    assert(b.take(n as int) =~= b);
                }
            }
        } else {
            proof {
                assert forall|v: int| #[trigger] count_at_least(t0, v) == capped(
                    k,
                    count_at_least(t0, v) + count_at_least(b, v),
                ) by {
                    lemma_count_prefix(t0, v);
                }
            }
        }
        self.batch = FileCollection::new(BATCH_SIZE);
    }

    /// Gathers one file; a batch that becomes full is handed to `target`.
    /// Taken together, `target` and the pending files stand for every file
    /// offered so far.
    pub fn add(&mut self, target: &mut FileCollection, file: FileData)
        requires
            old(self).wf(),
            old(target).wf(),
        ensures
            final(self).wf(),
            final(target).wf(),
            final(target).cap() == old(target).cap(),
            drawn_from(final(target)@, old(target)@ + old(self).pending().push(file)),
            drawn_from(final(self).pending(), old(self).pending().push(file)),
            forall|v: int|
                #[trigger] capped(
                    old(target).cap(),
                    count_at_least(final(target)@, v) + count_at_least(final(self).pending(), v),
                ) == capped(
                    old(target).cap(),
                    count_at_least(old(target)@, v) + count_at_least(old(self).pending(), v) + (
                    if file.size >= v {
                        1nat
                    } else {
                        0nat
                    }),
                ),
    {
        let ghost b = self.batch@;
        let ghost bf = b.push(file);
        proof {
            lemma_inserted(b, file, BATCH_SIZE as nat);
            lemma_count_prefix(b, file.size as int);
        }
        self.batch.smart_insert(file);
        proof {
            assert forall|v: int| #[trigger] count_at_least(self.batch@, v) == count_at_least(bf, v)
                && count_at_least(bf, v) == count_at_least(b, v) + (if file.size >= v { 1nat } else { 0nat }) by {
                lemma_count_prefix(b, v);
                lemma_count_push(b, file, v);
            }
            assert forall|i: int| 0 <= i < self.batch@.len() implies bf.contains(#[trigger] self.batch@[i]) by {
                if self.batch@[i] == file {
                    assert(bf[b.len() as int] == file);
                } else {
                    let j = choose|j: int| 0 <= j < b.len() && b[j] == self.batch@[i];
                    assert(bf[j] == b[j]);
                }
            }
        }
        if self.batch.len() == BATCH_SIZE {
            let ghost t0 = target@;
            let ghost nb = self.batch@;
            self.flush(target);
            proof {
                assert forall|i: int| 0 <= i < target@.len() implies (t0 + bf).contains(#[trigger] target@[i]) by {
                    if t0.contains(target@[i]) {
                        let j = choose|j: int| 0 <= j < t0.len() && t0[j] == target@[i];
                        assert((t0 + bf)[j] == t0[j]);
                    } else {
                        let j = choose|j: int| 0 <= j < (t0 + nb).len() && (t0 + nb)[j] == target@[i];
                        assert(nb.contains(nb[j - t0.len()]));
                        let q = choose|q: int| 0 <= q < bf.len() && bf[q] == nb[j - t0.len()];
                        assert((t0 + bf)[t0.len() + q] == bf[q]);
                    }
                }
                assert forall|v: int| #[trigger] capped(
                    target.cap(),
                    count_at_least(target@, v) + count_at_least(self.pending(), v),
                ) == capped(
                    target.cap(),
                    count_at_least(t0, v) + count_at_least(b, v) + (if file.size >= v { 1nat } else { 0nat }),
                ) by {
                    assert(count_at_least(self.pending(), v) == 0);
                    assert(count_at_least(nb, v) == count_at_least(bf, v));
                    lemma_count_push(b, file, v);
                }
            }
        } else {
            proof {
                assert forall|i: int| 0 <= i < target@.len() implies (target@ + bf).contains(#[trigger] target@[i]) by {
                    assert((target@ + bf)[i] == target@[i]);
                }
            }
        }
    }
}

} // verus!
