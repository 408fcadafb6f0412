//! Threshold batching of parsed records: records accumulate in order and are
//! handed out as full batches of a configured size, with one final, possibly
//! undersized, batch at end of stream.

use vstd::arithmetic::div_mod::{
    lemma_basic_div, lemma_div_plus_one, lemma_mod_add_multiples_vanish, lemma_small_mod,
};
use vstd::prelude::*;

use crate::record::{PageData, PageInfo};

verus! {

/// The records `rs` cut into consecutive batches of `t`, in order, the last
/// batch possibly smaller; no batch is empty and nothing is dropped.
pub open spec fn spec_batches<T>(rs: Seq<T>, t: nat) -> Seq<Seq<T>>
    decreases rs.len(),
    when t >= 1
{
    if rs.len() == 0 {
        Seq::empty()
    } else if rs.len() <= t {
        seq![rs]
    } else {
        seq![rs.take(t as int)] + spec_batches(rs.skip(t as int), t)
    }
}

/// The batches laid end to end.
pub open spec fn batches_concat<T>(bs: Seq<Seq<T>>) -> Seq<T>
    decreases bs.len(),
{
    if bs.len() == 0 {
        Seq::empty()
    } else {
        bs[0] + batches_concat(bs.drop_first())
    }
}

/// Cutting into batches splits over a concatenation whose first part is a
/// whole number of batches.
proof fn lemma_batches_aligned_split<T>(a: Seq<T>, b: Seq<T>, t: nat)
    requires
        t >= 1,
        a.len() as int % (t as int) == 0,
    ensures
        spec_batches(a + b, t) == spec_batches(a, t) + spec_batches(b, t),
    decreases a.len(),
{
    if a.len() == 0 {
        assert(a + b =~= b);
        assert(spec_batches(a, t) + spec_batches(b, t) =~= spec_batches(b, t));
    } else {
        if a.len() < t {
            lemma_small_mod(a.len(), t);
            assert(false);
        }
        assert((a + b).len() > 0);
        if (a + b).len() <= t {
            // Then a.len() == t and b is empty.
            assert(a.len() == t);
            assert(b.len() == 0);
            assert(a + b =~= a);
            assert(spec_batches(b, t) =~= Seq::<Seq<T>>::empty());
            assert(spec_batches(a, t) + spec_batches(b, t) =~= spec_batches(a, t));
        } else {
            assert((a + b).take(t as int) =~= a.take(t as int));
            assert((a + b).skip(t as int) =~= a.skip(t as int) + b);
            lemma_mod_add_multiples_vanish(a.len() - t, t as int);
            assert(a.skip(t as int).len() as int % (t as int) == 0);
            lemma_batches_aligned_split(a.skip(t as int), b, t);
            if a.len() <= t {
                // a.len() == t: the first chunk is a itself and the rest is b.
                assert(a.take(t as int) =~= a);
                assert(a.skip(t as int) =~= Seq::<T>::empty());
                assert(spec_batches(a.skip(t as int), t) =~= Seq::<Seq<T>>::empty());
                assert(spec_batches(a + b, t) =~= spec_batches(a, t) + spec_batches(b, t));
            } else {
                assert(spec_batches(a + b, t) =~= spec_batches(a, t) + spec_batches(b, t));
            }
        }
    }
}

/// Batch law: `M` records with threshold `T` commit exactly `ceil(M / T)`
/// batches, every batch but the last holds exactly `T` records, the last is
/// non-empty and holds at most `T`, the committed capacity covers every
/// record, and laying the batches end to end restores the records in order.
pub proof fn lemma_batch_invariant<T>(rs: Seq<T>, t: nat)
    requires
        t >= 1,
    ensures
        spec_batches(rs, t).len() == (rs.len() + t - 1) / (t as int),
        spec_batches(rs, t).len() * t >= rs.len(),
        forall|i: int|
            0 <= i < spec_batches(rs, t).len() - 1 ==> (#[trigger] spec_batches(rs, t)[i]).len()
                == t,
        spec_batches(rs, t).len() > 0 ==> 0 < spec_batches(rs, t).last().len() <= t,
        batches_concat(spec_batches(rs, t)) == rs,
    decreases rs.len(),
{
    let n = rs.len() as int;
    let d = t as int;
    if rs.len() == 0 {
        lemma_basic_div(d - 1, d);
        assert(batches_concat(spec_batches(rs, t)) =~= rs);
    } else if rs.len() <= t {
        assert((n + d - 1) / d == 1) by {
            lemma_basic_div(n - 1, d);
            lemma_div_plus_one(n - 1, d);
        }
        assert(spec_batches(rs, t) == seq![rs]);
        assert(spec_batches(rs, t).len() * t == t) by (nonlinear_arith)
            requires
                spec_batches(rs, t).len() == 1,
        ;
        assert(seq![rs].last() == rs);
        assert(seq![rs].drop_first() =~= Seq::<Seq<T>>::empty());
        assert(batches_concat(seq![rs].drop_first()) == Seq::<T>::empty());
        assert(batches_concat(seq![rs]) =~= rs + Seq::<T>::empty());
        assert(rs + Seq::<T>::empty() =~= rs);
    } else {
        let tail = rs.skip(d);
        lemma_batch_invariant(tail, t);
        assert((n + d - 1) / d == 1 + (n - d + d - 1) / d) by {
            lemma_div_plus_one(n - 1, d);
        }
        let bs = spec_batches(rs, t);
        let tbs = spec_batches(tail, t);
        assert(bs == seq![rs.take(d)] + tbs);
        assert(bs.len() == 1 + tbs.len());
        assert(tbs.len() >= 1);
        // Every batch but the last is full.
        assert forall|i: int| 0 <= i < bs.len() - 1 implies (#[trigger] bs[i]).len() == t by {
            if i == 0 {
                assert(bs[0] == rs.take(d));
            } else {
                assert(bs[i] == tbs[i - 1]);
            }
        }
        assert(bs.last() == tbs.last());
        // Capacity covers every record.
        assert(bs.len() * t == t + tbs.len() * t) by (nonlinear_arith)
            requires
                bs.len() == 1 + tbs.len(),
                t >= 1,
        ;
        // Concatenation restores the records.
        assert(bs.drop_first() =~= tbs);
        assert(batches_concat(bs) == rs.take(d) + batches_concat(tbs));
        assert(batches_concat(bs) =~= rs);
    }
}

/// State of the persister between flushes: the configured threshold and the
/// records accumulated since the last committed batch.
#[verifier::ext_equal]
pub struct BatchState {
    pub threshold: nat,
    pub pending: Seq<PageData>,
}

/// The batch persister's accumulator: collects records in arrival order and
/// hands out a full batch each time the threshold is reached.
pub struct Batcher {
    threshold: usize,
    pending: Vec<PageInfo>,
}

impl View for Batcher {
    type V = BatchState;

    closed spec fn view(&self) -> BatchState {
        BatchState { threshold: self.threshold as nat, pending: self.pending.deep_view() }
    }
}

impl Batcher {
    /// A batcher never holds a full batch between calls, and its threshold
    /// is positive.
    pub open spec fn wf(&self) -> bool {
        self@.threshold >= 1 && self@.pending.len() < self@.threshold
    }

    /// An empty accumulator for batches of `threshold` records.
    pub fn new(threshold: usize) -> (r: Batcher)
        requires
            threshold >= 1,
        ensures
            r.wf(),
            r@.threshold == threshold,
            r@.pending == Seq::<PageData>::empty(),
    {
        let r = Batcher { threshold, pending: Vec::new() };
        proof {
            assert(r@.pending =~= Seq::<PageData>::empty());
        }
        r
    }

    /// Accepts one record. When the record fills the batch, the whole batch
    /// — the pending records followed by the new one, in arrival order — is
    /// returned for committing and the accumulator is cleared; otherwise the
    /// record is appended and nothing is returned.
    pub fn push(&mut self, rec: PageInfo) -> (out: Option<Vec<PageInfo>>)
        requires
            old(self).wf(),
        ensures
            final(self).wf(),
            final(self)@.threshold == old(self)@.threshold,
            match out {
                Some(batch) => {
                    &&& batch.deep_view() == old(self)@.pending.push(rec@)
                    &&& batch.deep_view().len() == old(self)@.threshold
                    &&& final(self)@.pending == Seq::<PageData>::empty()
                },
                None => {
                    &&& final(self)@.pending == old(self)@.pending.push(rec@)
                    &&& old(self)@.pending.len() + 1 < old(self)@.threshold
                },
            },
    {
        let ghost prev = self@.pending;
        self.pending.push(rec);
        proof {
            assert(self.pending.deep_view() =~= prev.push(rec@));
        }
        if self.pending.len() == self.threshold {
            let mut batch: Vec<PageInfo> = Vec::new();
            core::mem::swap(&mut batch, &mut self.pending);
            proof {
                assert(self.pending.deep_view() =~= Seq::<PageData>::empty());
            }
            Some(batch)
        } else {
            None
        }
    }

    /// Ends the stream: the final partial batch, in arrival order, or
    /// nothing when no record is pending.
    pub fn finish(self) -> (out: Option<Vec<PageInfo>>)
        requires
            self.wf(),
        ensures
            match out {
                Some(batch) => {
                    &&& batch.deep_view() == self@.pending
                    &&& 0 < batch.deep_view().len() < self@.threshold
                },
                None => self@.pending == Seq::<PageData>::empty(),
            },
    {
        if self.pending.len() == 0 {
            proof {
                assert(self.pending.deep_view() =~= Seq::<PageData>::empty());
            }
            None
        } else {
            Some(self.pending)
        }
    }
}

/// Cuts a finite record stream into committed batches: full batches of
/// `threshold` records in arrival order, then the final partial batch if one
/// remains.
pub fn batch_records(records: Vec<PageInfo>, threshold: usize) -> (batches: Vec<Vec<PageInfo>>)
    requires
        threshold >= 1,
    ensures
        batches.deep_view() == spec_batches(records.deep_view(), threshold as nat),
{
    let ghost orig: Seq<PageData> = records.deep_view();
    let ghost t = threshold as nat;
    let mut rest = records;
    let mut b = Batcher::new(threshold);
    let mut batches: Vec<Vec<PageInfo>> = Vec::new();
    proof {
        assert(rest.deep_view() =~= orig.skip(0));
        lemma_small_mod(0, t);
        assert(orig.take(0) =~= Seq::<PageData>::empty());
        assert(batches.deep_view() =~= spec_batches(orig.take(0), t));
        assert(b@.pending =~= orig.subrange(0, 0));
    }
    while rest.len() > 0
        invariant
            b.wf(),
            b@.threshold == t,
            t == threshold as nat,
            threshold >= 1,
            orig.len() >= rest@.len(),
            rest.deep_view() == orig.skip(orig.len() - rest@.len()),
            b@.pending.len() <= orig.len() - rest@.len(),
            ((orig.len() - rest@.len()) - b@.pending.len()) % (t as int) == 0,
            b@.pending == orig.subrange(
                orig.len() - rest@.len() - b@.pending.len(),
                orig.len() - rest@.len(),
            ),
            batches.deep_view() == spec_batches(
                orig.take(orig.len() - rest@.len() - b@.pending.len()),
                t,
            ),
        decreases rest@.len(),
    {
        let ghost k = orig.len() - rest@.len();
        let ghost p = b@.pending.len();
        let rec = rest.remove(0);
        proof {
            assert(orig.skip(k as int)[0] == orig[k as int]);
            assert(rec@ == orig[k as int]);
            assert(rest.deep_view() =~= orig.skip(k as int).drop_first());
            assert(orig.skip(k as int).drop_first() =~= orig.skip(k + 1));
        }
        match b.push(rec) {
            Some(batch) => {
                let ghost chunk = batch.deep_view();
                proof {
                    assert(chunk =~= orig.subrange(k - p, k + 1));
                    assert(chunk.len() == t);
                    assert(orig.take(k + 1) =~= orig.take(k - p) + chunk);
                    lemma_batches_aligned_split(orig.take(k - p), chunk, t);
                    assert(spec_batches(chunk, t) == seq![chunk]);
                }
                let ghost prev_batches = batches.deep_view();
                batches.push(batch);
                proof {
                    assert(batches.deep_view() =~= prev_batches.push(chunk));
                    assert(prev_batches.push(chunk) =~= spec_batches(orig.take(k - p), t) + seq![
                        chunk,
                    ]);
                    lemma_mod_add_multiples_vanish(k - p, t as int);
                    assert(((k + 1) - 0) % (t as int) == 0);
                    assert(b@.pending =~= orig.subrange(k + 1, k + 1));
                }
            },
            None => {
                proof {
                    assert(b@.pending =~= orig.subrange(k - p, k + 1));
                    assert(orig.take(k - p) =~= orig.take((k + 1) - (p + 1)));
                }
            },
        }
    }
    let ghost n = orig.len() as int;
    let ghost p_end = b@.pending.len();
    proof {
        assert(orig.skip(n) =~= Seq::<PageData>::empty());
        assert(orig.take(n - p_end) + b@.pending =~= orig);
        lemma_batches_aligned_split(orig.take(n - p_end), b@.pending, t);
    }
    match b.finish() {
        Some(tail_batch) => {
            let ghost chunk = tail_batch.deep_view();
            let ghost prev_batches = batches.deep_view();
            batches.push(tail_batch);
            proof {
                assert(spec_batches(chunk, t) == seq![chunk]);
                assert(batches.deep_view() =~= prev_batches.push(chunk));
                assert(prev_batches.push(chunk) =~= spec_batches(orig.take(n - p_end), t) + seq![
                    chunk,
                ]);
                assert(batches.deep_view() =~= spec_batches(orig, t));
            }
            batches
        },
        None => {
            proof {
                assert(spec_batches(b@.pending, t) =~= Seq::<Seq<PageData>>::empty());
                assert(spec_batches(orig.take(n - p_end), t) + Seq::<Seq<PageData>>::empty()
                    =~= spec_batches(orig.take(n - p_end), t));
                assert(orig.take(n - p_end) =~= orig);
            }
            batches
        },
    }
}

} // verus!
