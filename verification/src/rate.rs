//! The rate accumulator: a running per-bucket sum of time-bounded
//! contributions, retired in expiry order as the sweep's cursor moves
//! forward.

use crate::date::Date;
use crate::score_pool::{bounded, sp_add, sp_sub, sp_zero, ScorePool};
use crate::{BUCKETS, CONTRIB_MAG, PENDING_LIMIT};
use vstd::prelude::*;

verus! {

/// A temporary additive adjustment to the estimated rate, valid up to
/// and including its expiry date.
#[derive(Debug)]
pub struct RateContribution {
    pub expiry: Date,
    pub value: ScorePool,
}

/// The per-bucket values of a contribution sequence.
pub open spec fn values_view(s: Seq<RateContribution>) -> Seq<Seq<int>> {
    s.map_values(|c: RateContribution| c.value@)
}

/// Elementwise sum of a sequence of per-bucket vectors.
pub open spec fn sum_values(s: Seq<Seq<int>>) -> Seq<int>
    decreases s.len(),
{
    if s.len() == 0 {
        sp_zero()
    } else {
        sp_add(sum_values(s.drop_last()), s.last())
    }
}

/// Contributions ordered by ascending expiry (ties allowed).
pub open spec fn sorted_by_expiry(s: Seq<RateContribution>) -> bool {
    forall|j: int, k: int|
        0 <= j < k < s.len() ==> #[trigger] s[j].expiry.days <= #[trigger] s[k].expiry.days
}

/// Every contribution is shaped and bounded as the engine requires.
pub open spec fn contributions_ok(s: Seq<RateContribution>) -> bool {
    forall|j: int|
        0 <= j < s.len() ==> (#[trigger] s[j]).value.wf() && s[j].expiry.wf() && bounded(
            s[j].value@,
            CONTRIB_MAG as int,
        )
}

/// Where a contribution expiring at `e` goes in the ordered sequence:
/// after every entry expiring at or before `e`.
pub open spec fn insert_pos(s: Seq<RateContribution>, e: int) -> int
    decreases s.len(),
{
    if s.len() == 0 {
        0
    } else if s.last().expiry.days as int <= e {
        s.len() as int
    } else {
        insert_pos(s.drop_last(), e)
    }
}

/// In an ordered sequence, `insert_pos` splits the entries into those
/// expiring at or before `e` and those expiring after it.
pub proof fn lemma_insert_pos_splits(s: Seq<RateContribution>, e: int)
    requires
        sorted_by_expiry(s),
    ensures
        0 <= insert_pos(s, e) <= s.len(),
        forall|j: int| 0 <= j < insert_pos(s, e) ==> #[trigger] s[j].expiry.days <= e,
        forall|j: int| insert_pos(s, e) <= j < s.len() ==> #[trigger] s[j].expiry.days > e,
    decreases s.len(),
{
    if s.len() > 0 {
        if s.last().expiry.days as int <= e {
            assert forall|j: int| 0 <= j < insert_pos(s, e) implies #[trigger] s[j].expiry.days
                <= e by {
                assert(s[j].expiry.days <= s[s.len() - 1].expiry.days);
            }
        } else {
            assert(sorted_by_expiry(s.drop_last()));
            lemma_insert_pos_splits(s.drop_last(), e);
            assert forall|j: int| 0 <= j < insert_pos(s, e) implies #[trigger] s[j].expiry.days
                <= e by {
                assert(s.drop_last()[j] == s[j]);
            }
            assert forall|j: int| insert_pos(s, e) <= j < s.len() implies #[trigger] s[
            j].expiry.days > e by {
                if j < s.len() - 1 {
                    assert(s.drop_last()[j] == s[j]);
                }
            }
        }
    }
}

/// The sum of per-bucket vectors has one entry per bucket.
pub proof fn lemma_sum_values_len(s: Seq<Seq<int>>)
    requires
        forall|j: int| 0 <= j < s.len() ==> (#[trigger] s[j]).len() == BUCKETS,
    ensures
        sum_values(s).len() == BUCKETS,
    decreases s.len(),
{
    if s.len() > 0 {
        assert(forall|j: int|
            0 <= j < s.drop_last().len() ==> (#[trigger] s.drop_last()[j]).len() == BUCKETS);
        lemma_sum_values_len(s.drop_last());
    }
}

/// Summing distributes over splitting a sequence anywhere.
pub proof fn lemma_sum_values_split(s: Seq<Seq<int>>, n: int)
    requires
        0 <= n <= s.len(),
        forall|j: int| 0 <= j < s.len() ==> (#[trigger] s[j]).len() == BUCKETS,
    ensures
        sum_values(s) =~= sp_add(sum_values(s.take(n)), sum_values(s.skip(n))),
    decreases s.len() - n,
{
    assert(forall|j: int|
        0 <= j < s.take(n).len() ==> (#[trigger] s.take(n)[j]).len() == BUCKETS);
    assert(forall|j: int|
        0 <= j < s.skip(n).len() ==> (#[trigger] s.skip(n)[j]).len() == BUCKETS);
    lemma_sum_values_len(s);
    lemma_sum_values_len(s.take(n));
    lemma_sum_values_len(s.skip(n));
    if n == s.len() {
        assert(s.take(n) =~= s);
        assert(s.skip(n) =~= Seq::<Seq<int>>::empty());
    } else {
        lemma_sum_values_split(s, n + 1);
        let a = s.take(n);
        let b = s.take(n + 1);
        assert(b.drop_last() =~= a);
        assert(b.last() == s[n]);
        assert(s.skip(n)[0] == s[n]);
        lemma_sum_values_pull_first(s.skip(n));
        assert(s.skip(n).drop_first() =~= s.skip(n + 1));
        lemma_sum_values_len(s.take(n + 1));
        lemma_sum_values_len(s.skip(n + 1));
    }
}

/// Summing a nonempty sequence equals its first entry plus the sum of
/// the rest.
pub proof fn lemma_sum_values_pull_first(s: Seq<Seq<int>>)
    requires
        s.len() >= 1,
        forall|j: int| 0 <= j < s.len() ==> (#[trigger] s[j]).len() == BUCKETS,
    ensures
        sum_values(s) =~= sp_add(sum_values(s.drop_first()), s[0]),
    decreases s.len(),
{
    if s.len() == 1 {
        assert(s.drop_last() =~= Seq::<Seq<int>>::empty());
        assert(s.drop_first() =~= Seq::<Seq<int>>::empty());
    } else {
        assert(forall|j: int|
            0 <= j < s.drop_last().len() ==> (#[trigger] s.drop_last()[j]).len() == BUCKETS);
        lemma_sum_values_pull_first(s.drop_last());
        assert(s.drop_last().drop_first() =~= s.drop_first().drop_last());
        assert(s.drop_first().last() == s.last());
        assert(sum_values(s.drop_first()) =~= sp_add(
            sum_values(s.drop_first().drop_last()),
            s.drop_first().last(),
        ));
        assert(sum_values(s) =~= sp_add(sum_values(s.drop_last()), s.last()));
        let a = sum_values(s.drop_last().drop_first());
        assert(sum_values(s.drop_last()) =~= sp_add(a, s[0]));
        assert(sp_add(sp_add(a, s[0]), s.last()) =~= sp_add(sp_add(a, s.last()), s[0]));
    }
}

/// Inserting a vector anywhere adds it to the sum.
pub proof fn lemma_sum_values_insert(s: Seq<Seq<int>>, i: int, v: Seq<int>)
    requires
        0 <= i <= s.len(),
        v.len() == BUCKETS,
        forall|j: int| 0 <= j < s.len() ==> (#[trigger] s[j]).len() == BUCKETS,
    ensures
        sum_values(s.insert(i, v)) =~= sp_add(sum_values(s), v),
    decreases s.len(),
{
    let t = s.insert(i, v);
    if i == s.len() {
        assert(t.drop_last() =~= s);
        assert(t.last() == v);
    } else {
        assert(t.drop_last() =~= s.drop_last().insert(i, v));
        assert(t.last() == s.last());
        assert(forall|j: int|
            0 <= j < s.drop_last().len() ==> (#[trigger] s.drop_last()[j]).len() == BUCKETS);
        lemma_sum_values_insert(s.drop_last(), i, v);
        let a = sum_values(s.drop_last());
        assert(sum_values(t) =~= sp_add(sp_add(a, v), s.last()));
        assert(sp_add(sp_add(a, v), s.last()) =~= sp_add(sp_add(a, s.last()), v));
    }
}

/// The sum of bounded per-bucket vectors is bounded by their count
/// times the bound.
pub proof fn lemma_sum_values_bounded(s: Seq<Seq<int>>, m: int)
    requires
        m >= 0,
        forall|j: int|
            0 <= j < s.len() ==> (#[trigger] s[j]).len() == BUCKETS && bounded(s[j], m),
    ensures
        sum_values(s).len() == BUCKETS,
        bounded(sum_values(s), s.len() as int * m),
    decreases s.len(),
{
    if s.len() == 0 {
    } else {
        assert(forall|j: int|
            0 <= j < s.drop_last().len() ==> (#[trigger] s.drop_last()[j]).len() == BUCKETS
                && bounded(s.drop_last()[j], m));
        lemma_sum_values_bounded(s.drop_last(), m);
        assert((s.len() as int) * m == (s.len() - 1) * m + m) by (nonlinear_arith);
    }
}

/// The running accumulator: the pending contributions ordered by
/// expiry, and their elementwise sum.  The sum is maintained
/// incrementally and the well-formedness predicate ties it to the
/// pending set at all times.
#[derive(Debug)]
pub struct RateAccumulator {
    pending: Vec<RateContribution>,
    rate: ScorePool,
}

impl RateAccumulator {
    /// The pending contributions, in expiry order.
    pub closed spec fn pending_view(&self) -> Seq<RateContribution> {
        self.pending@
    }

    /// The running sum always equals the sum of the pending values.
    pub open spec fn wf(&self) -> bool {
        &&& self.rate_view().len() == BUCKETS
        &&& self.pending_view().len() <= PENDING_LIMIT
        &&& contributions_ok(self.pending_view())
        &&& sorted_by_expiry(self.pending_view())
        &&& self.rate_view() == sum_values(values_view(self.pending_view()))
    }

    /// The law the type maintains, stated for callers: the rate it
    /// reports is exactly the sum of the pending contributions.
    pub proof fn lemma_rate_is_pending_sum(&self)
        requires
            self.wf(),
        ensures
            self.rate_view() == sum_values(values_view(self.pending_view())),
    {
    }

    /// The running sum, as a mathematical vector.
    pub closed spec fn rate_view(&self) -> Seq<int> {
        self.rate@
    }

    /// An empty accumulator.
    pub fn new() -> (r: RateAccumulator)
        ensures
            r.wf(),
            r.pending_view() =~= Seq::<RateContribution>::empty(),
            r.rate_view() =~= sp_zero(),
    {
        RateAccumulator { pending: Vec::new(), rate: ScorePool::zero() }
    }

    /// The current running sum.
    pub fn rate(&self) -> (r: ScorePool)
        requires
            self.wf(),
        ensures
            r.wf(),
            r@ == self.rate_view(),
    {
        self.rate.copy_of()
    }

    /// The earliest pending expiry, if any contribution is pending.
    pub fn next_expiry(&self) -> (r: Option<Date>)
        requires
            self.wf(),
        ensures
            match r {
                Option::None => self.pending_view().len() == 0,
                Option::Some(d) => self.pending_view().len() > 0 && d == self.pending_view()[0].expiry,
            },
    {
        if self.pending.len() == 0 {
            None
        } else {
            Some(self.pending[0].expiry)
        }
    }

    /// Adds a contribution: its value joins the running sum and it is
    /// filed by expiry among the pending contributions.
    pub fn insert(&mut self, c: RateContribution)
        requires
            old(self).wf(),
            c.value.wf(),
            c.expiry.wf(),
            bounded(c.value@, CONTRIB_MAG as int),
            old(self).pending_view().len() < PENDING_LIMIT,
        ensures
            final(self).wf(),
            final(self).pending_view() =~= old(self).pending_view().insert(
                insert_pos(old(self).pending_view(), c.expiry.days as int),
                c,
            ),
            final(self).rate_view() =~= sp_add(old(self).rate_view(), c.value@),
    {
        proof {
            lemma_insert_pos_splits(self.pending@, c.expiry.days as int);
            lemma_sum_values_bounded(values_view(self.pending@), CONTRIB_MAG as int);
            assert((self.pending@.len() as int) * (CONTRIB_MAG as int) <= (
            PENDING_LIMIT as int) * (CONTRIB_MAG as int)) by (nonlinear_arith)
                requires
                    self.pending@.len() <= PENDING_LIMIT,
                    CONTRIB_MAG as int >= 0,
            ;
        }
        let ghost s0 = self.pending@;
        let ghost pos = insert_pos(self.pending@, c.expiry.days as int);
        proof {
            assert(s0.take(s0.len() as int) =~= s0);
        }
        // find the insertion point from the back
        let mut idx = self.pending.len();
        while idx > 0 && self.pending[idx - 1].expiry.days > c.expiry.days
            invariant
                idx <= self.pending@.len(),
                self.pending@ == s0,
                insert_pos(s0, c.expiry.days as int) == insert_pos(
                    s0.take(idx as int),
                    c.expiry.days as int,
                ),
                forall|j: int| idx <= j < s0.len() ==> #[trigger] s0[j].expiry.days
                    > c.expiry.days,
            decreases idx,
        {
            proof {
                assert(s0.take(idx as int).last() == s0[idx - 1]);
                assert(s0.take(idx as int).drop_last() =~= s0.take(idx as int - 1));
            }
            idx -= 1;
        }
        proof {
            if idx > 0 {
                assert(s0.take(idx as int).last() == s0[idx - 1]);
            }
            assert(pos == idx as int);
        }
        let rate = self.rate.add(&c.value);
        let ghost v = c.value@;
        self.pending.insert(idx, c);
        self.rate = rate;
        proof {
            assert(values_view(self.pending@) =~= values_view(s0).insert(pos, v));
            assert(forall|j: int|
                0 <= j < values_view(s0).len() ==> (#[trigger] values_view(s0)[j]).len()
                    == BUCKETS);
            lemma_sum_values_insert(values_view(s0), pos, v);
        }
    }

    /// Retires every contribution expiring exactly on `date`: each is
    /// removed from the pending set and its value leaves the running
    /// sum.  Dates earlier than every pending expiry change nothing.
    /// The caller moves `date` forward monotonically, so no pending
    /// expiry may already lie in the past.
    pub fn update(&mut self, date: Date)
        requires
            old(self).wf(),
            forall|j: int|
                0 <= j < old(self).pending_view().len() ==> #[trigger] old(
                    self,
                ).pending_view()[j].expiry.days >= date.days,
        ensures
            final(self).wf(),
            final(self).pending_view() =~= old(self).pending_view().skip(
                insert_pos(old(self).pending_view(), date.days as int),
            ),
            final(self).rate_view() =~= sp_sub(
                old(self).rate_view(),
                sum_values(
                    values_view(
                        old(self).pending_view().take(
                            insert_pos(old(self).pending_view(), date.days as int),
                        ),
                    ),
                ),
            ),
    {
        let ghost s0 = self.pending@;
        let ghost r0 = self.rate@;
        let ghost pos = insert_pos(s0, date.days as int);
        proof {
            lemma_insert_pos_splits(s0, date.days as int);
            assert forall|j: int| 0 <= j < s0.len() implies #[trigger] s0[j].expiry.days
                >= date.days by {
                assert(old(self).pending_view()[j].expiry.days >= date.days);
            }
            assert(s0.skip(0) =~= s0);
        }
        let mut removed: usize = 0;
        while self.pending.len() > 0 && self.pending[0].expiry.days == date.days
            invariant
                removed <= s0.len(),
                self.pending@ =~= s0.skip(removed as int),
                sorted_by_expiry(s0),
                contributions_ok(s0),
                s0.len() <= PENDING_LIMIT,
                forall|j: int| 0 <= j < s0.len() ==> #[trigger] s0[j].expiry.days >= date.days,
                forall|j: int| 0 <= j < removed ==> #[trigger] s0[j].expiry.days <= date.days,
                self.rate.wf(),
                self.rate@ == sum_values(values_view(self.pending@)),
            decreases self.pending@.len(),
        {
            proof {
                let s = self.pending@;
                lemma_sum_values_bounded(values_view(s), CONTRIB_MAG as int);
                assert((s.len() as int) * (CONTRIB_MAG as int) <= (PENDING_LIMIT as int) * (
                CONTRIB_MAG as int)) by (nonlinear_arith)
                    requires
                        s.len() <= PENDING_LIMIT,
                        CONTRIB_MAG as int >= 0,
                ;
                assert(forall|j: int|
                    0 <= j < values_view(s).len() ==> (#[trigger] values_view(s)[j]).len()
                        == BUCKETS);
                lemma_sum_values_pull_first(values_view(s));
                assert(values_view(s).drop_first() =~= values_view(s.drop_first()));
            }
            let c = self.pending.remove(0);
            let rate = self.rate.sub(&c.value);
            self.rate = rate;
            proof {
                assert(self.pending@ =~= s0.skip(removed as int).drop_first());
                assert(s0.skip(removed as int).drop_first() =~= s0.skip(removed as int + 1));
            }
            removed += 1;
        }
        proof {
            // the retired entries are exactly the prefix counted by insert_pos
            if pos < removed as int {
                assert(s0[pos].expiry.days > date.days);
                assert(s0[pos].expiry.days <= date.days);
            }
            if pos > removed as int {
                assert(removed < s0.len());
                assert(self.pending@[0] == s0[removed as int]);
                assert(s0[removed as int].expiry.days != date.days);
                assert(s0[removed as int].expiry.days <= date.days);
            }
            assert(pos == removed as int);
            assert(self.pending@ =~= s0.skip(pos));
            // subtracting the prefix sum from the initial rate gives the rest
            assert(forall|j: int|
                0 <= j < values_view(s0).len() ==> (#[trigger] values_view(s0)[j]).len()
                    == BUCKETS);
            lemma_sum_values_split(values_view(s0), pos);
            assert(values_view(s0).take(pos) =~= values_view(s0.take(pos)));
            assert(values_view(s0).skip(pos) =~= values_view(s0.skip(pos)));
            lemma_sum_values_bounded(values_view(s0.take(pos)), CONTRIB_MAG as int);
            lemma_sum_values_bounded(values_view(s0.skip(pos)), CONTRIB_MAG as int);
        }
    }
}

/// Law: an update strictly before every pending expiry retires
/// nothing, so the accumulator is unchanged.
pub proof fn lemma_update_before_min_is_noop(s: Seq<RateContribution>, e: int)
    requires
        sorted_by_expiry(s),
        forall|j: int| 0 <= j < s.len() ==> #[trigger] s[j].expiry.days > e,
    ensures
        insert_pos(s, e) == 0,
        s.skip(insert_pos(s, e)) =~= s,
    decreases s.len(),
{
    if s.len() > 0 {
        assert(sorted_by_expiry(s.drop_last()));
        lemma_update_before_min_is_noop(s.drop_last(), e);
    }
    assert(s.skip(0) =~= s);
}

/// Law: when every pending expiry lies at or after `e`, the entries an
/// update at `e` retires are exactly those expiring on `e`.
pub proof fn lemma_update_retires_exactly_expiring(s: Seq<RateContribution>, e: int)
    requires
        sorted_by_expiry(s),
        forall|j: int| 0 <= j < s.len() ==> #[trigger] s[j].expiry.days >= e,
    ensures
        forall|j: int|
            0 <= j < s.len() ==> (j < insert_pos(s, e) <==> #[trigger] s[j].expiry.days == e),
{
    lemma_insert_pos_splits(s, e);
}

} // verus!
