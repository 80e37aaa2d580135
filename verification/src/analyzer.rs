//! The sweep driver: merges the snapshot and invitation streams
//! chronologically, feeds snapshot deltas and invite-consumption
//! contributions into the rate accumulator, and emits the per-bucket
//! arrival-rate series; plus the trailing-window projection.

use crate::date::Date;
use crate::invite::Invite;
use crate::pool_data::PoolSnapshot;
use crate::rate::{
    insert_pos, sum_values, values_view, RateAccumulator, RateContribution,
};
use crate::score_pool::{
    bounded, sp_add, sp_div_whole, sp_sub, sp_zero, spec_invite, ScorePool,
};
use crate::smooth::pools_view;
use crate::{BUCKETS, CONTRIB_MAG, DATE_MAG, INPUT_LIMIT, PENDING_LIMIT, RATE_MAG, REMOVAL_CAP, SCALE};
use vstd::prelude::*;

verus! {

/// A contract breach by the caller: an input stream was not sorted
/// as the data model requires.
#[derive(Debug, Clone, Copy, PartialEq, Eq, Structural)]
pub enum EngineError {
    OrderingViolation,
}

/// Snapshot dates ascend strictly.
pub open spec fn pools_ascending(s: Seq<PoolSnapshot>) -> bool {
    forall|j: int| 1 <= j < s.len() ==> s[j - 1].date.days < #[trigger] s[j].date.days
}

/// Invitation dates never go backwards.
pub open spec fn invites_ascending(s: Seq<Invite>) -> bool {
    forall|j: int| 1 <= j < s.len() ==> s[j - 1].date.days <= #[trigger] s[j].date.days
}

/// Every snapshot is well formed, with enough date headroom for the
/// maturation window, and the stream fits the engine's size limit.
pub open spec fn pools_wf(s: Seq<PoolSnapshot>) -> bool {
    &&& s.len() <= INPUT_LIMIT
    &&& forall|j: int|
        0 <= j < s.len() ==> (#[trigger] s[j]).wf() && s[j].date.days <= DATE_MAG - 100
}

/// Every invitation is well formed and the stream fits the limit.
pub open spec fn invites_wf(s: Seq<Invite>) -> bool {
    &&& s.len() <= INPUT_LIMIT
    &&& forall|j: int| 0 <= j < s.len() ==> (#[trigger] s[j]).wf()
}

/// A snapshot's counts in fixed-point units.
pub open spec fn snap_units(s: PoolSnapshot) -> Seq<int> {
    Seq::new(BUCKETS as nat, |i: int| s.counts@[i] * SCALE)
}

/// The accumulator's pending contributions as (expiry day, value)
/// pairs, the form the sweep's model works in.
pub open spec fn pend_pairs(s: Seq<RateContribution>) -> Seq<(int, Seq<int>)> {
    s.map_values(|c: RateContribution| (c.expiry.days as int, c.value@))
}

/// Where a pair expiring at `e` goes among ordered pairs.
pub open spec fn pr_insert_pos(s: Seq<(int, Seq<int>)>, e: int) -> int
    decreases s.len(),
{
    if s.len() == 0 {
        0
    } else if s.last().0 <= e {
        s.len() as int
    } else {
        pr_insert_pos(s.drop_last(), e)
    }
}

/// The values of a pair sequence.
pub open spec fn pr_values(s: Seq<(int, Seq<int>)>) -> Seq<Seq<int>> {
    s.map_values(|p: (int, Seq<int>)| p.1)
}

/// Pair positions agree with contribution positions.
pub proof fn lemma_pr_insert_pos_map(s: Seq<RateContribution>, e: int)
    ensures
        pr_insert_pos(pend_pairs(s), e) == insert_pos(s, e),
    decreases s.len(),
{
    if s.len() > 0 {
        assert(pend_pairs(s).last() == (s.last().expiry.days as int, s.last().value@));
        assert(pend_pairs(s).drop_last() =~= pend_pairs(s.drop_last()));
        lemma_pr_insert_pos_map(s.drop_last(), e);
    }
}

/// Taking pairs then values is taking values.
pub proof fn lemma_pair_values_take(s: Seq<RateContribution>, n: int)
    requires
        0 <= n <= s.len(),
    ensures
        values_view(s.take(n)) =~= pr_values(pend_pairs(s).take(n)),
{
}

/// Dropping a prefix commutes with the pair view.
pub proof fn lemma_pend_pairs_skip(s: Seq<RateContribution>, n: int)
    requires
        0 <= n <= s.len(),
    ensures
        pend_pairs(s.skip(n)) =~= pend_pairs(s).skip(n),
{
}

/// Filing a contribution commutes with the pair view.
pub proof fn lemma_pend_pairs_insert(s: Seq<RateContribution>, k: int, c: RateContribution)
    requires
        0 <= k <= s.len(),
    ensures
        pend_pairs(s.insert(k, c)) =~= pend_pairs(s).insert(
            k,
            (c.expiry.days as int, c.value@),
        ),
{
    let a = pend_pairs(s.insert(k, c));
    let b = pend_pairs(s).insert(k, (c.expiry.days as int, c.value@));
    assert forall|j: int| 0 <= j < a.len() implies a[j] == b[j] by {
        if j < k {
            assert(s.insert(k, c)[j] == s[j]);
        } else if j == k {
            assert(s.insert(k, c)[j] == c);
        } else {
            assert(s.insert(k, c)[j] == s[j - 1]);
        }
    }
}

/// The state the sweep's cursor carries between event dates.
#[verifier::ext_equal]
pub struct SweepState {
    /// Next unconsumed snapshot.
    pub pi: int,
    /// Next unconsumed invitation.
    pub vi: int,
    /// The latest known pool, less what was already invited today.
    pub pool_invite: Seq<int>,
    /// Pending contributions, by ascending expiry.
    pub pending: Seq<(int, Seq<int>)>,
    /// Sum of the pending contributions' values.
    pub rate: Seq<int>,
}

/// Days of the maturation window: how long an invitation's
/// consumption keeps contributing to the estimated rate.
pub const SUBMIT_DAYS: usize = 15;

/// Retiring every contribution that expires on day `i`.
pub open spec fn st_update(st: SweepState, i: int) -> SweepState {
    let n = pr_insert_pos(st.pending, i);
    SweepState {
        pending: st.pending.skip(n),
        rate: sp_sub(st.rate, sum_values(pr_values(st.pending.take(n)))),
        ..st
    }
}

/// Filing one contribution.
pub open spec fn st_insert(st: SweepState, e: int, v: Seq<int>) -> SweepState {
    SweepState {
        pending: st.pending.insert(pr_insert_pos(st.pending, e), (e, v)),
        rate: sp_add(st.rate, v),
        ..st
    }
}

/// Consuming the snapshot dated `i`, if one is due: it becomes the
/// pool invitations draw from, and if another snapshot follows, the
/// per-day linear delta toward it contributes until that next date.
pub open spec fn st_pools(pools: Seq<PoolSnapshot>, st: SweepState, i: int) -> SweepState {
    if st.pi < pools.len() && pools[st.pi].date.days == i {
        let st1 = SweepState { pi: st.pi + 1, pool_invite: snap_units(pools[st.pi]), ..st };
        if st.pi + 1 < pools.len() {
            let nxt = pools[st.pi + 1];
            let days = nxt.date.days - i;
            let v = sp_div_whole(sp_sub(snap_units(nxt), snap_units(pools[st.pi])), days);
            st_insert(st1, nxt.date.days as int, v)
        } else {
            st1
        }
    } else {
        st
    }
}

/// Consuming every invitation dated `i`: each removes its estimated
/// sub-pool from the draw pool and contributes that removal, spread
/// over the maturation window, until it matures.
pub open spec fn st_invites(invites: Seq<Invite>, st: SweepState, i: int) -> SweepState
    decreases invites.len() - st.vi when 0 <= st.vi <= invites.len()
{
    if st.vi < invites.len() && invites[st.vi].date.days == i {
        let inv = invites[st.vi];
        let removed = spec_invite(
            st.pool_invite,
            inv.category.code == crate::category::CategoryCode::General,
            inv.pathway.spec_is_pnp(),
            inv.size as int,
            inv.score as int,
        );
        let v = sp_div_whole(removed, SUBMIT_DAYS as int);
        let st1 = st_insert(st, i + SUBMIT_DAYS, v);
        let st2 = SweepState {
            pool_invite: sp_sub(st.pool_invite, removed),
            vi: st.vi + 1,
            ..st1
        };
        st_invites(invites, st2, i)
    } else {
        st
    }
}

/// One full processing of the cursor date `i`.
pub open spec fn sweep_step(
    pools: Seq<PoolSnapshot>,
    invites: Seq<Invite>,
    st: SweepState,
    i: int,
) -> SweepState {
    st_invites(invites, st_pools(pools, st_update(st, i), i), i)
}

/// The smaller of two days.
pub open spec fn min_day(a: int, b: int) -> int {
    if a < b {
        a
    } else {
        b
    }
}

/// Where the cursor jumps next: the earliest of the next snapshot,
/// the next invitation, the next expiry, and the end of the sweep.
pub open spec fn next_cursor(
    pools: Seq<PoolSnapshot>,
    invites: Seq<Invite>,
    st: SweepState,
    i_n: int,
) -> int {
    let c1 = if st.pi < pools.len() {
        min_day(i_n, pools[st.pi].date.days as int)
    } else {
        i_n
    };
    let c2 = if st.vi < invites.len() {
        min_day(c1, invites[st.vi].date.days as int)
    } else {
        c1
    };
    if st.pending.len() > 0 {
        min_day(c2, st.pending[0].0)
    } else {
        c2
    }
}

/// The labeled rate series the sweep emits from cursor date `i` on.
/// A point is emitted for each cursor date past the warm-up window,
/// labeled at the midpoint of the jump to the next cursor date, with
/// the accumulated rate after processing the date.
#[verifier::opaque]
pub open spec fn sweep_from(
    pools: Seq<PoolSnapshot>,
    invites: Seq<Invite>,
    st: SweepState,
    i: int,
    i0: int,
    i_n: int,
) -> Seq<(int, Seq<int>)>
    decreases i_n - i when i <= i_n
{
    if i < i_n {
        let st3 = sweep_step(pools, invites, st, i);
        let nx = next_cursor(pools, invites, st3, i_n);
        let out: Seq<(int, Seq<int>)> = if i > i0 + SUBMIT_DAYS {
            seq![(i + (nx - i + 1) / 2, st3.rate)]
        } else {
            seq![]
        };
        if i < nx <= i_n {
            out + sweep_from(pools, invites, st3, nx, i0, i_n)
        } else {
            out
        }
    } else {
        seq![]
    }
}

/// The first invitation dated on or after day `d`.
pub open spec fn first_on_or_after(invites: Seq<Invite>, vi: int, d: int) -> int
    decreases invites.len() - vi when 0 <= vi <= invites.len()
{
    if vi < invites.len() && invites[vi].date.days < d {
        first_on_or_after(invites, vi + 1, d)
    } else {
        vi
    }
}

/// The whole rate series for the two input streams: empty without
/// snapshots; otherwise the sweep from the first snapshot's date to
/// the day after the last, with invitations before the first
/// snapshot left out.
pub open spec fn spec_sweep(pools: Seq<PoolSnapshot>, invites: Seq<Invite>) -> Seq<
    (int, Seq<int>),
> {
    if pools.len() == 0 {
        seq![]
    } else {
        let i0 = pools[0].date.days as int;
        let i_n = pools.last().date.days + 1;
        let st0 = SweepState {
            pi: 0,
            vi: first_on_or_after(invites, 0, i0),
            pool_invite: sp_zero(),
            pending: seq![],
            rate: sp_zero(),
        };
        sweep_from(pools, invites, st0, i0, i0, i_n)
    }
}

/// The points the sweep emits when there are no invitations at all:
/// one per snapshot from index `k` on (once the cursor is past the
/// warm-up window), each carrying exactly the per-day linear delta
/// toward the following snapshot, and the zero rate after the last.
pub open spec fn pools_only_points(
    pools: Seq<PoolSnapshot>,
    k: int,
    i0: int,
    i_n: int,
) -> Seq<(int, Seq<int>)>
    decreases pools.len() - k when 0 <= k <= pools.len()
{
    if k < pools.len() {
        let i = pools[k].date.days as int;
        let nx = if k + 1 < pools.len() {
            pools[k + 1].date.days as int
        } else {
            i_n
        };
        let rate = if k + 1 < pools.len() {
            sp_div_whole(sp_sub(snap_units(pools[k + 1]), snap_units(pools[k])), nx - i)
        } else {
            sp_zero()
        };
        let out: Seq<(int, Seq<int>)> = if i > i0 + SUBMIT_DAYS {
            seq![(i + (nx - i + 1) / 2, rate)]
        } else {
            seq![]
        };
        out + pools_only_points(pools, k + 1, i0, i_n)
    } else {
        seq![]
    }
}

/// One induction step of the law below: a sweep entered at snapshot
/// `k`'s date, with at most the previous snapshot's delta pending and
/// expiring right now, emits exactly the per-snapshot linear deltas.
proof fn lemma_sweep_from_snapshot(
    pools: Seq<PoolSnapshot>,
    st: SweepState,
    k: int,
    i0: int,
    i_n: int,
)
    requires
        pools_ascending(pools),
        0 <= k < pools.len(),
        i_n == pools.last().date.days + 1,
        st.pi == k,
        st.vi == 0,
        st.pending.len() <= 1,
        st.pending.len() == 1 ==> st.pending[0].0 == pools[k].date.days as int
            && st.pending[0].1.len() == BUCKETS,
        st.rate =~= sum_values(pr_values(st.pending)),
    ensures
        sweep_from(pools, Seq::<Invite>::empty(), st, pools[k].date.days as int, i0, i_n)
            =~= pools_only_points(pools, k, i0, i_n),
    decreases pools.len() - k,
{
    reveal(sweep_from);
    let vv = Seq::<Invite>::empty();
    let i = pools[k].date.days as int;
    lemma_ascending_range(pools, k, pools.len() - 1);
    assert(i < i_n);

    // the update retires everything pending
    let st1 = st_update(st, i);
    assert(sum_values(Seq::<Seq<int>>::empty()) =~= sp_zero());
    if st.pending.len() == 1 {
        assert(st.pending.last() == st.pending[0]);
        assert(pr_insert_pos(st.pending, i) == 1);
        assert(st.pending.take(1) =~= st.pending);
        let pv = pr_values(st.pending);
        assert(pv.drop_last() =~= Seq::<Seq<int>>::empty());
        assert(pv.last() == st.pending[0].1);
        assert(sum_values(pv) =~= sp_add(sp_zero(), st.pending[0].1));
    } else {
        assert(st.pending.take(0) =~= Seq::<(int, Seq<int>)>::empty());
        assert(pr_values(st.pending) =~= Seq::<Seq<int>>::empty());
    }
    assert(st1.pending =~= Seq::<(int, Seq<int>)>::empty());
    assert(st1.rate =~= sp_zero());

    // consuming the snapshot files the delta toward the next one
    let st2 = st_pools(pools, st1, i);
    let st3 = st_invites(vv, st2, i);
    assert(st3 == st2);
    let nx = next_cursor(pools, vv, st3, i_n);

    if k + 1 < pools.len() {
        let nxt = pools[k + 1];
        let v = sp_div_whole(sp_sub(snap_units(nxt), snap_units(pools[k])), nxt.date.days - i);
        assert(st2.pending =~= seq![(nxt.date.days as int, v)]);
        assert(st2.rate =~= v);
        lemma_ascending_range(pools, k + 1, pools.len() - 1);
        assert(nx == nxt.date.days as int);
        let pv2 = pr_values(st2.pending);
        assert(pv2.drop_last() =~= Seq::<Seq<int>>::empty());
        assert(pv2.last() == st2.pending[0].1);
        assert(sum_values(pv2) =~= sp_add(sp_zero(), st2.pending[0].1));
        assert(st2.rate =~= sum_values(pr_values(st2.pending)));
        lemma_sweep_from_snapshot(pools, st2, k + 1, i0, i_n);
        assert(sweep_step(pools, vv, st, i) == st3);
        if i > i0 + SUBMIT_DAYS {
            assert(seq![(i + (nx - i + 1) / 2, st3.rate)] =~= seq![(i + (nx - i + 1) / 2, v)]);
        }
    } else {
        assert(st2.pending =~= Seq::<(int, Seq<int>)>::empty());
        assert(st2.rate =~= sp_zero());
        assert(nx == i_n);
        assert(sweep_from(pools, vv, st3, i_n, i0, i_n) =~= Seq::<(int, Seq<int>)>::empty());
        assert(pools_only_points(pools, k + 1, i0, i_n) =~= Seq::<(int, Seq<int>)>::empty());
        if i > i0 + SUBMIT_DAYS {
            assert(seq![(i + (nx - i + 1) / 2, st3.rate)] =~= seq![
                (i + (nx - i + 1) / 2, sp_zero()),
            ]);
        }
    }
}

/// Law: with no invitations, the sweep reduces to pure linear
/// interpolation between snapshots: past the warm-up window it emits
/// one point per snapshot, whose rate is exactly the per-day delta
/// toward the following snapshot, and the zero rate after the last.
pub proof fn lemma_sweep_without_invites(pools: Seq<PoolSnapshot>)
    requires
        pools_ascending(pools),
        pools.len() > 0,
    ensures
        spec_sweep(pools, Seq::<Invite>::empty()) =~= pools_only_points(
            pools,
            0,
            pools[0].date.days as int,
            pools.last().date.days + 1,
        ),
{
    let vv = Seq::<Invite>::empty();
    let i0 = pools[0].date.days as int;
    let i_n = pools.last().date.days + 1;
    assert(first_on_or_after(vv, 0, i0) == 0);
    let st0 = SweepState {
        pi: 0,
        vi: first_on_or_after(vv, 0, i0),
        pool_invite: sp_zero(),
        pending: seq![],
        rate: sp_zero(),
    };
    assert(spec_sweep(pools, vv) == sweep_from(pools, vv, st0, i0, i0, i_n));
    assert(st0.rate =~= sum_values(pr_values(st0.pending)));
    lemma_sweep_from_snapshot(pools, st0, 0, i0, i_n);
}

/// A date/rate vector pair as the series of pairs the sweep's model
/// produces.
pub open spec fn series_of(d: Seq<Date>, r: Seq<ScorePool>) -> Seq<(int, Seq<int>)> {
    Seq::new(d.len(), |k: int| (d[k].days as int, r[k]@))
}

/// How many trailing points the projection averages over.
pub const PAST_DAYS: usize = 181;

/// The projection: the mean of the last `PAST_DAYS` points — of all
/// points when there are fewer, each divided by the number of points
/// actually averaged — and the zero vector for an empty series.
pub open spec fn spec_projected(s: Seq<Seq<int>>) -> Seq<int> {
    let w = if s.len() < PAST_DAYS {
        s.len() as int
    } else {
        PAST_DAYS as int
    };
    if w == 0 {
        sp_zero()
    } else {
        sp_div_whole(sum_values(s.skip(s.len() - w)), w)
    }
}

/// Strictly ascending snapshot dates compare across any distance.
pub proof fn lemma_ascending_range(s: Seq<PoolSnapshot>, a: int, b: int)
    requires
        pools_ascending(s),
        0 <= a <= b < s.len(),
    ensures
        a < b ==> s[a].date.days < s[b].date.days,
        s[a].date.days <= s[b].date.days,
    decreases b - a,
{
    if a < b {
        lemma_ascending_range(s, a, b - 1);
    }
}

/// The whole series is the sweep from its start state.
pub proof fn lemma_sweep_start(
    pp: Seq<PoolSnapshot>,
    vv: Seq<Invite>,
    st: SweepState,
    i0: int,
    i_n: int,
)
    requires
        pp.len() > 0,
        i0 == pp[0].date.days,
        i_n == pp.last().date.days + 1,
        st.pi == 0,
        st.vi == first_on_or_after(vv, 0, i0),
        st.pool_invite =~= sp_zero(),
        st.pending =~= Seq::<(int, Seq<int>)>::empty(),
        st.rate =~= sp_zero(),
    ensures
        spec_sweep(pp, vv) == sweep_from(pp, vv, st, i0, i0, i_n),
{
    let st0 = SweepState {
        pi: 0,
        vi: first_on_or_after(vv, 0, i0),
        pool_invite: sp_zero(),
        pending: seq![],
        rate: sp_zero(),
    };
    assert(st =~= st0);
    assert(spec_sweep(pp, vv) == sweep_from(pp, vv, st0, i0, i0, i_n));
}

pub struct RateAnalyzer;

impl RateAnalyzer {
    /// Whether snapshot dates ascend strictly.
    fn check_pools_sorted(pool_data: &Vec<PoolSnapshot>) -> (r: bool)
        ensures
            r == pools_ascending(pool_data@),
    {
        if pool_data.len() < 2 {
            return true;
        }
        let mut j: usize = 1;
        while j < pool_data.len()
            invariant
                1 <= j <= pool_data@.len(),
                forall|k: int|
                    1 <= k < j ==> pool_data@[k - 1].date.days < #[trigger] pool_data@[
                    k].date.days,
            decreases pool_data@.len() - j,
        {
            if pool_data[j - 1].date.days >= pool_data[j].date.days {
                return false;
            }
            j += 1;
        }
        true
    }

    /// Whether invitation dates never go backwards.
    fn check_invites_sorted(invite_data: &Vec<Invite>) -> (r: bool)
        ensures
            r == invites_ascending(invite_data@),
    {
        if invite_data.len() < 2 {
            return true;
        }
        let mut j: usize = 1;
        while j < invite_data.len()
            invariant
                1 <= j <= invite_data@.len(),
                forall|k: int|
                    1 <= k < j ==> invite_data@[k - 1].date.days <= #[trigger] invite_data@[
                    k].date.days,
            decreases invite_data@.len() - j,
        {
            if invite_data[j - 1].date.days > invite_data[j].date.days {
                return false;
            }
            j += 1;
        }
        true
    }
    /// Consumes every invitation dated `i`: each round's estimated
    /// removal is filed as a contribution maturing over the window,
    /// and leaves the pool later rounds on the same day draw from.
    #[verifier::rlimit(100)]
    fn consume_invites(
        invite_data: &Vec<Invite>,
        acc: &mut RateAccumulator,
        pool_invite: &mut ScorePool,
        vi: &mut usize,
        i: i64,
        Ghost(gpi): Ghost<int>,
    )
        requires
            invites_wf(invite_data@),
            *old(vi) <= invite_data@.len(),
            *old(vi) < invite_data@.len() ==> invite_data@[*old(vi) as int].date.days >= i,
            invites_ascending(invite_data@),
            old(acc).wf(),
            forall|j: int|
                0 <= j < old(acc).pending_view().len() ==> #[trigger] old(acc).pending_view()[
                j].expiry.days > i,
            old(acc).pending_view().len() + (invite_data@.len() - *old(vi)) <= PENDING_LIMIT,
            old(pool_invite).wf(),
            bounded(old(pool_invite)@, (REMOVAL_CAP as int) * (1 + *old(vi) as int)),
            0 <= i,
            i + SUBMIT_DAYS <= DATE_MAG,
        ensures
            *old(vi) <= *final(vi) <= invite_data@.len(),
            *final(vi) < invite_data@.len() ==> invite_data@[*final(vi) as int].date.days >= i
                && invite_data@[*final(vi) as int].date.days != i,
            final(acc).wf(),
            forall|j: int|
                0 <= j < final(acc).pending_view().len() ==> #[trigger] final(acc).pending_view()[
                j].expiry.days > i,
            final(acc).pending_view().len() <= old(acc).pending_view().len() + (*final(vi)
                - *old(vi)),
            final(pool_invite).wf(),
            bounded(final(pool_invite)@, (REMOVAL_CAP as int) * (1 + *final(vi) as int)),
            st_invites(
                invite_data@,
                (SweepState {
                    pi: gpi,
                    vi: *old(vi) as int,
                    pool_invite: old(pool_invite)@,
                    pending: pend_pairs(old(acc).pending_view()),
                    rate: old(acc).rate_view(),
                }),
                i as int,
            ) == (SweepState {
                pi: gpi,
                vi: *final(vi) as int,
                pool_invite: final(pool_invite)@,
                pending: pend_pairs(final(acc).pending_view()),
                rate: final(acc).rate_view(),
            }),
    {
        let ghost vv = invite_data@;
        let ghost vi_in = *vi as int;
        let ghost pend_in = acc.pending_view().len() as int;
        while *vi < invite_data.len() && invite_data[*vi].date.days == i
            invariant
                vv == invite_data@,
                invites_wf(vv),
                invites_ascending(vv),
                vi_in <= *vi as int <= vv.len(),
                *vi < vv.len() ==> vv[*vi as int].date.days >= i,
                acc.wf(),
                forall|j: int|
                    0 <= j < acc.pending_view().len() ==> #[trigger] acc.pending_view()[
                    j].expiry.days > i,
                acc.pending_view().len() <= pend_in + (*vi as int - vi_in),
                pend_in + (vv.len() - vi_in) <= PENDING_LIMIT,
                pool_invite.wf(),
                bounded(pool_invite@, (REMOVAL_CAP as int) * (1 + *vi as int)),
                0 <= i,
                i + SUBMIT_DAYS <= DATE_MAG,
                st_invites(
                    vv,
                    (SweepState {
                        pi: gpi,
                        vi: vi_in,
                        pool_invite: old(pool_invite)@,
                        pending: pend_pairs(old(acc).pending_view()),
                        rate: old(acc).rate_view(),
                    }),
                    i as int,
                ) == st_invites(
                    vv,
                    (SweepState {
                        pi: gpi,
                        vi: *vi as int,
                        pool_invite: pool_invite@,
                        pending: pend_pairs(acc.pending_view()),
                        rate: acc.rate_view(),
                    }),
                    i as int,
                ),
            decreases vv.len() - *vi,
        {
            let ghost st_now = SweepState {
                pi: gpi,
                vi: *vi as int,
                pool_invite: pool_invite@,
                pending: pend_pairs(acc.pending_view()),
                rate: acc.rate_view(),
            };
            proof {
                assert((REMOVAL_CAP as int) * (1 + *vi as int) <= (REMOVAL_CAP as int) * (1
                    + INPUT_LIMIT as int)) by (nonlinear_arith)
                    requires
                        *vi as int <= INPUT_LIMIT as int,
                        REMOVAL_CAP as int > 0,
                ;
            }
            let inv = &invite_data[*vi];
            let removed = pool_invite.invite(inv);
            let v = removed.div_days(SUBMIT_DAYS as i64);
            proof {
                assert forall|j: int| 0 <= j < BUCKETS implies -(CONTRIB_MAG as int)
                    <= #[trigger] v@[j] <= CONTRIB_MAG as int by {
                    crate::fixed::lemma_div_trunc_mag(removed@[j], SUBMIT_DAYS as int);
                }
                lemma_pr_insert_pos_map(acc.pending_view(), i as int + SUBMIT_DAYS as int);
            }
            let ghost pend2 = acc.pending_view();
            let c = RateContribution { expiry: Date { days: i + SUBMIT_DAYS as i64 }, value: v };
            acc.insert(c);
            let ghost pool_before = pool_invite@;
            let new_pool = pool_invite.sub(&removed);
            *pool_invite = new_pool;
            let vi_old = *vi;
            *vi += 1;
            proof {
                let e = i as int + SUBMIT_DAYS as int;
                let k = insert_pos(pend2, e);
                crate::rate::lemma_insert_pos_splits(pend2, e);
                lemma_pend_pairs_insert(pend2, k, c);
                assert(pend_pairs(acc.pending_view()) =~= pend_pairs(pend2).insert(
                    pr_insert_pos(pend_pairs(pend2), e),
                    (e, v@),
                ));
                // every pending expiry still lies past today
                assert forall|j: int|
                    0 <= j < acc.pending_view().len() implies #[trigger] acc.pending_view()[
                j].expiry.days > i by {
                    if j < k {
                        assert(acc.pending_view()[j] == pend2[j]);
                    } else if j == k {
                        assert(acc.pending_view()[j] == c);
                    } else {
                        assert(acc.pending_view()[j] == pend2[j - 1]);
                    }
                }
                // the pool bound grows by at most one removal cap
                assert((REMOVAL_CAP as int) * (1 + *vi as int) == (REMOVAL_CAP as int) * (1
                    + vi_old as int) + REMOVAL_CAP as int) by (nonlinear_arith)
                    requires
                        *vi as int == vi_old as int + 1,
                ;
                assert forall|j: int| 0 <= j < BUCKETS implies -((REMOVAL_CAP as int) * (1
                    + *vi as int)) <= #[trigger] pool_invite@[j] <= (REMOVAL_CAP as int) * (1
                    + *vi as int) by {
                    assert(pool_invite@[j] == pool_before[j] - removed@[j]);
                    if inv.category.code == crate::category::CategoryCode::General {
                        let base = crate::score_pool::invite_base(
                            pool_before,
                            inv.pathway.spec_is_pnp(),
                        );
                        assert(base[j] == pool_before[j] || base[j] == 0);
                    }
                }
                let st_next = SweepState {
                    pi: gpi,
                    vi: *vi as int,
                    pool_invite: pool_invite@,
                    pending: pend_pairs(acc.pending_view()),
                    rate: acc.rate_view(),
                };
                assert(st_invites(vv, st_now, i as int) == st_invites(vv, st_next, i as int));
            }
        }
    }

    /// Estimates the per-bucket entry rate from the two event streams.
    /// Snapshot deltas contribute their per-day linear change until
    /// the next snapshot; each invitation's estimated removal
    /// contributes, spread over the maturation window, until it
    /// matures; the emitted series reports the accumulated rate at
    /// each cursor date past the warm-up window.  Unsorted input is a
    /// contract breach by the ingestion layer and is reported, never
    /// silently corrected.
    pub fn pool_increase_rate(
        pool_data: &Vec<PoolSnapshot>,
        invite_data: &Vec<Invite>,
    ) -> (r: Result<(Vec<Date>, Vec<ScorePool>), EngineError>)
        requires
            pools_wf(pool_data@),
            invites_wf(invite_data@),
        ensures
            match r {
                Result::Ok(out) => {
                    &&& pools_ascending(pool_data@)
                    &&& invites_ascending(invite_data@)
                    &&& out.0@.len() == out.1@.len()
                    &&& series_of(out.0@, out.1@) == spec_sweep(pool_data@, invite_data@)
                    &&& forall|k: int| 0 <= k < out.0@.len() ==> (#[trigger] out.0@[k]).wf()
                    &&& forall|k: int|
                        1 <= k < out.0@.len() ==> out.0@[k - 1].days < #[trigger] out.0@[k].days
                    &&& forall|k: int|
                        0 <= k < out.1@.len() ==> (#[trigger] out.1@[k]).wf() && bounded(
                            out.1@[k]@,
                            RATE_MAG as int,
                        )
                },
                Result::Err(e) => e == EngineError::OrderingViolation && !(pools_ascending(
                    pool_data@,
                ) && invites_ascending(invite_data@)),
            },
    {
        if !Self::check_pools_sorted(pool_data) || !Self::check_invites_sorted(invite_data) {
            return Err(EngineError::OrderingViolation);
        }
        if pool_data.len() == 0 {
            let dates: Vec<Date> = Vec::new();
            let rates: Vec<ScorePool> = Vec::new();
            proof {
                assert(series_of(dates@, rates@) =~= spec_sweep(pool_data@, invite_data@));
            }
            return Ok((dates, rates));
        }
        Ok(Self::run_sweep(pool_data, invite_data))
    }

    /// Index of the first invitation dated on or after `d`.
    fn skip_early_invites(invite_data: &Vec<Invite>, d: i64) -> (r: usize)
        ensures
            r as int == first_on_or_after(invite_data@, 0, d as int),
            r <= invite_data@.len(),
            r < invite_data@.len() ==> invite_data@[r as int].date.days >= d,
    {
        let mut vi: usize = 0;
        while vi < invite_data.len() && invite_data[vi].date.days < d
            invariant
                vi <= invite_data@.len(),
                first_on_or_after(invite_data@, 0, d as int) == first_on_or_after(
                    invite_data@,
                    vi as int,
                    d as int,
                ),
            decreases invite_data@.len() - vi,
        {
            vi += 1;
        }
        vi
    }

    /// Consumes the snapshot dated `i`, if one is due: it becomes the
    /// pool the day's invitations draw from, and if another snapshot
    /// follows, the per-day linear delta toward it is filed as a
    /// contribution until that next date.
    #[verifier::rlimit(100)]
    fn consume_snapshot(
        pool_data: &Vec<PoolSnapshot>,
        acc: &mut RateAccumulator,
        pool_invite: &mut ScorePool,
        pi: usize,
        i: i64,
        Ghost(gvi): Ghost<int>,
    ) -> (pi2: usize)
        requires
            pools_wf(pool_data@),
            pools_ascending(pool_data@),
            pi <= pool_data@.len(),
            pi < pool_data@.len() ==> pool_data@[pi as int].date.days >= i,
            old(acc).wf(),
            forall|j: int|
                0 <= j < old(acc).pending_view().len() ==> #[trigger] old(acc).pending_view()[
                j].expiry.days > i,
            pi < pool_data@.len() ==> old(acc).pending_view().len() < PENDING_LIMIT,
            old(pool_invite).wf(),
        ensures
            pi as int <= pi2 as int <= pi as int + 1,
            pi2 <= pool_data@.len(),
            pi2 < pool_data@.len() ==> pool_data@[pi2 as int].date.days > i,
            final(acc).wf(),
            forall|j: int|
                0 <= j < final(acc).pending_view().len()
                    ==> #[trigger] final(acc).pending_view()[j].expiry.days > i,
            final(acc).pending_view().len() <= old(acc).pending_view().len() + (pi2 as int
                - pi as int),
            final(pool_invite).wf(),
            final(pool_invite)@ == old(pool_invite)@ || bounded(
                final(pool_invite)@,
                REMOVAL_CAP as int,
            ),
            (SweepState {
                pi: pi2 as int,
                vi: gvi,
                pool_invite: final(pool_invite)@,
                pending: pend_pairs(final(acc).pending_view()),
                rate: final(acc).rate_view(),
            }) == st_pools(
                pool_data@,
                (SweepState {
                    pi: pi as int,
                    vi: gvi,
                    pool_invite: old(pool_invite)@,
                    pending: pend_pairs(old(acc).pending_view()),
                    rate: old(acc).rate_view(),
                }),
                i as int,
            ),
    {
        let ghost pp = pool_data@;
        let ghost st_b = SweepState {
            pi: pi as int,
            vi: gvi,
            pool_invite: pool_invite@,
            pending: pend_pairs(acc.pending_view()),
            rate: acc.rate_view(),
        };
        let mut pi = pi;
        if pi < pool_data.len() && pool_data[pi].date.days == i {
            *pool_invite = pool_data[pi].to_score_pool();
            proof {
                assert(pool_invite@ =~= snap_units(pp[pi as int]));
                assert forall|j: int| 0 <= j < BUCKETS implies 0 <= #[trigger] pool_invite@[j]
                    <= REMOVAL_CAP as int by {
                    assert(0 <= pp[pi as int].counts@[j] * SCALE <= REMOVAL_CAP as int)
                        by (nonlinear_arith)
                        requires
                            0 <= pp[pi as int].counts@[j] <= crate::COUNT_LIMIT,
                    ;
                }
            }
            pi += 1;
            if pi < pool_data.len() {
                let days: i64 = pool_data[pi].date.days - i;
                let p0 = pool_data[pi - 1].to_score_pool();
                let p1 = pool_data[pi].to_score_pool();
                let diff = p1.sub(&p0);
                let v = diff.div_days(days);
                proof {
                    assert forall|j: int| 0 <= j < BUCKETS implies -(CONTRIB_MAG as int)
                        <= #[trigger] v@[j] <= CONTRIB_MAG as int by {
                        crate::fixed::lemma_div_trunc_mag(diff@[j], days as int);
                    }
                    lemma_pr_insert_pos_map(acc.pending_view(), pp[pi as int].date.days as int);
                }
                let ghost pend1 = acc.pending_view();
                let c = RateContribution { expiry: pool_data[pi].date, value: v };
                acc.insert(c);
                proof {
                    let e = pp[pi as int].date.days as int;
                    let k = insert_pos(pend1, e);
                    crate::rate::lemma_insert_pos_splits(pend1, e);
                    lemma_pend_pairs_insert(pend1, k, c);
                    assert(pend_pairs(acc.pending_view()) =~= pend_pairs(pend1).insert(
                        pr_insert_pos(pend_pairs(pend1), e),
                        (e, v@),
                    ));
                    assert(v@ =~= sp_div_whole(
                        sp_sub(snap_units(pp[pi as int]), snap_units(pp[pi as int - 1])),
                        days as int,
                    ));
                    assert forall|j: int|
                        0 <= j < acc.pending_view().len() implies #[trigger] acc.pending_view()[
                    j].expiry.days > i by {
                        if j < k {
                            assert(acc.pending_view()[j] == pend1[j]);
                        } else if j == k {
                            assert(acc.pending_view()[j] == c);
                        } else {
                            assert(acc.pending_view()[j] == pend1[j - 1]);
                        }
                    }
                }
            }
        }
        proof {
            assert((SweepState {
                pi: pi as int,
                vi: gvi,
                pool_invite: pool_invite@,
                pending: pend_pairs(acc.pending_view()),
                rate: acc.rate_view(),
            }) =~= st_pools(pp, st_b, i as int));
        }
        pi
    }

    /// Processes one cursor date: retires expiries, consumes the due
    /// snapshot and invitations, emits past the warm-up window, and
    /// says where the cursor jumps next.
    #[verifier::rlimit(100)]
    fn sweep_round(
        pool_data: &Vec<PoolSnapshot>,
        invite_data: &Vec<Invite>,
        acc: &mut RateAccumulator,
        pool_invite: &mut ScorePool,
        dates: &mut Vec<Date>,
        rates: &mut Vec<ScorePool>,
        pi: usize,
        vi: usize,
        i: i64,
        i0: i64,
        i_n: i64,
        Ghost(vi0): Ghost<int>,
    ) -> (r: (usize, usize, i64))
        requires
            pools_wf(pool_data@),
            invites_wf(invite_data@),
            pools_ascending(pool_data@),
            invites_ascending(invite_data@),
            pool_data@.len() > 0,
            i0 == pool_data@[0].date.days,
            i_n == pool_data@.last().date.days + 1,
            i_n <= DATE_MAG - 99,
            i0 <= i < i_n,
            pi <= pool_data@.len(),
            0 <= vi0 <= vi as int <= invite_data@.len(),
            pi < pool_data@.len() ==> pool_data@[pi as int].date.days >= i,
            vi < invite_data@.len() ==> invite_data@[vi as int].date.days >= i,
            old(acc).wf(),
            forall|j: int|
                0 <= j < old(acc).pending_view().len() ==> #[trigger] old(acc).pending_view()[
                j].expiry.days >= i,
            old(acc).pending_view().len() <= pi as int + (vi as int - vi0),
            old(pool_invite).wf(),
            bounded(old(pool_invite)@, (REMOVAL_CAP as int) * (1 + vi as int)),
            old(dates)@.len() == old(rates)@.len(),
            spec_sweep(pool_data@, invite_data@) =~= series_of(old(dates)@, old(rates)@)
                + sweep_from(
                pool_data@,
                invite_data@,
                (SweepState {
                    pi: pi as int,
                    vi: vi as int,
                    pool_invite: old(pool_invite)@,
                    pending: pend_pairs(old(acc).pending_view()),
                    rate: old(acc).rate_view(),
                }),
                i as int,
                i0 as int,
                i_n as int,
            ),
            forall|k: int|
                0 <= k < old(dates)@.len() ==> (#[trigger] old(dates)@[k]).wf() && old(dates)@[
                k].days <= i,
            forall|k: int|
                1 <= k < old(dates)@.len() ==> old(dates)@[k - 1].days < #[trigger] old(dates)@[
                k].days,
            forall|k: int|
                0 <= k < old(rates)@.len() ==> (#[trigger] old(rates)@[k]).wf() && bounded(
                    old(rates)@[k]@,
                    RATE_MAG as int,
                ),
        ensures
            ({
                let pi2 = r.0;
                let vi2 = r.1;
                let nx = r.2;
                &&& i < nx <= i_n
                &&& pi2 <= pool_data@.len()
                &&& vi0 <= vi2 as int <= invite_data@.len()
                &&& vi as int <= vi2 as int
                &&& pi2 < pool_data@.len() ==> pool_data@[pi2 as int].date.days >= nx
                &&& vi2 < invite_data@.len() ==> invite_data@[vi2 as int].date.days >= nx
                &&& final(acc).wf()
                &&& forall|j: int|
                    0 <= j < final(acc).pending_view().len()
                        ==> #[trigger] final(acc).pending_view()[j].expiry.days >= nx
                &&& final(acc).pending_view().len() <= pi2 as int + (vi2 as int - vi0)
                &&& final(pool_invite).wf()
                &&& bounded(final(pool_invite)@, (REMOVAL_CAP as int) * (1 + vi2 as int))
                &&& final(dates)@.len() == final(rates)@.len()
                &&& spec_sweep(pool_data@, invite_data@) =~= series_of(
                    final(dates)@,
                    final(rates)@,
                ) + sweep_from(
                    pool_data@,
                    invite_data@,
                    (SweepState {
                        pi: pi2 as int,
                        vi: vi2 as int,
                        pool_invite: final(pool_invite)@,
                        pending: pend_pairs(final(acc).pending_view()),
                        rate: final(acc).rate_view(),
                    }),
                    nx as int,
                    i0 as int,
                    i_n as int,
                )
                &&& forall|k: int|
                    0 <= k < final(dates)@.len() ==> (#[trigger] final(dates)@[k]).wf()
                        && final(dates)@[k].days <= nx
                &&& forall|k: int|
                    1 <= k < final(dates)@.len()
                        ==> final(dates)@[k - 1].days < #[trigger] final(dates)@[k].days
                &&& forall|k: int|
                    0 <= k < final(rates)@.len() ==> (#[trigger] final(rates)@[k]).wf() && bounded(
                        final(rates)@[k]@,
                        RATE_MAG as int,
                    )
            }),
    {
        let ghost pp = pool_data@;
        let ghost vv = invite_data@;
        let ghost total = spec_sweep(pp, vv);
        let mut pi = pi;
        let mut vi = vi;
            let ghost st_a = SweepState {
            pi: pi as int,
            vi: vi as int,
            pool_invite: pool_invite@,
            pending: pend_pairs(acc.pending_view()),
            rate: acc.rate_view(),
        };

        // retire everything expiring today
        let ghost pend0 = acc.pending_view();
        acc.update(Date { days: i });
        proof {
            let n = insert_pos(pend0, i as int);
            lemma_pr_insert_pos_map(pend0, i as int);
            crate::rate::lemma_insert_pos_splits(pend0, i as int);
            lemma_pend_pairs_skip(pend0, n);
            lemma_pair_values_take(pend0, n);
            assert(pend_pairs(acc.pending_view()) =~= pend_pairs(pend0).skip(n));
            assert((SweepState {
                pi: pi as int,
                vi: vi as int,
                pool_invite: pool_invite@,
                pending: pend_pairs(acc.pending_view()),
                rate: acc.rate_view(),
            }) =~= st_update(st_a, i as int));
            // what remains expires strictly after today
            assert forall|j: int|
                0 <= j < acc.pending_view().len() implies #[trigger] acc.pending_view()[
            j].expiry.days > i by {
                assert(acc.pending_view()[j] == pend0[n + j]);
            }
        }
        let ghost st_b = st_update(st_a, i as int);

        proof {
            assert(pi < pp.len() ==> acc.pending_view().len() < PENDING_LIMIT);
        }
        let pi2 = Self::consume_snapshot(pool_data, acc, pool_invite, pi, i, Ghost(vi as int));
        pi = pi2;
        proof {
            assert((SweepState {
                pi: pi as int,
                vi: vi as int,
                pool_invite: pool_invite@,
                pending: pend_pairs(acc.pending_view()),
                rate: acc.rate_view(),
            }) =~= st_pools(pp, st_b, i as int));
            assert((REMOVAL_CAP as int) * 1 <= (REMOVAL_CAP as int) * (1 + vi as int))
                by (nonlinear_arith)
                requires
                    vi as int >= 0,
            ;
        }
        let ghost st_c = st_pools(pp, st_b, i as int);

        // consume today's invitations
        Self::consume_invites(
            invite_data,
            acc,
            pool_invite,
            &mut vi,
            i,
            Ghost(pi as int),
        );
        let ghost st_d = st_invites(vv, st_c, i as int);
        proof {
            assert((SweepState {
                pi: pi as int,
                vi: vi as int,
                pool_invite: pool_invite@,
                pending: pend_pairs(acc.pending_view()),
                rate: acc.rate_view(),
            }) =~= st_d);
            assert(st_d == sweep_step(pp, vv, st_a, i as int));
        }

        // where the cursor jumps next
        let mut nx: i64 = i_n;
        if pi < pool_data.len() {
            let d = pool_data[pi].date.days;
            if d < nx {
                nx = d;
            }
        }
        if vi < invite_data.len() {
            let d = invite_data[vi].date.days;
            if d < nx {
                nx = d;
            }
        }
        match acc.next_expiry() {
            Option::Some(e) => {
                if e.days < nx {
                    nx = e.days;
                }
            },
            Option::None => {},
        }
        proof {
            assert(nx as int == next_cursor(pp, vv, st_d, i_n as int));
            assert(i < nx <= i_n);
        }

        // emit past the warm-up window
        if i > i0 + SUBMIT_DAYS as i64 {
            let interval = nx - i;
            let mid = i + (interval + 1) / 2;
            let ghost dates0 = dates@;
            let ghost rates0 = rates@;
            let rate_now = acc.rate();
            proof {
                crate::rate::lemma_sum_values_bounded(
                    values_view(acc.pending_view()),
                    CONTRIB_MAG as int,
                );
                assert((acc.pending_view().len() as int) * (CONTRIB_MAG as int) <= (
                PENDING_LIMIT as int) * (CONTRIB_MAG as int)) by (nonlinear_arith)
                    requires
                        acc.pending_view().len() <= PENDING_LIMIT,
                        CONTRIB_MAG as int >= 0,
                ;
                assert(bounded(rate_now@, RATE_MAG as int));
            }
            dates.push(Date { days: mid });
            rates.push(rate_now);
            proof {
                reveal(sweep_from);
                assert(series_of(dates@, rates@) =~= series_of(dates0, rates0).push(
                    (mid as int, st_d.rate),
                ));
                assert(sweep_from(pp, vv, st_a, i as int, i0 as int, i_n as int) =~= seq![
                    (mid as int, st_d.rate),
                ] + sweep_from(pp, vv, st_d, nx as int, i0 as int, i_n as int));
                assert(total =~= series_of(dates@, rates@) + sweep_from(
                    pp,
                    vv,
                    st_d,
                    nx as int,
                    i0 as int,
                    i_n as int,
                ));
            }
        } else {
            proof {
                reveal(sweep_from);
                assert(sweep_from(pp, vv, st_a, i as int, i0 as int, i_n as int)
                    =~= sweep_from(pp, vv, st_d, nx as int, i0 as int, i_n as int));
                assert(total =~= series_of(dates@, rates@) + sweep_from(
                    pp,
                    vv,
                    st_d,
                    nx as int,
                    i0 as int,
                    i_n as int,
                ));
            }
        }

        (pi, vi, nx)
    }

    /// The sweep proper, on checked, nonempty, ordered inputs.
    #[verifier::rlimit(100)]
    fn run_sweep(pool_data: &Vec<PoolSnapshot>, invite_data: &Vec<Invite>) -> (out: (
        Vec<Date>,
        Vec<ScorePool>,
    ))
        requires
            pools_wf(pool_data@),
            invites_wf(invite_data@),
            pools_ascending(pool_data@),
            invites_ascending(invite_data@),
            pool_data@.len() > 0,
        ensures
            out.0@.len() == out.1@.len(),
            series_of(out.0@, out.1@) == spec_sweep(pool_data@, invite_data@),
            forall|k: int| 0 <= k < out.0@.len() ==> (#[trigger] out.0@[k]).wf(),
            forall|k: int| 1 <= k < out.0@.len() ==> out.0@[k - 1].days < #[trigger] out.0@[
            k].days,
            forall|k: int|
                0 <= k < out.1@.len() ==> (#[trigger] out.1@[k]).wf() && bounded(
                    out.1@[k]@,
                    RATE_MAG as int,
                ),
    {
        let ghost pp = pool_data@;
        let ghost vv = invite_data@;
        let mut dates: Vec<Date> = Vec::new();
        let mut rates: Vec<ScorePool> = Vec::new();
        let i0: i64 = pool_data[0].date.days;
        let i_n: i64 = pool_data[pool_data.len() - 1].date.days + 1;
        proof {
            assert(pp.last() == pp[pp.len() - 1]);
            lemma_ascending_range(pp, 0, pp.len() - 1);
        }

        // invitations before the first snapshot play no part
        let mut vi: usize = Self::skip_early_invites(invite_data, i0);
        let ghost vi0 = vi as int;

        let mut acc = RateAccumulator::new();
        let mut pool_invite = ScorePool::zero();
        let mut pi: usize = 0;
        let mut i: i64 = i0;
        let ghost total = spec_sweep(pp, vv);
        proof {
            lemma_sweep_start(
                pp,
                vv,
                SweepState {
                    pi: pi as int,
                    vi: vi as int,
                    pool_invite: pool_invite@,
                    pending: pend_pairs(acc.pending_view()),
                    rate: acc.rate_view(),
                },
                i0 as int,
                i_n as int,
            );
            assert(series_of(dates@, rates@) =~= Seq::<(int, Seq<int>)>::empty());
            assert(total =~= series_of(dates@, rates@) + sweep_from(
                pp,
                vv,
                (SweepState {
                    pi: pi as int,
                    vi: vi as int,
                    pool_invite: pool_invite@,
                    pending: pend_pairs(acc.pending_view()),
                    rate: acc.rate_view(),
                }),
                i0 as int,
                i0 as int,
                i_n as int,
            ));
        }

        while i < i_n
            invariant
                pp == pool_data@,
                vv == invite_data@,
                pools_wf(pp),
                invites_wf(vv),
                pools_ascending(pp),
                invites_ascending(vv),
                pp.len() > 0,
                i0 == pp[0].date.days,
                i_n == pp.last().date.days + 1,
                i_n <= DATE_MAG - 99,
                i0 <= i <= i_n,
                pi <= pp.len(),
                0 <= vi0 <= vi <= vv.len(),
                pi < pp.len() ==> pp[pi as int].date.days >= i,
                vi < vv.len() ==> vv[vi as int].date.days >= i,
                acc.wf(),
                forall|j: int|
                    0 <= j < acc.pending_view().len() ==> #[trigger] acc.pending_view()[
                    j].expiry.days >= i,
                acc.pending_view().len() <= pi as int + (vi as int - vi0),
                pool_invite.wf(),
                bounded(pool_invite@, (REMOVAL_CAP as int) * (1 + vi as int)),
                dates@.len() == rates@.len(),
                total == spec_sweep(pp, vv),
                total =~= series_of(dates@, rates@) + sweep_from(
                    pp,
                    vv,
                    (SweepState {
                        pi: pi as int,
                        vi: vi as int,
                        pool_invite: pool_invite@,
                        pending: pend_pairs(acc.pending_view()),
                        rate: acc.rate_view(),
                    }),
                    i as int,
                    i0 as int,
                    i_n as int,
                ),
                forall|k: int|
                    0 <= k < dates@.len() ==> (#[trigger] dates@[k]).wf() && dates@[k].days <= i,
                forall|k: int| 1 <= k < dates@.len() ==> dates@[k - 1].days < #[trigger] dates@[
                k].days,
                forall|k: int|
                    0 <= k < rates@.len() ==> (#[trigger] rates@[k]).wf() && bounded(
                        rates@[k]@,
                        RATE_MAG as int,
                    ),
            decreases i_n - i,
        {
            let round = Self::sweep_round(
                pool_data,
                invite_data,
                &mut acc,
                &mut pool_invite,
                &mut dates,
                &mut rates,
                pi,
                vi,
                i,
                i0,
                i_n,
                Ghost(vi0),
            );
            pi = round.0;
            vi = round.1;
            let nx = round.2;
            i = nx;
        }
        proof {
            let st_end = SweepState {
                pi: pi as int,
                vi: vi as int,
                pool_invite: pool_invite@,
                pending: pend_pairs(acc.pending_view()),
                rate: acc.rate_view(),
            };
            reveal(sweep_from);
            assert(sweep_from(pp, vv, st_end, i as int, i0 as int, i_n as int) =~= Seq::<
                (int, Seq<int>),
            >::empty());
            assert(total =~= series_of(dates@, rates@));
        }
        (dates, rates)
    }

    /// The full estimation pipeline: the sweep's raw series, smoothed
    /// over the irregular day gaps, and the trailing-window projection
    /// of the smoothed series — the computation behind the rate chart.
    pub fn pool_rate_series(
        pool_data: &Vec<PoolSnapshot>,
        invite_data: &Vec<Invite>,
        alpha: i128,
    ) -> (r: Result<(Vec<Date>, Vec<ScorePool>, ScorePool), EngineError>)
        requires
            pools_wf(pool_data@),
            invites_wf(invite_data@),
            0 < alpha < SCALE,
        ensures
            match r {
                Result::Ok(out) => {
                    let series = spec_sweep(pool_data@, invite_data@);
                    &&& pools_ascending(pool_data@)
                    &&& invites_ascending(invite_data@)
                    &&& out.0@.len() == series.len()
                    &&& out.1@.len() == series.len()
                    &&& forall|k: int|
                        0 <= k < series.len() ==> (#[trigger] out.0@[k]).days == series[k].0
                    &&& forall|k: int|
                        0 <= k < series.len() ==> (#[trigger] out.1@[k])@ =~= crate::smooth::smoothed(
                            series.map_values(|p: (int, Seq<int>)| p.0),
                            pr_values(series),
                            alpha as int,
                            k,
                        )
                    &&& out.2@ =~= spec_projected(pools_view(out.1@))
                },
                Result::Err(e) => e == EngineError::OrderingViolation && !(pools_ascending(
                    pool_data@,
                ) && invites_ascending(invite_data@)),
            },
    {
        let ghost series = spec_sweep(pool_data@, invite_data@);
        match Self::pool_increase_rate(pool_data, invite_data) {
            Result::Err(e) => Result::Err(e),
            Result::Ok((dates, mut rates)) => {
                proof {
                    assert forall|k: int| 0 <= k < series.len() implies (#[trigger] dates@[
                    k]).days == series[k].0 && rates@[k]@ == series[k].1 by {
                        assert(series_of(dates@, rates@)[k] == series[k]);
                    }
                    assert(crate::smooth::days_view(dates@) =~= series.map_values(
                        |p: (int, Seq<int>)| p.0,
                    ));
                    assert(pools_view(rates@) =~= pr_values(series));
                }
                crate::smooth::Smoother::exponential(&dates, &mut rates, alpha);
                let projected = Self::projected_rate(&rates);
                Result::Ok((dates, rates, projected))
            },
        }
    }

    /// Short-horizon projection of a rate series: the mean of its
    /// trailing window of points, or the zero vector for an empty
    /// series.
    pub fn projected_rate(rate_data: &Vec<ScorePool>) -> (r: ScorePool)
        requires
            forall|j: int|
                0 <= j < rate_data@.len() ==> (#[trigger] rate_data@[j]).wf() && bounded(
                    rate_data@[j]@,
                    RATE_MAG as int,
                ),
        ensures
            r.wf(),
            r@ =~= spec_projected(pools_view(rate_data@)),
    {
        let ghost s = pools_view(rate_data@);
        let n = rate_data.len();
        let start = if n < PAST_DAYS {
            0
        } else {
            n - PAST_DAYS
        };
        let mut acc = ScorePool::zero();
        let mut k = start;
        proof {
            assert(s.skip(start as int).take(0) =~= Seq::<Seq<int>>::empty());
        }
        while k < n
            invariant
                start <= k <= n,
                n == rate_data@.len(),
                n - start <= PAST_DAYS,
                s == pools_view(rate_data@),
                forall|j: int|
                    0 <= j < rate_data@.len() ==> (#[trigger] rate_data@[j]).wf() && bounded(
                        rate_data@[j]@,
                        RATE_MAG as int,
                    ),
                acc.wf(),
                acc@ =~= sum_values(s.skip(start as int).take(k - start)),
                bounded(acc@, (k - start) * (RATE_MAG as int)),
            decreases n - k,
        {
            proof {
                let part = s.skip(start as int).take(k - start + 1);
                assert(part.drop_last() =~= s.skip(start as int).take(k - start));
                assert(part.last() == s[k as int]);
                assert(s[k as int] == rate_data@[k as int]@);
                assert((k - start + 1) * (RATE_MAG as int) == (k - start) * (RATE_MAG as int) + (
                RATE_MAG as int)) by (nonlinear_arith);
                assert((k - start) * (RATE_MAG as int) <= 181 * (RATE_MAG as int))
                    by (nonlinear_arith)
                    requires
                        0 <= k - start <= 181,
                ;
            }
            acc = acc.add(&rate_data[k]);
            k += 1;
        }
        proof {
            assert(s.skip(start as int).take(n - start) =~= s.skip(start as int));
            assert((n - start) * (RATE_MAG as int) <= 181 * (RATE_MAG as int)) by (nonlinear_arith)
                requires
                    0 <= n - start <= 181,
            ;
        }
        if n == 0 {
            let r = ScorePool::zero();
            proof {
                assert(r@ =~= spec_projected(s));
            }
            return r;
        }
        let r = acc.div_days((n - start) as i64);
        proof {
            assert(r@ =~= spec_projected(s));
        }
        r
    }
}

} // verus!
