use analyzer::analyzer::{EngineError, RateAnalyzer};
use analyzer::category::Category;
use analyzer::date::Date;
use analyzer::invite::Invite;
use analyzer::invite::InviteId;
use analyzer::pathway::Pathway;
use analyzer::pool_data::PoolSnapshot;
use analyzer::rate::{RateAccumulator, RateContribution};
use analyzer::score_pool::ScorePool;
use analyzer::SCALE;

fn day(d: i64) -> Date {
    Date { days: d }
}

fn snapshot(d: i64, counts: [i64; 15]) -> PoolSnapshot {
    PoolSnapshot { date: day(d), counts: counts.to_vec() }
}

fn bucket0_pool(c: i64) -> [i64; 15] {
    let mut a = [0i64; 15];
    a[0] = c;
    a
}

fn general_invite(d: i64, size: i64, score: i64) -> Invite {
    Invite {
        id: InviteId::parse("1"),
        date: day(d),
        category: Category::parse("General"),
        pathway: Pathway::parse("Provincial Nominee Program"),
        size,
        score,
    }
}

fn restricted_invite(d: i64, size: i64, score: i64) -> Invite {
    Invite {
        id: InviteId::parse("2"),
        date: day(d),
        category: Category::parse("STEM occupations (2023-1)"),
        pathway: Pathway::parse("Federal Skilled Worker"),
        size,
        score,
    }
}

#[test]
fn restricted_draw_takes_the_slice_above_the_cutoff() {
    let pool = ScorePool::from_counts(&vec![1, 2, 3, 4, 5, 6, 7, 8, 9, 10, 11, 12, 13, 14, 15]);
    // the reserved bucket is emptied first (no provincial pathway);
    // the slice above 470 is then [11, 12, 13, 14] with total 50,
    // rescaled so the removal's total equals the draw size of 25
    let removed = pool.invite(&restricted_invite(0, 25, 470));
    assert_eq!(removed.count(9), 0);
    assert_eq!(removed.count(10), 5 * SCALE + SCALE / 2);
    assert_eq!(removed.count(11), 6 * SCALE);
    assert_eq!(removed.count(12), 6 * SCALE + SCALE / 2);
    assert_eq!(removed.count(13), 7 * SCALE);
    assert_eq!(removed.count(14), 0);
    assert_eq!(removed.total(), 25 * SCALE);
}

#[test]
fn restricted_draw_from_an_empty_slice_removes_nothing() {
    // nobody scores above the cutoff: rescaling would divide by zero,
    // so the defined result is the zero vector
    let pool = ScorePool::from_counts(&vec![9, 9, 0, 0, 0, 0, 0, 0, 0, 0, 0, 0, 0, 0, 0]);
    let removed = pool.invite(&restricted_invite(0, 5, 466));
    assert_eq!(removed.total(), 0);
}

#[test]
fn accumulator_update_behaviour() {
    let mut acc = RateAccumulator::new();
    let a = ScorePool::from_counts(&vec![3, 0, 0, 0, 0, 0, 0, 0, 0, 0, 0, 0, 0, 0, 0]);
    let b = ScorePool::from_counts(&vec![0, 5, 0, 0, 0, 0, 0, 0, 0, 0, 0, 0, 0, 0, 0]);
    acc.insert(RateContribution { expiry: day(10), value: a });
    acc.insert(RateContribution { expiry: day(12), value: b });

    // an update strictly before the earliest expiry changes nothing
    acc.update(day(9));
    assert_eq!(acc.next_expiry(), Some(day(10)));
    let r = acc.rate();
    assert_eq!(r.count(0), 3 * SCALE);
    assert_eq!(r.count(1), 5 * SCALE);

    // an update exactly at an expiry retires exactly those contributions
    acc.update(day(10));
    assert_eq!(acc.next_expiry(), Some(day(12)));
    let r = acc.rate();
    assert_eq!(r.count(0), 0);
    assert_eq!(r.count(1), 5 * SCALE);

    acc.update(day(12));
    assert_eq!(acc.next_expiry(), None);
    assert_eq!(acc.rate().total(), 0);
}

#[test]
fn sweep_of_linear_growth() {
    // two snapshots ten days apart whose totals differ by one hundred,
    // after a warm-up snapshot, and no invitations at all
    let pools = vec![
        snapshot(0, bucket0_pool(0)),
        snapshot(16, bucket0_pool(0)),
        snapshot(26, bucket0_pool(100)),
    ];
    let invites: Vec<Invite> = Vec::new();
    let (dates, rates) = RateAnalyzer::pool_increase_rate(&pools, &invites).unwrap();

    assert_eq!(dates.len(), 2);
    assert_eq!(rates.len(), 2);
    // between the snapshots the rate is the constant per-day delta
    assert_eq!(dates[0], day(21));
    assert_eq!(rates[0].count(0), 10 * SCALE);
    for i in 1..15 {
        assert_eq!(rates[0].count(i), 0);
    }
    // after the last snapshot nothing contributes any more
    assert_eq!(dates[1], day(27));
    assert_eq!(rates[1].total(), 0);
}

#[test]
fn sweep_counts_invites() {
    // a single general draw of 10 candidates out of bucket zero keeps
    // contributing 10/15 per day until it matures
    let pools = vec![
        snapshot(0, bucket0_pool(1000)),
        snapshot(20, bucket0_pool(1000)),
        snapshot(40, bucket0_pool(1000)),
    ];
    let invites = vec![general_invite(20, 10, 0)];
    let (dates, rates) = RateAnalyzer::pool_increase_rate(&pools, &invites).unwrap();

    // cursor dates past the warm-up: the invite day, the maturation
    // day and the last snapshot day
    assert_eq!(dates.len(), 3);
    assert_eq!(dates[0], day(28));
    // 10 candidates spread over the 15-day window
    assert_eq!(rates[0].count(0), 10 * SCALE / 15);
    // matured at day 35: only the (zero) snapshot delta is left
    assert_eq!(rates[1].count(0), 0);
}

#[test]
fn sweep_rejects_unsorted_snapshots() {
    let pools = vec![snapshot(5, bucket0_pool(1)), snapshot(5, bucket0_pool(2))];
    let invites: Vec<Invite> = Vec::new();
    assert!(matches!(
        RateAnalyzer::pool_increase_rate(&pools, &invites),
        Err(EngineError::OrderingViolation)
    ));
}

#[test]
fn sweep_rejects_unsorted_invites() {
    let pools = vec![snapshot(0, bucket0_pool(1))];
    let invites = vec![general_invite(9, 1, 0), general_invite(8, 1, 0)];
    assert!(matches!(
        RateAnalyzer::pool_increase_rate(&pools, &invites),
        Err(EngineError::OrderingViolation)
    ));
}

#[test]
fn sweep_of_nothing_is_empty() {
    let pools: Vec<PoolSnapshot> = Vec::new();
    let invites: Vec<Invite> = Vec::new();
    let (dates, rates) = RateAnalyzer::pool_increase_rate(&pools, &invites).unwrap();
    assert!(dates.is_empty());
    assert!(rates.is_empty());
}

#[test]
fn projected_rate_averages_trailing_window() {
    // a series shorter than the window is averaged over its own length
    let v = ScorePool::from_counts(&vec![362, 0, 0, 0, 0, 0, 0, 0, 0, 0, 0, 0, 0, 0, 0]);
    let r = RateAnalyzer::projected_rate(&vec![v]);
    assert_eq!(r.count(0), 362 * SCALE);

    // a longer series is averaged over the trailing 181 points only
    let mut series: Vec<ScorePool> = Vec::new();
    series.push(ScorePool::from_counts(&bucket0_pool(99_999).to_vec()));
    for _ in 0..181 {
        series.push(ScorePool::from_counts(&bucket0_pool(7).to_vec()));
    }
    assert_eq!(RateAnalyzer::projected_rate(&series).count(0), 7 * SCALE);

    let empty: Vec<ScorePool> = Vec::new();
    assert_eq!(RateAnalyzer::projected_rate(&empty).total(), 0);
}

#[test]
fn pipeline_smooths_and_projects() {
    let pools = vec![
        snapshot(0, bucket0_pool(0)),
        snapshot(16, bucket0_pool(0)),
        snapshot(26, bucket0_pool(100)),
    ];
    let invites: Vec<Invite> = Vec::new();
    let alpha = SCALE / 2;
    let (dates, rates, projected) =
        RateAnalyzer::pool_rate_series(&pools, &invites, alpha).unwrap();
    assert_eq!(dates.len(), 2);
    // first point stays raw; the second mixes half the new value with
    // the decayed and residual weights on the previous point
    assert_eq!(rates[0].count(0), 10 * SCALE);
    assert_eq!(rates[1].count(0), 5 * SCALE);
    assert_eq!(projected.count(0), 15 * SCALE / 2);
}
