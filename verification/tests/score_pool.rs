use analyzer::score_pool::ScorePool;
use analyzer::SCALE;

fn pool_1_to_15() -> ScorePool {
    let counts: Vec<i64> = vec![1, 2, 3, 4, 5, 6, 7, 8, 9, 10, 11, 12, 13, 14, 15];
    ScorePool::from_counts(&counts)
}

fn units(raw: [i64; 15]) -> Vec<i128> {
    raw.iter().map(|&x| (x as i128) * SCALE).collect()
}

#[test]
fn non_pnp() {
    let pool = pool_1_to_15();
    let res0 = pool.non_pnp();
    assert_eq!(
        res0.to_units(),
        units([1, 2, 3, 4, 5, 6, 7, 8, 9, 10, 11, 12, 13, 14, 0])
    );
}

#[test]
fn multiplier_invite_general() {
    let pool = pool_1_to_15();

    let m0 = pool.multiplier_invite_general(69 * SCALE);
    let res0 = pool.mul(&m0);
    assert_eq!(
        res0.to_units(),
        units([0, 0, 0, 0, 0, 0, 0, 0, 0, 4, 11, 12, 13, 14, 15])
    );

    let base = pool.non_pnp();
    let m1 = base.multiplier_invite_general(69 * SCALE);
    let res1 = base.mul(&m1);
    assert_eq!(
        res1.to_units(),
        units([0, 0, 0, 0, 0, 0, 0, 0, 9, 10, 11, 12, 13, 14, 0])
    );
}

#[test]
fn multiplier_within_score() {
    let pool = pool_1_to_15();

    let res0 = pool.mul(&pool.multiplier_within_score(0, 1200));
    assert_eq!(
        res0.to_units(),
        units([1, 2, 3, 4, 5, 6, 7, 8, 9, 10, 11, 12, 13, 14, 15])
    );

    let res1 = pool.mul(&pool.multiplier_within_score(466, 1200));
    assert_eq!(
        res1.to_units(),
        units([0, 0, 0, 0, 0, 0, 0, 0, 0, 4, 11, 12, 13, 14, 15])
    );

    let res2 = pool.mul(&pool.multiplier_within_score(0, 466));
    assert_eq!(
        res2.to_units(),
        units([1, 2, 3, 4, 5, 6, 7, 8, 9, 6, 0, 0, 0, 0, 0])
    );

    let res3 = pool.mul(&pool.multiplier_within_score(414, 466));
    assert_eq!(
        res3.to_units(),
        units([0, 0, 0, 0, 3, 6, 7, 8, 9, 6, 0, 0, 0, 0, 0])
    );
}

#[test]
fn add_then_sub_restores() {
    let v = pool_1_to_15();
    let w = ScorePool::from_counts(&vec![5, 0, 7, 1, 2, 3, 9, 9, 9, 0, 0, 4, 4, 4, 1]);
    let back = v.add(&w).sub(&w);
    assert_eq!(back.to_units(), v.to_units());
}

#[test]
fn total_and_count() {
    let pool = pool_1_to_15();
    assert_eq!(pool.total(), 120 * SCALE);
    assert_eq!(pool.count(9), 10 * SCALE);
}

#[test]
fn bucket_ranges() {
    assert_eq!(ScorePool::min_score(0), 0);
    assert_eq!(ScorePool::max_score(0), 300);
    assert_eq!(ScorePool::min_score(9), 460);
    assert_eq!(ScorePool::max_score(9), 470);
    assert_eq!(ScorePool::min_score(13), 500);
    assert_eq!(ScorePool::max_score(13), 600);
    assert_eq!(ScorePool::min_score(14), 600);
    assert_eq!(ScorePool::max_score(14), 1200);
    // the table is contiguous and strictly ascending throughout
    for i in 0..14 {
        assert_eq!(ScorePool::max_score(i), ScorePool::min_score(i + 1));
        assert!(ScorePool::min_score(i) < ScorePool::max_score(i));
    }
}

#[test]
fn normalize_shares() {
    let counts: Vec<i64> = vec![1, 0, 0, 0, 0, 0, 0, 0, 0, 0, 0, 0, 0, 0, 3];
    let v = ScorePool::from_counts(&counts);
    let n = v.normalize();
    assert_eq!(n.count(0), SCALE / 4);
    assert_eq!(n.count(14), 3 * SCALE / 4);
    assert_eq!(ScorePool::zero().normalize().to_units(), vec![0i128; 15]);
}

#[test]
fn scalar_and_elementwise_division() {
    let v = ScorePool::from_counts(&vec![2, 4, 6, 8, 10, 12, 14, 16, 18, 20, 22, 24, 26, 28, 30]);
    let halved = v.div_fraction(2 * SCALE);
    assert_eq!(halved.count(0), SCALE);
    assert_eq!(halved.count(14), 15 * SCALE);

    let w = ScorePool::from_counts(&vec![2; 15]);
    let q = v.div(&w);
    assert_eq!(q.count(0), SCALE);
    assert_eq!(q.count(14), 15 * SCALE);

    let by_days = v.div_days(2);
    assert_eq!(by_days.count(0), SCALE);
}

#[test]
fn zero_vector() {
    let z = ScorePool::zero();
    assert_eq!(z.to_units(), vec![0i128; 15]);
    assert_eq!(z.total(), 0);
}
