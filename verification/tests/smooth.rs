use analyzer::date::Date;
use analyzer::score_pool::ScorePool;
use analyzer::smooth::Smoother;
use analyzer::SCALE;

fn bucket0(c: i64) -> ScorePool {
    let mut counts = vec![0i64; 15];
    counts[0] = c;
    ScorePool::from_counts(&counts)
}

#[test]
fn exponential_over_a_two_day_gap() {
    let labels = vec![Date { days: 0 }, Date { days: 2 }];
    let mut values = vec![bucket0(4), bucket0(8)];
    let alpha = SCALE / 2;
    Smoother::exponential(&labels, &mut values, alpha);
    // weights: a = 1/2, b = (1/2)^2 = 1/4, residual r = 1/4;
    // 8/2 + 4/4 + 4/4 = 6
    assert_eq!(values[0].count(0), 4 * SCALE);
    assert_eq!(values[1].count(0), 6 * SCALE);
}

#[test]
fn exponential_keeps_a_single_point() {
    let labels = vec![Date { days: 5 }];
    let mut values = vec![bucket0(7)];
    Smoother::exponential(&labels, &mut values, SCALE / 10);
    assert_eq!(values[0].count(0), 7 * SCALE);
}

#[test]
fn exponential_of_empty_series() {
    let labels: Vec<Date> = Vec::new();
    let mut values: Vec<ScorePool> = Vec::new();
    Smoother::exponential(&labels, &mut values, SCALE / 10);
    assert!(values.is_empty());
}
