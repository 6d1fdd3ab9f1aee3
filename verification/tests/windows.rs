use rust_ti::windows::{chained_envelopes, latest_price, rolling_envelopes};

fn bands(constant: f64, difference: f64) -> (f64, f64, f64) {
    (
        constant * (1.0 - (difference / 100.0)),
        constant,
        constant * (1.0 + (difference / 100.0)),
    )
}

fn simple_average(prices: &[f64]) -> f64 {
    prices.iter().sum::<f64>() / prices.len() as f64
}

fn mcginley(latest: f64, previous: f64, period: usize) -> f64 {
    if previous == 0.0 {
        return latest;
    }
    let base = latest / previous;
    previous + ((latest - previous) / (period as f64 * base.powi(4)))
}

fn mcginley_envelope(window: &[f64], previous: f64) -> (f64, f64, f64) {
    let (last, n) = latest_price(window);
    bands(mcginley(last, previous, n), 3.0)
}

#[test]
fn rolling_windows_in_order() {
    let prices = vec![1u32, 2, 3, 4, 5, 6, 7];
    let res = rolling_envelopes(&prices, 5, |w: &[u32]| w.to_vec());
    assert_eq!(
        res,
        vec![vec![1, 2, 3, 4, 5], vec![2, 3, 4, 5, 6], vec![3, 4, 5, 6, 7]]
    );
}

#[test]
fn rolling_period_of_one() {
    let prices = vec![4i32, 8, 15];
    let res = rolling_envelopes(&prices, 1, |w: &[i32]| w[0] * 2);
    assert_eq!(res, vec![8, 16, 30]);
}

#[test]
fn rolling_full_period_is_one_window() {
    let prices = vec![100.46, 100.53, 100.38, 100.19, 100.21];
    let res = rolling_envelopes(&prices, 5, |w: &[f64]| bands(simple_average(w), 3.0));
    assert_eq!(res, vec![(97.34338, 100.354, 103.36462)]);
}

#[test]
fn rolling_drop_first_prices() {
    let prices = vec![3i64, 1, 4, 1, 5, 9, 2, 6];
    let all = rolling_envelopes(&prices, 3, |w: &[i64]| w.iter().sum::<i64>());
    let rest = rolling_envelopes(&prices[2..], 3, |w: &[i64]| w.iter().sum::<i64>());
    assert_eq!(all, vec![8, 6, 10, 15, 16, 17]);
    assert_eq!(rest, all[2..].to_vec());
}

#[test]
fn rolling_prefix_of_prices() {
    let prices = vec![3i64, 1, 4, 1, 5, 9, 2, 6];
    let all = rolling_envelopes(&prices, 3, |w: &[i64]| w[0] * w[2]);
    let first = rolling_envelopes(&prices[..5], 3, |w: &[i64]| w[0] * w[2]);
    assert_eq!(all, vec![12, 1, 20, 9, 10, 54]);
    assert_eq!(first, all[..3].to_vec());
}

#[test]
fn chained_hands_previous_middle_value() {
    let prices = vec![10u64, 20, 30, 40];
    let res = chained_envelopes(&prices, 2, 7, |w: &[u64], p: u64| (p, w[0] + w[1], w[1]));
    assert_eq!(res, vec![(7, 30, 20), (30, 50, 30), (50, 70, 40)]);
}

#[test]
fn chained_full_period_is_one_window() {
    let prices = vec![100.53, 100.38, 100.19, 100.21, 100.32];
    let res = chained_envelopes(&prices, 5, 100.21, mcginley_envelope);
    assert_eq!(
        res,
        vec![(97.22494655733786, 100.23190366735862, 103.23886077737939)]
    );
}

#[test]
fn chained_mcginley_no_previous() {
    let prices = vec![100.46, 100.53, 100.38, 100.19, 100.21, 100.32, 100.28];
    let res = chained_envelopes(&prices, 5, 0.0, mcginley_envelope);
    let expected = vec![
        (97.2037, 100.21, 103.21629999999999),
        (97.22494655733786, 100.23190366735862, 103.23886077737939),
        (97.23425935799065, 100.24150449277387, 103.24874962755709),
    ];
    assert_eq!(res, expected);
}

#[test]
fn chained_mcginley_resumes_from_previous() {
    let prices = vec![100.46, 100.53, 100.38, 100.19, 100.21, 100.32, 100.28];
    let all = chained_envelopes(&prices, 5, 0.0, mcginley_envelope);
    let resumed = chained_envelopes(&prices[1..], 5, all[0].1, mcginley_envelope);
    assert_eq!(resumed, all[1..].to_vec());
    let from_given = chained_envelopes(&prices[1..], 5, 100.21, mcginley_envelope);
    assert_eq!(
        from_given,
        vec![
            (97.22494655733786, 100.23190366735862, 103.23886077737939),
            (97.23425935799065, 100.24150449277387, 103.24874962755709),
        ]
    );
}

#[test]
fn latest_price_ignores_earlier_prices() {
    let a = vec![100.46, 100.53, 100.38, 100.19, 100.21];
    let b = vec![1.0, 2.0, 3.0, 4.0, 100.21];
    assert_eq!(latest_price(&a), latest_price(&b));
    assert_eq!(mcginley_envelope(&a, 100.0), mcginley_envelope(&b, 100.0));
}

#[test]
fn latest_price_is_last_and_count() {
    let prices = vec![100.46, 100.53, 100.38, 100.19, 100.21];
    assert_eq!(latest_price(&prices), (100.21, 5));
    assert_eq!(latest_price(&[9u8]), (9, 1));
}

#[test]
fn mcginley_single_window_no_previous() {
    let prices = vec![100.46, 100.53, 100.38, 100.19, 100.21];
    assert_eq!(
        mcginley_envelope(&prices, 0.0),
        (97.2037, 100.21, 103.21629999999999)
    );
}
