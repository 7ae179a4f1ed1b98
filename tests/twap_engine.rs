use margined_pricefeed::{query_get_twap_price, OracleError, PriceData, PriceHistory};

fn obs(round_id: u64, price: u128, timestamp: u64) -> PriceData {
    PriceData { round_id, price, timestamp }
}

fn three_rounds() -> Vec<PriceData> {
    vec![obs(1, 100, 0), obs(2, 200, 10), obs(3, 300, 20)]
}

#[test]
fn zero_interval_is_invalid() {
    assert_eq!(query_get_twap_price(&three_rounds(), 0, 20), Err(OracleError::InvalidInterval));
    assert_eq!(query_get_twap_price(&[], 0, 0), Err(OracleError::InvalidInterval));
}

#[test]
fn interval_before_time_zero_is_too_large() {
    assert_eq!(query_get_twap_price(&three_rounds(), 21, 20), Err(OracleError::IntervalTooLarge));
}

#[test]
fn empty_history_has_no_price_data() {
    assert_eq!(query_get_twap_price(&[], 5, 20), Err(OracleError::NoPriceData));
    assert_eq!(query_get_twap_price(&[obs(0, 1, 1)], 5, 20), Err(OracleError::NoPriceData));
}

#[test]
fn single_round_gives_its_price() {
    let prices = vec![obs(1, 42, 7)];
    assert_eq!(query_get_twap_price(&prices, 1, 7), Ok(42));
    assert_eq!(query_get_twap_price(&prices, 7, 100), Ok(42));
    assert_eq!(query_get_twap_price(&prices, 100, 100), Ok(42));
}

#[test]
fn stale_latest_round_gives_its_price() {
    // the latest round is older than the window's start
    assert_eq!(query_get_twap_price(&three_rounds(), 5, 100), Ok(300));
}

#[test]
fn window_straddling_second_round() {
    // base 5: round 3 weighs 0 s, round 2 weighs 10 s, round 1 weighs 5 s
    assert_eq!(query_get_twap_price(&three_rounds(), 15, 20), Ok(166));
}

#[test]
fn window_starting_between_second_and_third() {
    // now 25, base 15: 300 * 5 + 200 * 5 over 10
    assert_eq!(query_get_twap_price(&three_rounds(), 10, 25), Ok(250));
    // now equals the third round: the second round's price
    assert_eq!(query_get_twap_price(&three_rounds(), 8, 20), Ok(200));
}

#[test]
fn window_longer_than_history_averages_recorded_time() {
    // base 0 is never passed: 300 * 10 + 200 * 10 + 100 * 10 over 30
    let prices = vec![obs(1, 100, 10), obs(2, 200, 20), obs(3, 300, 30)];
    assert_eq!(query_get_twap_price(&prices, 40, 40), Ok(200));
}

#[test]
fn constant_price_over_short_history_stays_constant() {
    // 100 * 10 + 100 * 10 over the 20 recorded seconds
    let prices = vec![obs(1, 100, 10), obs(2, 100, 20)];
    assert_eq!(query_get_twap_price(&prices, 30, 30), Ok(100));
}

#[test]
fn zero_recorded_time_is_arithmetic_error() {
    let prices = vec![obs(1, 100, 30), obs(2, 200, 30)];
    assert_eq!(query_get_twap_price(&prices, 10, 30), Err(OracleError::ArithmeticError));
}

#[test]
fn first_round_out_of_place_averages_recorded_time() {
    // a round numbered 1 above index 0 ends the walk: 300 * 10 + 200 * 10 over 20
    let prices = vec![obs(7, 50, 0), obs(1, 200, 20), obs(2, 300, 30)];
    assert_eq!(query_get_twap_price(&prices, 40, 40), Ok(250));
}

#[test]
fn latest_round_in_the_future_is_arithmetic_error() {
    let prices = vec![obs(1, 100, 0), obs(2, 200, 50)];
    assert_eq!(query_get_twap_price(&prices, 10, 20), Err(OracleError::ArithmeticError));
}

#[test]
fn overflowing_weight_is_arithmetic_error() {
    let prices = vec![obs(1, 1, 0), obs(2, u128::MAX, 10)];
    assert_eq!(query_get_twap_price(&prices, 20, 20), Err(OracleError::ArithmeticError));
}

#[test]
fn twap_through_the_store() {
    let mut h = PriceHistory::new();
    let key = "ETH".to_string();
    h.append(&key, 100, 0).unwrap();
    h.append(&key, 200, 10).unwrap();
    h.append(&key, 300, 20).unwrap();
    assert_eq!(h.twap(&key, 15, 20), Ok(166));
    assert_eq!(h.twap(&key, 0, 20), Err(OracleError::InvalidInterval));
    assert_eq!(h.twap(&"BTC".to_string(), 15, 20), Err(OracleError::NoPriceData));
}
