use margined_pricefeed::{
    query_get_previous_price, query_get_price, OracleError, PriceData, PriceHistory,
};

fn obs(round_id: u64, price: u128, timestamp: u64) -> PriceData {
    PriceData { round_id, price, timestamp }
}

#[test]
fn appends_number_rounds_from_one() {
    let mut h = PriceHistory::new();
    let eth = "ETH".to_string();
    let btc = "BTC".to_string();
    assert_eq!(h.append(&eth, 100, 0), Ok(1));
    assert_eq!(h.append(&eth, 200, 10), Ok(2));
    assert_eq!(h.append(&btc, 5, 3), Ok(1));
    assert_eq!(h.append(&eth, 300, 20), Ok(3));
    assert_eq!(h.append(&btc, 6, 4), Ok(2));
    assert_eq!(h.prices(&eth), &[obs(1, 100, 0), obs(2, 200, 10), obs(3, 300, 20)][..]);
    assert_eq!(h.prices(&btc), &[obs(1, 5, 3), obs(2, 6, 4)][..]);
}

#[test]
fn unknown_key_has_no_history() {
    let h = PriceHistory::new();
    let key = "ATOM".to_string();
    assert!(h.prices(&key).is_empty());
    assert_eq!(h.latest(&key), None);
    assert_eq!(h.nth_from_latest(&key, 0), Err(OracleError::InsufficientHistory));
}

#[test]
fn latest_is_last_appended() {
    let mut h = PriceHistory::new();
    let key = "ETH".to_string();
    h.append(&key, 7, 1).unwrap();
    h.append(&key, 9, 1).unwrap();
    assert_eq!(h.latest(&key), Some(obs(2, 9, 1)));
}

#[test]
fn zero_back_equals_latest() {
    let mut h = PriceHistory::new();
    let key = "ETH".to_string();
    h.append(&key, 11, 5).unwrap();
    h.append(&key, 12, 6).unwrap();
    assert_eq!(h.nth_from_latest(&key, 0), Ok(h.latest(&key).unwrap()));
}

#[test]
fn nth_from_latest_walks_back() {
    let mut h = PriceHistory::new();
    let key = "ETH".to_string();
    h.append(&key, 100, 0).unwrap();
    h.append(&key, 200, 10).unwrap();
    h.append(&key, 300, 20).unwrap();
    assert_eq!(h.nth_from_latest(&key, 1), Ok(obs(2, 200, 10)));
    assert_eq!(h.nth_from_latest(&key, 2), Ok(obs(1, 100, 0)));
}

#[test]
fn previous_price_beyond_history_fails() {
    let prices = vec![obs(1, 100, 0), obs(2, 200, 10)];
    assert_eq!(query_get_previous_price(&prices, 2), Err(OracleError::InsufficientHistory));
    assert_eq!(query_get_previous_price(&prices, 3), Err(OracleError::InsufficientHistory));
    assert_eq!(
        query_get_previous_price(&prices, u64::MAX),
        Err(OracleError::InsufficientHistory)
    );
    assert_eq!(query_get_previous_price(&[], 0), Err(OracleError::InsufficientHistory));
}

#[test]
fn get_price_of_empty_history_is_not_found() {
    assert_eq!(query_get_price(&[]), Err(OracleError::NotFound));
    let prices = vec![obs(1, 100, 0), obs(2, 200, 10)];
    assert_eq!(query_get_price(&prices), Ok(obs(2, 200, 10)));
}
