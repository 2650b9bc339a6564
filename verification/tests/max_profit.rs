use profit_optimizer::max_profit;

#[test]
fn test_lambda_function() {
    let k: usize = 2;
    let prices = vec![3, 2, 6, 5, 0, 3];
    let result = max_profit(k, &prices);
    assert_eq!(result, 7); // (6-2) + (3-0) = 7
}

#[test]
fn two_transactions_interleaved() {
    assert_eq!(max_profit(2, &[3, 2, 6, 5, 0, 3]), 7);
}

#[test]
fn ascending_prices_single_trade() {
    assert_eq!(max_profit(2, &[1, 2, 3, 4, 5]), 4);
}

#[test]
fn descending_prices_no_trade() {
    assert_eq!(max_profit(1, &[7, 6, 4, 3, 1]), 0);
}

#[test]
fn empty_prices() {
    assert_eq!(max_profit(1, &[]), 0);
}

#[test]
fn zero_transactions() {
    assert_eq!(max_profit(0, &[1, 5, 2, 9]), 0);
}

#[test]
fn zero_transactions_empty() {
    assert_eq!(max_profit(0, &[]), 0);
}

#[test]
fn single_day_no_trade() {
    assert_eq!(max_profit(5, &[42]), 0);
    assert_eq!(max_profit(5, &[-42]), 0);
}

#[test]
fn monotone_in_limit() {
    let prices = [3, 2, 6, 5, 0, 3];
    assert_eq!(max_profit(1, &prices), 4);
    assert_eq!(max_profit(2, &prices), 7);
    let mut last = 0;
    for k in 0..8 {
        let r = max_profit(k, &prices);
        assert!(r >= last);
        last = r;
    }
}

#[test]
fn saturates_at_half_the_days() {
    let prices = [3, 2, 6, 5, 0, 3];
    let saturated = max_profit(3, &prices);
    assert_eq!(saturated, 7);
    assert_eq!(max_profit(4, &prices), saturated);
    assert_eq!(max_profit(100, &prices), saturated);
    assert_eq!(max_profit(usize::MAX, &prices), saturated);
}

#[test]
fn negative_prices() {
    // paying a negative price is a real buy; profit still needs a later sell
    assert_eq!(max_profit(1, &[-3, 5]), 8);
    assert_eq!(max_profit(1, &[5, -3]), 0);
    assert_eq!(max_profit(1, &[-1, -5, -2]), 3);
    assert_eq!(max_profit(2, &[-1, -5, -2]), 3);
}

#[test]
fn extreme_prices_fit_i64() {
    assert_eq!(max_profit(1, &[i32::MIN, i32::MAX]), 4294967295);
    assert_eq!(
        max_profit(2, &[i32::MIN, i32::MAX, i32::MIN, i32::MAX]),
        2 * 4294967295
    );
}

#[test]
fn limit_beyond_days() {
    assert_eq!(max_profit(100, &[1, 2]), 1);
    assert_eq!(max_profit(2, &[1, 10, 1, 10]), 18);
    assert_eq!(max_profit(1, &[1, 10, 1, 10]), 9);
}
