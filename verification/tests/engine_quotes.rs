use kersd::address::Address;
use kersd::engine::{
    calc_sell_amount, get_best_trade, get_exchange_rate, quote_sell_for_buy, ExchangeRates,
    PoolSnapshot,
};
use kersd::uint::Uint;
use kersd::PRECISION;

fn from_dec(s: &str) -> Uint {
    Uint::from_decimal(&s.as_bytes().to_vec()).expect("valid decimal")
}

fn to_dec(u: &Uint) -> String {
    String::from_utf8(u.to_decimal()).expect("ascii digits")
}

fn addr(seed: u8) -> Address {
    Address::from_bytes(vec![seed; 20]).expect("20 bytes")
}

fn snapshot(vr0: &str, vr1: &str, fee: u64) -> PoolSnapshot {
    PoolSnapshot {
        token0: addr(1),
        token1: addr(2),
        reserve0: from_dec(vr0),
        reserve1: from_dec(vr1),
        vreserve0: from_dec(vr0),
        vreserve1: from_dec(vr1),
        fee_in_precision: Uint::from_u64(fee),
    }
}

#[test]
fn precision_is_ten_to_the_eighteen() {
    assert_eq!(PRECISION, 1_000_000_000_000_000_000);
}

#[test]
fn quote_matches_integer_pipeline_without_fee() {
    // floor(100 * 10 / (50 - 10)) = 25, fee 0 leaves it unchanged.
    let r = quote_sell_for_buy(
        &Uint::from_u64(100),
        &Uint::from_u64(50),
        &Uint::from_u64(0),
        &Uint::from_u64(10),
    );
    assert_eq!(to_dec(&r.expect("defined")), "25");
}

#[test]
fn quote_scales_by_fee_denominator() {
    // floor(7 * 3 / (9 - 3)) = 3, then floor(3e18 / 5e17) = 6 at a 50% fee.
    let r = quote_sell_for_buy(
        &Uint::from_u64(7),
        &Uint::from_u64(9),
        &Uint::from_u64(500_000_000_000_000_000),
        &Uint::from_u64(3),
    );
    assert_eq!(to_dec(&r.expect("defined")), "6");
}

#[test]
fn quote_concrete_reserve_scenario() {
    // vreserve0 = 1000e18, vreserve1 = 2000e18, fee 0.3%, buy 10e9:
    // floor(1000e18 * 10e9 / (2000e18 - 10e9)) = 5000000000, then
    // floor(5000000000 * 1e18 / 0.997e18) = 5015045135.
    let ti = snapshot(
        "1000000000000000000000",
        "2000000000000000000000",
        3_000_000_000_000_000,
    );
    let sell = get_exchange_rate(&ti, &Uint::from_u64(10_000_000_000)).expect("defined");
    assert_eq!(to_dec(&sell), "5015045135");
}

#[test]
fn quote_fails_when_buy_reaches_out_reserve() {
    // buy == vreserveOut must be a math error, not a crash or a zero.
    let vout = Uint::from_u64(50);
    let r = quote_sell_for_buy(&Uint::from_u64(100), &vout, &Uint::from_u64(0), &Uint::from_u64(50));
    assert!(r.is_err());
    let r2 =
        quote_sell_for_buy(&Uint::from_u64(100), &vout, &Uint::from_u64(0), &Uint::from_u64(51));
    assert!(r2.is_err());
}

#[test]
fn quote_fails_when_fee_reaches_precision() {
    let r = quote_sell_for_buy(
        &Uint::from_u64(100),
        &Uint::from_u64(50),
        &Uint::from_u64(PRECISION),
        &Uint::from_u64(10),
    );
    assert!(r.is_err());
    let r2 = quote_sell_for_buy(
        &Uint::from_u64(100),
        &Uint::from_u64(50),
        &from_dec("2000000000000000000"),
        &Uint::from_u64(10),
    );
    assert!(r2.is_err());
}

#[test]
fn calc_sell_amount_selects_direction() {
    let ti = snapshot("1000", "500", 0);
    // Selling token0 buys out of the token0-side virtual reserve.
    let s0 = calc_sell_amount(&ti, &Uint::from_u64(10), true).expect("defined");
    assert_eq!(to_dec(&s0), "5"); // floor(500 * 10 / (1000 - 10))
    let s1 = calc_sell_amount(&ti, &Uint::from_u64(10), false).expect("defined");
    assert_eq!(to_dec(&s1), "20"); // floor(1000 * 10 / (500 - 10))
}

#[test]
fn best_trade_keeps_maximal_positive_rate() {
    let ti = snapshot("1000", "500", 0);
    let best = get_best_trade(&ti, true).expect("one candidate succeeds");
    // buy 1 quotes sell 0 (rate 0, dropped); buy 10 sells 5 (rate 2);
    // buy 100 sells 55 (rate below 2); larger buys fail.
    assert_eq!(to_dec(&best.buy_amount), "10");
    assert_eq!(to_dec(&best.sell_amount), "5");
}

#[test]
fn best_trade_keeps_first_of_equal_rates() {
    let ti = snapshot("1000000", "1000", 0);
    let best = get_best_trade(&ti, true).expect("candidates succeed");
    // buy 1000 sells 1 and buy 10000 sells 10: equal rates, first kept.
    assert_eq!(to_dec(&best.buy_amount), "1000");
    assert_eq!(to_dec(&best.sell_amount), "1");
}

#[test]
fn best_trade_is_none_when_every_candidate_fails() {
    let ti = snapshot("1", "1", 0);
    assert!(get_best_trade(&ti, true).is_none());
    assert!(get_best_trade(&ti, false).is_none());
}

#[test]
fn record_carries_both_directions() {
    let ti = snapshot("1000", "500", 0);
    let r = ExchangeRates::new(77, addr(9), &ti);
    assert_eq!(r.block_number, 77);
    assert!(r.pool.eq_bytes(&addr(9)));
    assert!(r.token0.eq_bytes(&ti.token0));
    assert!(r.token1.eq_bytes(&ti.token1));
    let t0 = r.sell0_buy1.as_ref().expect("direction zero succeeds");
    assert_eq!(to_dec(&t0.buy_amount), "10");
    // Selling token1: buy 1 sells 2 (rate one half), and buy 10 selling 20
    // only ties that rate, so the first candidate is kept.
    let t1 = r.sell1_buy0.as_ref().expect("direction one succeeds");
    assert_eq!(to_dec(&t1.buy_amount), "1");
    assert_eq!(to_dec(&t1.sell_amount), "2");
}
