use kersd::address::Address;
use kersd::codec::{decode_record, encode_record};
use kersd::engine::{ExchangeRates, TokenTrade, PoolSnapshot};
use kersd::pools::{get_example_pool, get_example_tokens};
use kersd::uint::Uint;

fn parse(s: &str) -> Option<Address> {
    Address::parse_hex(&s.as_bytes().to_vec())
}

fn from_dec(s: &str) -> Uint {
    Uint::from_decimal(&s.as_bytes().to_vec()).expect("valid decimal")
}

#[test]
fn hex_parsing_accepts_both_cases_and_rejects_bad_shapes() {
    let lower = parse("0xc02aaa39b223fe8d0a0e5c4f27ead9083c756cc2").expect("valid");
    let mixed = parse("0xC02AAA39b223fe8d0a0e5c4f27EAD9083C756Cc2").expect("valid");
    assert!(lower.eq_bytes(&mixed));
    assert!(parse("c02aaa39b223fe8d0a0e5c4f27ead9083c756cc2").is_none());
    assert!(parse("0xc02aaa39b223fe8d0a0e5c4f27ead9083c756cc").is_none());
    assert!(parse("0xc02aaa39b223fe8d0a0e5c4f27ead9083c756cg2").is_none());
    assert!(parse("").is_none());
}

#[test]
fn hex_spelling_round_trips_in_lowercase() {
    let a = parse("0xB8c77482e45F1F44dE1745F52C74426C631bDD52").expect("valid");
    let h = String::from_utf8(a.to_hex()).expect("ascii");
    assert_eq!(h, "0xb8c77482e45f1f44de1745f52c74426c631bdd52");
    let b = Address::parse_hex(&a.to_hex()).expect("own spelling parses");
    assert!(a.eq_bytes(&b));
}

#[test]
fn from_bytes_demands_twenty_bytes() {
    assert!(Address::from_bytes(vec![0u8; 20]).is_some());
    assert!(Address::from_bytes(vec![0u8; 19]).is_none());
    assert!(Address::from_bytes(vec![0u8; 21]).is_none());
}

#[test]
fn example_pool_and_tokens_are_available() {
    let p = get_example_pool().expect("constant address");
    assert_eq!(
        String::from_utf8(p.to_hex()).unwrap(),
        "0xa97642500517c728ce1339a466de0f10c19034cd"
    );
    let tokens = get_example_tokens();
    assert_eq!(tokens.len(), 5);
    let weth = tokens.get("WETH").expect("wrapped ether is known");
    assert_eq!(
        String::from_utf8(weth.to_hex()).unwrap(),
        "0xc02aaa39b223fe8d0a0e5c4f27ead9083c756cc2"
    );
    assert!(tokens.contains_key("USDT"));
    assert!(tokens.contains_key("USDC"));
    assert!(tokens.contains_key("BNB"));
    assert!(tokens.contains_key("DAI"));
}

fn sample_record() -> ExchangeRates {
    let ti = PoolSnapshot {
        token0: parse("0xc02aaa39b223fe8d0a0e5c4f27ead9083c756cc2").unwrap(),
        token1: parse("0xdac17f958d2ee523a2206206994597c13d831ec7").unwrap(),
        reserve0: from_dec("1000"),
        reserve1: from_dec("500"),
        vreserve0: from_dec("1000"),
        vreserve1: from_dec("500"),
        fee_in_precision: Uint::from_u64(0),
    };
    ExchangeRates::new(123456, parse("0xa97642500517c728ce1339a466de0f10c19034cd").unwrap(), &ti)
}

#[test]
fn record_encodes_to_canonical_json() {
    let r = sample_record();
    let s = String::from_utf8(encode_record(&r)).expect("ascii");
    assert_eq!(
        s,
        "{\"block_number\":123456,\
         \"pool\":\"0xa97642500517c728ce1339a466de0f10c19034cd\",\
         \"token0\":\"0xc02aaa39b223fe8d0a0e5c4f27ead9083c756cc2\",\
         \"token1\":\"0xdac17f958d2ee523a2206206994597c13d831ec7\",\
         \"sell0_buy1\":{\"sell_amount\":\"5\",\"buy_amount\":\"10\"},\
         \"sell1_buy0\":{\"sell_amount\":\"2\",\"buy_amount\":\"1\"}}"
    );
}

#[test]
fn record_round_trips_through_its_encoding() {
    let r = sample_record();
    let bytes = encode_record(&r);
    let back = decode_record(&bytes).expect("canonical form parses");
    assert_eq!(back.block_number, r.block_number);
    assert!(back.pool.eq_bytes(&r.pool));
    assert!(back.token0.eq_bytes(&r.token0));
    assert!(back.token1.eq_bytes(&r.token1));
    let (t, u) = (back.sell0_buy1.as_ref().unwrap(), r.sell0_buy1.as_ref().unwrap());
    assert!(t.sell_amount.eq_val(&u.sell_amount));
    assert!(t.buy_amount.eq_val(&u.buy_amount));
    let (t1, u1) = (back.sell1_buy0.as_ref().unwrap(), r.sell1_buy0.as_ref().unwrap());
    assert!(t1.sell_amount.eq_val(&u1.sell_amount));
    assert!(t1.buy_amount.eq_val(&u1.buy_amount));
}

#[test]
fn record_with_missing_trades_round_trips() {
    let pool = Address::from_bytes(vec![5u8; 20]).unwrap();
    let t0 = Address::from_bytes(vec![6u8; 20]).unwrap();
    let t1 = Address::from_bytes(vec![7u8; 20]).unwrap();
    let big = from_dec("340282366920938463463374607431768211456");
    let r = ExchangeRates {
        block_number: u64::MAX,
        pool,
        token0: t0,
        token1: t1,
        sell0_buy1: None,
        sell1_buy0: Some(TokenTrade::new(big.duplicate(), from_dec("99"))),
    };
    let bytes = encode_record(&r);
    let s = String::from_utf8(bytes.clone()).unwrap();
    assert!(s.contains("\"sell0_buy1\":null"));
    let back = decode_record(&bytes).expect("canonical form parses");
    assert_eq!(back.block_number, u64::MAX);
    assert!(back.sell0_buy1.is_none());
    let t = back.sell1_buy0.as_ref().unwrap();
    assert!(t.sell_amount.eq_val(&big));
    assert_eq!(String::from_utf8(t.buy_amount.to_decimal()).unwrap(), "99");
}

#[test]
fn decoder_rejects_noncanonical_input() {
    assert!(decode_record(&b"".to_vec()).is_none());
    assert!(decode_record(&b"{}".to_vec()).is_none());
    assert!(decode_record(&b"{\"block_number\":12".to_vec()).is_none());
    let r = sample_record();
    let mut bytes = encode_record(&r);
    bytes.push(b' ');
    assert!(decode_record(&bytes).is_none());
}
