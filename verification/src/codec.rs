//! The canonical byte encoding of an exchange-rate record, and its parser.
//!
//! A record is written as one JSON object with a fixed key order; every
//! big integer is spelled as a decimal string so that nothing is lost to a
//! floating representation.  The parser reads exactly this canonical form
//! back, and reading what was written yields the same values.

use crate::address::{hex_dec, hex_enc, Address};
use crate::engine::{ExchangeRates, TokenTrade};
use crate::uint::{all_digits, dec_of, dec_val, is_digit, lemma_dec_of_val, Uint};
use vstd::prelude::*;

verus! {

/// The bytes of `{"block_number":`.
pub open spec fn lit_head() -> Seq<u8> {
    seq![123u8, 34u8, 98u8, 108u8, 111u8, 99u8, 107u8, 95u8, 110u8, 117u8, 109u8, 98u8, 101u8, 114u8, 34u8, 58u8]
}

/// The bytes of `"pool":"`.
pub open spec fn lit_pool() -> Seq<u8> {
    seq![34u8, 112u8, 111u8, 111u8, 108u8, 34u8, 58u8, 34u8]
}

/// The bytes of `","token0":"`.
pub open spec fn lit_token0() -> Seq<u8> {
    seq![34u8, 44u8, 34u8, 116u8, 111u8, 107u8, 101u8, 110u8, 48u8, 34u8, 58u8, 34u8]
}

/// The bytes of `","token1":"`.
pub open spec fn lit_token1() -> Seq<u8> {
    seq![34u8, 44u8, 34u8, 116u8, 111u8, 107u8, 101u8, 110u8, 49u8, 34u8, 58u8, 34u8]
}

/// The bytes of `","sell0_buy1":`.
pub open spec fn lit_sell0() -> Seq<u8> {
    seq![34u8, 44u8, 34u8, 115u8, 101u8, 108u8, 108u8, 48u8, 95u8, 98u8, 117u8, 121u8, 49u8, 34u8, 58u8]
}

/// The bytes of `,"sell1_buy0":`.
pub open spec fn lit_sell1() -> Seq<u8> {
    seq![44u8, 34u8, 115u8, 101u8, 108u8, 108u8, 49u8, 95u8, 98u8, 117u8, 121u8, 48u8, 34u8, 58u8]
}

/// The bytes of `null`.
pub open spec fn lit_null() -> Seq<u8> {
    seq![110u8, 117u8, 108u8, 108u8]
}

/// The bytes of `{"sell_amount":"`.
pub open spec fn lit_qsell() -> Seq<u8> {
    seq![123u8, 34u8, 115u8, 101u8, 108u8, 108u8, 95u8, 97u8, 109u8, 111u8, 117u8, 110u8, 116u8, 34u8, 58u8, 34u8]
}

/// The bytes of `,"buy_amount":"`.
pub open spec fn lit_qbuy() -> Seq<u8> {
    seq![44u8, 34u8, 98u8, 117u8, 121u8, 95u8, 97u8, 109u8, 111u8, 117u8, 110u8, 116u8, 34u8, 58u8, 34u8]
}

/// The values a record carries: the block height, the three addresses as
/// raw bytes, and each direction's optional (sell, buy) amounts.
pub struct RecordModel {
    pub block: nat,
    pub pool: Seq<u8>,
    pub token0: Seq<u8>,
    pub token1: Seq<u8>,
    pub sell0_buy1: Option<(nat, nat)>,
    pub sell1_buy0: Option<(nat, nat)>,
}

/// The (sell, buy) amounts of an optional trade.
pub open spec fn trade_model(t: Option<TokenTrade>) -> Option<(nat, nat)> {
    match t {
        None => None,
        Some(tt) => Some((tt.sell_amount.val(), tt.buy_amount.val())),
    }
}

/// The values an exchange-rate record carries.
pub open spec fn record_model(r: ExchangeRates) -> RecordModel {
    RecordModel {
        block: r.block_number as nat,
        pool: r.pool@,
        token0: r.token0@,
        token1: r.token1@,
        sell0_buy1: trade_model(r.sell0_buy1),
        sell1_buy0: trade_model(r.sell1_buy0),
    }
}

/// The encoding of an optional trade: null, or an object with both amounts
/// as decimal strings.
pub open spec fn enc_quote(q: Option<(nat, nat)>) -> Seq<u8> {
    match q {
        None => lit_null(),
        Some((sv, bv)) => lit_qsell() + dec_of(sv) + seq![34u8] + lit_qbuy() + dec_of(bv)
            + seq![34u8] + seq![125u8],
    }
}

/// The encoding of a whole record.
pub open spec fn enc_record(m: RecordModel) -> Seq<u8> {
    lit_head() + dec_of(m.block) + seq![44u8] + lit_pool() + hex_enc(m.pool) + lit_token0()
        + hex_enc(m.token0) + lit_token1() + hex_enc(m.token1) + lit_sell0() + enc_quote(
        m.sell0_buy1,
    ) + lit_sell1() + enc_quote(m.sell1_buy0) + seq![125u8]
}

/// What remains after a required literal, when the input starts with it.
pub open spec fn match_lit(s: Seq<u8>, l: Seq<u8>) -> Option<Seq<u8>> {
    if s.len() >= l.len() && s.take(l.len() as int) == l {
        Some(s.skip(l.len() as int))
    } else {
        None
    }
}

/// The index of the first occurrence of a byte.
pub open spec fn find(s: Seq<u8>, c: u8) -> Option<int>
    decreases s.len(),
{
    if s.len() == 0 {
        None
    } else if s[0] == c {
        Some(0)
    } else {
        match find(s.skip(1), c) {
            Some(i) => Some(i + 1),
            None => None,
        }
    }
}

/// find returns the first occurrence: a hit with no earlier hit, or
/// nothing when the byte does not occur.
proof fn lemma_find_spec(s: Seq<u8>, c: u8)
    ensures
        match find(s, c) {
            Some(i) => 0 <= i < s.len() && s[i] == c && (forall|k: int| 0 <= k < i ==> s[k] != c),
            None => forall|k: int| 0 <= k < s.len() ==> s[k] != c,
        },
    decreases s.len(),
{
    if s.len() == 0 {
    } else if s[0] == c {
    } else {
        lemma_find_spec(s.skip(1), c);
        match find(s.skip(1), c) {
            Some(i) => {
                assert(s.skip(1)[i] == s[i + 1]);
                assert forall|k: int| 0 <= k < i + 1 implies s[k] != c by {
                    if k > 0 {
                        assert(s.skip(1)[k - 1] == s[k]);
                    }
                }
            },
            None => {
                assert forall|k: int| 0 <= k < s.len() implies s[k] != c by {
                    if k > 0 {
                        assert(s.skip(1)[k - 1] == s[k]);
                    }
                }
            },
        }
    }
}

/// A hit with no earlier hit pins down what find returns.
proof fn lemma_find_unique(s: Seq<u8>, c: u8, i: int)
    requires
        0 <= i < s.len(),
        s[i] == c,
        forall|k: int| 0 <= k < i ==> s[k] != c,
    ensures
        find(s, c) == Some(i),
{
    lemma_find_spec(s, c);
    match find(s, c) {
        Some(j) => {
            if j < i {
            } else if j > i {
            }
        },
        None => {
        },
    }
}

/// Concatenation is associative.
proof fn lemma_assoc(a: Seq<u8>, b: Seq<u8>, c: Seq<u8>)
    ensures
        (a + b) + c == a + (b + c),
{
    assert((a + b) + c =~= a + (b + c));
}

/// A literal followed by anything matches, leaving that remainder.
proof fn lemma_match_lit_concat(l: Seq<u8>, r: Seq<u8>)
    ensures
        match_lit(l + r, l) == Some(r),
{
    assert((l + r).take(l.len() as int) =~= l);
    assert((l + r).skip(l.len() as int) =~= r);
}

/// What an optional trade's encoding parses back to, with what remains.
pub open spec fn parse_quote(s: Seq<u8>) -> Option<(Option<(nat, nat)>, Seq<u8>)> {
    match match_lit(s, lit_null()) {
        Some(rest) => Some((None, rest)),
        None => match match_lit(s, lit_qsell()) {
            None => None,
            Some(s1) => match find(s1, 34) {
                None => None,
                Some(i) => {
                    let d1 = s1.take(i);
                    let s2 = s1.skip(i + 1);
                    if d1.len() > 0 && all_digits(d1) {
                        match match_lit(s2, lit_qbuy()) {
                            None => None,
                            Some(s3) => match find(s3, 34) {
                                None => None,
                                Some(j) => {
                                    let d2 = s3.take(j);
                                    let s4 = s3.skip(j + 1);
                                    if d2.len() > 0 && all_digits(d2) {
                                        match match_lit(s4, seq![125u8]) {
                                            None => None,
                                            Some(s5) => Some(
                                                (Some((dec_val(d1), dec_val(d2))), s5),
                                            ),
                                        }
                                    } else {
                                        None
                                    }
                                },
                            },
                        }
                    } else {
                        None
                    }
                },
            },
        },
    }
}

/// What a record's encoding parses back to: the canonical form read whole.
pub open spec fn parse_record(s: Seq<u8>) -> Option<RecordModel> {
    match match_lit(s, lit_head()) {
        None => None,
        Some(s1) => match find(s1, 44) {
            None => None,
            Some(i) => {
                let d = s1.take(i);
                let s2 = s1.skip(i + 1);
                if d.len() > 0 && all_digits(d) && dec_val(d) < 0x10000000000000000 {
                    parse_record_addrs(s2, dec_val(d))
                } else {
                    None
                }
            },
        },
    }
}

/// The middle of the record: the three addresses.
pub open spec fn parse_record_addrs(s: Seq<u8>, block: nat) -> Option<RecordModel> {
    match match_lit(s, lit_pool()) {
        None => None,
        Some(s3) => if s3.len() >= 42 {
            match hex_dec(s3.take(42), 20) {
                None => None,
                Some(pool) => {
                    let s4 = s3.skip(42);
                    match match_lit(s4, lit_token0()) {
                        None => None,
                        Some(s5) => if s5.len() >= 42 {
                            match hex_dec(s5.take(42), 20) {
                                None => None,
                                Some(token0) => {
                                    let s6 = s5.skip(42);
                                    match match_lit(s6, lit_token1()) {
                                        None => None,
                                        Some(s7) => if s7.len() >= 42 {
                                            match hex_dec(s7.take(42), 20) {
                                                None => None,
                                                Some(token1) => {
                                                    let s8 = s7.skip(42);
                                                    parse_record_tail(
                                                        s8,
                                                        block,
                                                        pool,
                                                        token0,
                                                        token1,
                                                    )
                                                },
                                            }
                                        } else {
                                            None
                                        },
                                    }
                                },
                            }
                        } else {
                            None
                        },
                    }
                },
            }
        } else {
            None
        },
    }
}

/// Reading an optional trade's encoding back yields the same amounts and
/// leaves exactly what followed it.
#[verifier::rlimit(60)]
pub proof fn lemma_quote_round_trip(q: Option<(nat, nat)>, rest: Seq<u8>)
    ensures
        parse_quote(enc_quote(q) + rest) == Some((q, rest)),
{
    match q {
        None => {
            lemma_match_lit_concat(lit_null(), rest);
        },
        Some((sv, bv)) => {
            let d1 = dec_of(sv);
            let d2 = dec_of(bv);
            lemma_dec_of_val(sv);
            lemma_dec_of_val(bv);
            let s = enc_quote(q) + rest;
            let t6 = seq![125u8] + rest;
            let t5 = seq![34u8] + t6;
            let t4 = d2 + t5;
            let t3 = lit_qbuy() + t4;
            let t2 = seq![34u8] + t3;
            let t1 = d1 + t2;
            let r1 = lit_qsell() + d1;
            let r2 = r1 + seq![34u8];
            let r3 = r2 + lit_qbuy();
            let r4 = r3 + d2;
            let r5 = r4 + seq![34u8];
            assert(s == (r5 + seq![125u8]) + rest);
            lemma_assoc(r5, seq![125u8], rest);
            lemma_assoc(r4, seq![34u8], t6);
            lemma_assoc(r3, d2, t5);
            lemma_assoc(r2, lit_qbuy(), t4);
            lemma_assoc(r1, seq![34u8], t3);
            lemma_assoc(lit_qsell(), d1, t2);
            assert(s == lit_qsell() + t1);
            assert(match_lit(s, lit_null()) is None) by {
                if s.len() >= lit_null().len() && s.take(lit_null().len() as int) == lit_null() {
                    assert(s.take(lit_null().len() as int)[0] == s[0]);
                    assert(s[0] == lit_qsell()[0]);
                }
            }
            lemma_match_lit_concat(lit_qsell(), t1);
            assert(t1[d1.len() as int] == 34) by {
                assert(t1[d1.len() as int] == t2[0]);
            }
            assert forall|k: int| 0 <= k < d1.len() implies t1[k] != 34 by {
                assert(t1[k] == d1[k]);
                assert(is_digit(d1[k]));
            }
            lemma_find_unique(t1, 34, d1.len() as int);
            assert(t1.take(d1.len() as int) =~= d1);
            assert(t1.skip(d1.len() as int + 1) =~= t3);
            lemma_match_lit_concat(lit_qbuy(), t4);
            assert(t4[d2.len() as int] == 34) by {
                assert(t4[d2.len() as int] == t5[0]);
            }
            assert forall|k: int| 0 <= k < d2.len() implies t4[k] != 34 by {
                assert(t4[k] == d2[k]);
                assert(is_digit(d2[k]));
            }
            lemma_find_unique(t4, 34, d2.len() as int);
            assert(t4.take(d2.len() as int) =~= d2);
            assert(t4.skip(d2.len() as int + 1) =~= t6);
            lemma_match_lit_concat(seq![125u8], rest);
            assert(t6 =~= seq![125u8] + rest);
        },
    }
}

/// The tail of the record: both trades and the closing brace.
pub open spec fn parse_record_tail(
    s: Seq<u8>,
    block: nat,
    pool: Seq<u8>,
    token0: Seq<u8>,
    token1: Seq<u8>,
) -> Option<RecordModel> {
    match match_lit(s, lit_sell0()) {
        None => None,
        Some(s9) => match parse_quote(s9) {
            None => None,
            Some((q0, s10)) => match match_lit(s10, lit_sell1()) {
                None => None,
                Some(s11) => match parse_quote(s11) {
                    None => None,
                    Some((q1, s12)) => match match_lit(s12, seq![125u8]) {
                        None => None,
                        Some(s13) => if s13.len() == 0 {
                            Some(
                                RecordModel {
                                    block,
                                    pool,
                                    token0,
                                    token1,
                                    sell0_buy1: q0,
                                    sell1_buy0: q1,
                                },
                            )
                        } else {
                            None
                        },
                    },
                },
            },
        },
    }
}

/// Reading back the encoded tail of a record yields both trades and closes
/// the object.
proof fn lemma_tail_round_trip(
    block: nat,
    pool: Seq<u8>,
    token0: Seq<u8>,
    token1: Seq<u8>,
    q0: Option<(nat, nat)>,
    q1: Option<(nat, nat)>,
)
    ensures
        parse_record_tail(
            lit_sell0() + (enc_quote(q0) + (lit_sell1() + (enc_quote(q1) + seq![125u8]))),
            block,
            pool,
            token0,
            token1,
        ) == Some(
            RecordModel { block, pool, token0, token1, sell0_buy1: q0, sell1_buy0: q1 },
        ),
{
    let u13 = seq![125u8];
    let u12 = enc_quote(q1) + u13;
    let u11 = lit_sell1() + u12;
    let u10 = enc_quote(q0) + u11;
    lemma_match_lit_concat(lit_sell0(), u10);
    lemma_quote_round_trip(q0, u11);
    lemma_match_lit_concat(lit_sell1(), u12);
    lemma_quote_round_trip(q1, u13);
    lemma_match_lit_concat(seq![125u8], Seq::<u8>::empty());
    assert(u13 =~= seq![125u8] + Seq::<u8>::empty());
}

/// Reading back the middle of a record yields its addresses and trades.
proof fn lemma_addrs_round_trip(m: RecordModel)
    requires
        m.pool.len() == 20,
        m.token0.len() == 20,
        m.token1.len() == 20,
    ensures
        parse_record_addrs(
            lit_pool() + (hex_enc(m.pool) + (lit_token0() + (hex_enc(m.token0) + (lit_token1() + (
            hex_enc(m.token1) + (lit_sell0() + (enc_quote(m.sell0_buy1) + (lit_sell1() + (enc_quote(
                m.sell1_buy0,
            ) + seq![125u8]))))))))),
            m.block,
        ) == Some(m),
{
    crate::address::lemma_hex_round_trip(m.pool);
    crate::address::lemma_hex_round_trip(m.token0);
    crate::address::lemma_hex_round_trip(m.token1);
    let u13 = seq![125u8];
    let u12 = enc_quote(m.sell1_buy0) + u13;
    let u11 = lit_sell1() + u12;
    let u10 = enc_quote(m.sell0_buy1) + u11;
    let u9 = lit_sell0() + u10;
    let u8 = hex_enc(m.token1) + u9;
    let u7 = lit_token1() + u8;
    let u6 = hex_enc(m.token0) + u7;
    let u5 = lit_token0() + u6;
    let u4 = hex_enc(m.pool) + u5;
    lemma_match_lit_concat(lit_pool(), u4);
    assert(hex_enc(m.pool).len() == 42);
    assert(u4.take(42) =~= hex_enc(m.pool));
    assert(u4.skip(42) =~= u5);
    lemma_match_lit_concat(lit_token0(), u6);
    assert(hex_enc(m.token0).len() == 42);
    assert(u6.take(42) =~= hex_enc(m.token0));
    assert(u6.skip(42) =~= u7);
    lemma_match_lit_concat(lit_token1(), u8);
    assert(hex_enc(m.token1).len() == 42);
    assert(u8.take(42) =~= hex_enc(m.token1));
    assert(u8.skip(42) =~= u9);
    lemma_tail_round_trip(m.block, m.pool, m.token0, m.token1, m.sell0_buy1, m.sell1_buy0);
}

/// Round trip: writing a record and reading it back yields the very same
/// values — block height, addresses, and every big-integer amount — for
/// every record whose addresses hold 20 bytes and whose height fits the
/// block counter.
#[verifier::rlimit(100)]
pub proof fn lemma_record_round_trip(m: RecordModel)
    requires
        m.pool.len() == 20,
        m.token0.len() == 20,
        m.token1.len() == 20,
        m.block < 0x10000000000000000,
    ensures
        parse_record(enc_record(m)) == Some(m),
{
    let d = dec_of(m.block);
    lemma_dec_of_val(m.block);
    let e = enc_record(m);
    let p1 = lit_head() + d;
    let p2 = p1 + seq![44u8];
    let p3 = p2 + lit_pool();
    let p4 = p3 + hex_enc(m.pool);
    let p5 = p4 + lit_token0();
    let p6 = p5 + hex_enc(m.token0);
    let p7 = p6 + lit_token1();
    let p8 = p7 + hex_enc(m.token1);
    let p9 = p8 + lit_sell0();
    let p10 = p9 + enc_quote(m.sell0_buy1);
    let p11 = p10 + lit_sell1();
    let p12 = p11 + enc_quote(m.sell1_buy0);
    assert(e == p12 + seq![125u8]);
    let u13 = seq![125u8];
    let u12 = enc_quote(m.sell1_buy0) + u13;
    let u11 = lit_sell1() + u12;
    let u10 = enc_quote(m.sell0_buy1) + u11;
    let u9 = lit_sell0() + u10;
    let u8 = hex_enc(m.token1) + u9;
    let u7 = lit_token1() + u8;
    let u6 = hex_enc(m.token0) + u7;
    let u5 = lit_token0() + u6;
    let u4 = hex_enc(m.pool) + u5;
    let u3 = lit_pool() + u4;
    let u2 = seq![44u8] + u3;
    let u1 = d + u2;
    lemma_assoc(p11, enc_quote(m.sell1_buy0), u13);
    assert(e == p11 + u12);
    lemma_assoc(p10, lit_sell1(), u12);
    assert(e == p10 + u11);
    lemma_assoc(p9, enc_quote(m.sell0_buy1), u11);
    assert(e == p9 + u10);
    lemma_assoc(p8, lit_sell0(), u10);
    assert(e == p8 + u9);
    lemma_assoc(p7, hex_enc(m.token1), u9);
    assert(e == p7 + u8);
    lemma_assoc(p6, lit_token1(), u8);
    assert(e == p6 + u7);
    lemma_assoc(p5, hex_enc(m.token0), u7);
    assert(e == p5 + u6);
    lemma_assoc(p4, lit_token0(), u6);
    assert(e == p4 + u5);
    lemma_assoc(p3, hex_enc(m.pool), u5);
    assert(e == p3 + u4);
    lemma_assoc(p2, lit_pool(), u4);
    assert(e == p2 + u3);
    lemma_assoc(p1, seq![44u8], u3);
    assert(e == p1 + u2);
    lemma_assoc(lit_head(), d, u2);
    assert(e == lit_head() + u1);
    lemma_match_lit_concat(lit_head(), u1);
    // The block digits run to the first comma.
    assert(u1[d.len() as int] == 44) by {
        assert(u1[d.len() as int] == u2[0]);
    }
    assert forall|k: int| 0 <= k < d.len() implies u1[k] != 44 by {
        assert(u1[k] == d[k]);
        assert(is_digit(d[k]));
    }
    lemma_find_unique(u1, 44, d.len() as int);
    assert(u1.take(d.len() as int) =~= d);
    assert(u1.skip(d.len() as int + 1) =~= u3);
    lemma_addrs_round_trip(m);
    assert(parse_record(e) == Some(m));
}

fn lit_head_vec() -> (v: Vec<u8>)
    ensures
        v@ == lit_head(),
{
    let mut v: Vec<u8> = Vec::new();
    v.push(123);
    v.push(34);
    v.push(98);
    v.push(108);
    v.push(111);
    v.push(99);
    v.push(107);
    v.push(95);
    v.push(110);
    v.push(117);
    v.push(109);
    v.push(98);
    v.push(101);
    v.push(114);
    v.push(34);
    v.push(58);
    proof {
        assert(v@ =~= lit_head());
    }
    v
}

fn lit_pool_vec() -> (v: Vec<u8>)
    ensures
        v@ == lit_pool(),
{
    let mut v: Vec<u8> = Vec::new();
    v.push(34);
    v.push(112);
    v.push(111);
    v.push(111);
    v.push(108);
    v.push(34);
    v.push(58);
    v.push(34);
    proof {
        assert(v@ =~= lit_pool());
    }
    v
}

fn lit_token0_vec() -> (v: Vec<u8>)
    ensures
        v@ == lit_token0(),
{
    let mut v: Vec<u8> = Vec::new();
    v.push(34);
    v.push(44);
    v.push(34);
    v.push(116);
    v.push(111);
    v.push(107);
    v.push(101);
    v.push(110);
    v.push(48);
    v.push(34);
    v.push(58);
    v.push(34);
    proof {
        assert(v@ =~= lit_token0());
    }
    v
}

fn lit_token1_vec() -> (v: Vec<u8>)
    ensures
        v@ == lit_token1(),
{
    let mut v: Vec<u8> = Vec::new();
    v.push(34);
    v.push(44);
    v.push(34);
    v.push(116);
    v.push(111);
    v.push(107);
    v.push(101);
    v.push(110);
    v.push(49);
    v.push(34);
    v.push(58);
    v.push(34);
    proof {
        assert(v@ =~= lit_token1());
    }
    v
}

fn lit_sell0_vec() -> (v: Vec<u8>)
    ensures
        v@ == lit_sell0(),
{
    let mut v: Vec<u8> = Vec::new();
    v.push(34);
    v.push(44);
    v.push(34);
    v.push(115);
    v.push(101);
    v.push(108);
    v.push(108);
    v.push(48);
    v.push(95);
    v.push(98);
    v.push(117);
    v.push(121);
    v.push(49);
    v.push(34);
    v.push(58);
    proof {
        assert(v@ =~= lit_sell0());
    }
    v
}

fn lit_sell1_vec() -> (v: Vec<u8>)
    ensures
        v@ == lit_sell1(),
{
    let mut v: Vec<u8> = Vec::new();
    v.push(44);
    v.push(34);
    v.push(115);
    v.push(101);
    v.push(108);
    v.push(108);
    v.push(49);
    v.push(95);
    v.push(98);
    v.push(117);
    v.push(121);
    v.push(48);
    v.push(34);
    v.push(58);
    proof {
        assert(v@ =~= lit_sell1());
    }
    v
}

fn lit_null_vec() -> (v: Vec<u8>)
    ensures
        v@ == lit_null(),
{
    let mut v: Vec<u8> = Vec::new();
    v.push(110);
    v.push(117);
    v.push(108);
    v.push(108);
    proof {
        assert(v@ =~= lit_null());
    }
    v
}

fn lit_qsell_vec() -> (v: Vec<u8>)
    ensures
        v@ == lit_qsell(),
{
    let mut v: Vec<u8> = Vec::new();
    v.push(123);
    v.push(34);
    v.push(115);
    v.push(101);
    v.push(108);
    v.push(108);
    v.push(95);
    v.push(97);
    v.push(109);
    v.push(111);
    v.push(117);
    v.push(110);
    v.push(116);
    v.push(34);
    v.push(58);
    v.push(34);
    proof {
        assert(v@ =~= lit_qsell());
    }
    v
}

fn lit_qbuy_vec() -> (v: Vec<u8>)
    ensures
        v@ == lit_qbuy(),
{
    let mut v: Vec<u8> = Vec::new();
    v.push(44);
    v.push(34);
    v.push(98);
    v.push(117);
    v.push(121);
    v.push(95);
    v.push(97);
    v.push(109);
    v.push(111);
    v.push(117);
    v.push(110);
    v.push(116);
    v.push(34);
    v.push(58);
    v.push(34);
    proof {
        assert(v@ =~= lit_qbuy());
    }
    v
}

fn lit_close_vec() -> (v: Vec<u8>)
    ensures
        v@ == seq![125u8],
{
    let mut v: Vec<u8> = Vec::new();
    v.push(125);
    proof {
        assert(v@ =~= seq![125u8]);
    }
    v
}

/// Appends all bytes of the second vector to the first.
fn append_bytes(v: &mut Vec<u8>, l: &Vec<u8>)
    ensures
        final(v)@ == old(v)@ + l@,
{
    let mut i: usize = 0;
    proof {
        assert(v@ =~= v@ + l@.take(0));
    }
    while i < l.len()
        invariant
            i <= l@.len(),
            v@ == old(v)@ + l@.take(i as int),
        decreases l@.len() - i,
    {
        v.push(l[i]);
        proof {
            assert(old(v)@ + l@.take(i as int + 1) =~= (old(v)@ + l@.take(i as int)).push(
                l@[i as int],
            ));
        }
        i = i + 1;
    }
    proof {
        assert(l@.take(l@.len() as int) =~= l@);
    }
}

/// Writes an optional trade in its canonical form.
pub fn encode_quote(t: &Option<TokenTrade>) -> (v: Vec<u8>)
    ensures
        v@ == enc_quote(trade_model(*t)),
{
    match t {
        None => lit_null_vec(),
        Some(tt) => {
            let mut v = lit_qsell_vec();
            let d1 = tt.sell_amount.to_decimal();
            append_bytes(&mut v, &d1);
            let ghost g1 = lit_qsell() + dec_of(tt.sell_amount.val());
            v.push(34);
            proof {
                assert(v@ =~= g1 + seq![34u8]);
            }
            let ghost g2 = g1 + seq![34u8];
            let lb = lit_qbuy_vec();
            append_bytes(&mut v, &lb);
            let ghost g3 = g2 + lit_qbuy();
            let d2 = tt.buy_amount.to_decimal();
            append_bytes(&mut v, &d2);
            let ghost g4 = g3 + dec_of(tt.buy_amount.val());
            v.push(34);
            proof {
                assert(v@ =~= g4 + seq![34u8]);
            }
            let ghost g5 = g4 + seq![34u8];
            v.push(125);
            proof {
                assert(v@ =~= g5 + seq![125u8]);
            }
            v
        },
    }
}

/// Writes a record in its canonical form.
pub fn encode_record(r: &ExchangeRates) -> (v: Vec<u8>)
    ensures
        v@ == enc_record(record_model(*r)),
{
    let ghost m = record_model(*r);
    let mut v = lit_head_vec();
    let block = Uint::from_u64(r.block_number);
    let bd = block.to_decimal();
    append_bytes(&mut v, &bd);
    let ghost g1 = lit_head() + dec_of(m.block);
    v.push(44);
    proof {
        assert(v@ =~= g1 + seq![44u8]);
    }
    let ghost g2 = g1 + seq![44u8];
    let lp = lit_pool_vec();
    append_bytes(&mut v, &lp);
    let ph = r.pool.to_hex();
    append_bytes(&mut v, &ph);
    let lt0 = lit_token0_vec();
    append_bytes(&mut v, &lt0);
    let t0h = r.token0.to_hex();
    append_bytes(&mut v, &t0h);
    let lt1 = lit_token1_vec();
    append_bytes(&mut v, &lt1);
    let t1h = r.token1.to_hex();
    append_bytes(&mut v, &t1h);
    let ls0 = lit_sell0_vec();
    append_bytes(&mut v, &ls0);
    let q0 = encode_quote(&r.sell0_buy1);
    append_bytes(&mut v, &q0);
    let ls1 = lit_sell1_vec();
    append_bytes(&mut v, &ls1);
    let q1 = encode_quote(&r.sell1_buy0);
    append_bytes(&mut v, &q1);
    let ghost g3 = g2 + lit_pool() + hex_enc(m.pool) + lit_token0() + hex_enc(m.token0)
        + lit_token1() + hex_enc(m.token1) + lit_sell0() + enc_quote(m.sell0_buy1) + lit_sell1()
        + enc_quote(m.sell1_buy0);
    v.push(125);
    proof {
        assert(v@ =~= g3 + seq![125u8]);
    }
    v
}

/// Skips a required literal at the given position.
fn eat_lit(s: &Vec<u8>, pos: usize, l: &Vec<u8>) -> (r: Option<usize>)
    requires
        pos <= s@.len(),
    ensures
        match match_lit(s@.skip(pos as int), l@) {
            None => r is None,
            Some(rest) => r is Some && r->0 == pos + l@.len() && rest == s@.skip(r->0 as int),
        },
{
    if s.len() - pos < l.len() {
        return None;
    }
    let mut k: usize = 0;
    while k < l.len()
        invariant
            pos + l@.len() <= s@.len(),
            s@.len() <= usize::MAX,
            k <= l@.len(),
            forall|j: int| 0 <= j < k ==> s@[pos + j] == l@[j],
        decreases l@.len() - k,
    {
        if s[pos + k] != l[k] {
            proof {
                let t = s@.skip(pos as int);
                if t.len() >= l@.len() && t.take(l@.len() as int) == l@ {
                    assert(t.take(l@.len() as int)[k as int] == t[k as int]);
                    assert(t[k as int] == s@[pos + k]);
                }
            }
            return None;
        }
        k = k + 1;
    }
    proof {
        let t = s@.skip(pos as int);
        assert(t.take(l@.len() as int) =~= l@);
        assert(t.skip(l@.len() as int) =~= s@.skip(pos + l@.len()));
    }
    Some(pos + l.len())
}

/// Finds the next occurrence of a byte at or after the given position.
fn scan_until(s: &Vec<u8>, pos: usize, c: u8) -> (r: Option<usize>)
    requires
        pos <= s@.len(),
    ensures
        match find(s@.skip(pos as int), c) {
            None => r is None,
            Some(i) => r is Some && r->0 == pos + i && pos <= r->0 && r->0 < s@.len(),
        },
{
    let mut k: usize = pos;
    while k < s.len()
        invariant
            pos <= k <= s@.len(),
            forall|j: int| pos <= j < k ==> s@[j] != c,
        decreases s@.len() - k,
    {
        if s[k] == c {
            proof {
                let t = s@.skip(pos as int);
                assert(t[k - pos] == s@[k as int]);
                assert forall|j: int| 0 <= j < k - pos implies t[j] != c by {
                    assert(t[j] == s@[pos + j]);
                }
                lemma_find_unique(t, c, k - pos);
            }
            return Some(k);
        }
        k = k + 1;
    }
    proof {
        let t = s@.skip(pos as int);
        lemma_find_spec(t, c);
        if find(t, c) is Some {
            let i = find(t, c)->0;
            assert(t[i] == s@[pos + i]);
        }
    }
    None
}

/// Reads an optional trade at the given position, returning it and the
/// position just past it.
fn parse_quote_at(s: &Vec<u8>, pos: usize) -> (r: Option<(Option<TokenTrade>, usize)>)
    requires
        pos <= s@.len(),
    ensures
        match parse_quote(s@.skip(pos as int)) {
            None => r is None,
            Some((q, rest)) => {
                &&& r is Some
                &&& trade_model((r->0).0) == q
                &&& (r->0).1 <= s@.len()
                &&& rest == s@.skip((r->0).1 as int)
            },
        },
{
    let slen = s.len();
    proof {
        assert(slen == s@.len());
    }
    let ln = lit_null_vec();
    match eat_lit(s, pos, &ln) {
        Some(p) => {
            return Some((None, p));
        },
        None => {},
    }
    let lq = lit_qsell_vec();
    let p1 = match eat_lit(s, pos, &lq) {
        Some(p) => p,
        None => {
            return None;
        },
    };
    let ghost s1 = s@.skip(p1 as int);
    let i = match scan_until(s, p1, 34) {
        Some(i) => i,
        None => {
            return None;
        },
    };
    proof {
        assert(s@.subrange(p1 as int, i as int) =~= s1.take(i - p1));
    }
    let sell = match Uint::from_decimal_range(s, p1, i) {
        Some(u) => u,
        None => {
            return None;
        },
    };
    let p2 = i + 1;
    proof {
        assert(s1.skip(i - p1 + 1) =~= s@.skip(p2 as int));
    }
    let lb = lit_qbuy_vec();
    let p3 = match eat_lit(s, p2, &lb) {
        Some(p) => p,
        None => {
            return None;
        },
    };
    let ghost s3 = s@.skip(p3 as int);
    let j = match scan_until(s, p3, 34) {
        Some(j) => j,
        None => {
            return None;
        },
    };
    proof {
        assert(s@.subrange(p3 as int, j as int) =~= s3.take(j - p3));
    }
    let buy = match Uint::from_decimal_range(s, p3, j) {
        Some(u) => u,
        None => {
            return None;
        },
    };
    let p4 = j + 1;
    proof {
        assert(s3.skip(j - p3 + 1) =~= s@.skip(p4 as int));
    }
    let lc = lit_close_vec();
    let p5 = match eat_lit(s, p4, &lc) {
        Some(p) => p,
        None => {
            return None;
        },
    };
    Some((Some(TokenTrade { sell_amount: sell, buy_amount: buy }), p5))
}

/// Reads a record written in its canonical form; anything else is refused.
pub fn decode_record(s: &Vec<u8>) -> (r: Option<ExchangeRates>)
    ensures
        match parse_record(s@) {
            None => r is None,
            Some(m) => r is Some && record_model(r->0) == m,
        },
{
    let slen = s.len();
    proof {
        assert(slen == s@.len());
        assert(s@.skip(0) =~= s@);
    }
    let lh = lit_head_vec();
    let p1 = match eat_lit(s, 0, &lh) {
        Some(p) => p,
        None => {
            return None;
        },
    };
    let ghost s1 = s@.skip(p1 as int);
    let ci = match scan_until(s, p1, 44) {
        Some(i) => i,
        None => {
            return None;
        },
    };
    proof {
        assert(s@.subrange(p1 as int, ci as int) =~= s1.take(ci - p1));
    }
    let block_u = match Uint::from_decimal_range(s, p1, ci) {
        Some(u) => u,
        None => {
            return None;
        },
    };
    let mx = Uint::from_u64(u64::MAX);
    if !block_u.le(&mx) {
        return None;
    }
    let block_number = block_u.to_u64();
    let p2 = ci + 1;
    proof {
        assert(s1.skip(ci - p1 + 1) =~= s@.skip(p2 as int));
    }
    decode_addrs(s, p2, block_number)
}

/// Reads the addresses and trades of a record from the given position on.
fn decode_addrs(s: &Vec<u8>, pos: usize, block_number: u64) -> (r: Option<ExchangeRates>)
    requires
        pos <= s@.len(),
    ensures
        match parse_record_addrs(s@.skip(pos as int), block_number as nat) {
            None => r is None,
            Some(m) => r is Some && record_model(r->0) == m,
        },
{
    let slen = s.len();
    proof {
        assert(slen == s@.len());
    }
    let p2 = pos;
    let lp = lit_pool_vec();
    let p3 = match eat_lit(s, p2, &lp) {
        Some(p) => p,
        None => {
            return None;
        },
    };
    let ghost s3 = s@.skip(p3 as int);
    if s.len() - p3 < 42 {
        return None;
    }
    proof {
        assert(s@.subrange(p3 as int, p3 + 42) =~= s3.take(42));
    }
    let pool = match Address::parse_hex_range(s, p3, p3 + 42) {
        Some(a) => a,
        None => {
            return None;
        },
    };
    let p4 = p3 + 42;
    proof {
        assert(s3.skip(42) =~= s@.skip(p4 as int));
    }
    let lt0 = lit_token0_vec();
    let p5 = match eat_lit(s, p4, &lt0) {
        Some(p) => p,
        None => {
            return None;
        },
    };
    let ghost s5 = s@.skip(p5 as int);
    if s.len() - p5 < 42 {
        return None;
    }
    proof {
        assert(s@.subrange(p5 as int, p5 + 42) =~= s5.take(42));
    }
    let token0 = match Address::parse_hex_range(s, p5, p5 + 42) {
        Some(a) => a,
        None => {
            return None;
        },
    };
    let p6 = p5 + 42;
    proof {
        assert(s5.skip(42) =~= s@.skip(p6 as int));
    }
    let lt1 = lit_token1_vec();
    let p7 = match eat_lit(s, p6, &lt1) {
        Some(p) => p,
        None => {
            return None;
        },
    };
    let ghost s7 = s@.skip(p7 as int);
    if s.len() - p7 < 42 {
        return None;
    }
    proof {
        assert(s@.subrange(p7 as int, p7 + 42) =~= s7.take(42));
    }
    let token1 = match Address::parse_hex_range(s, p7, p7 + 42) {
        Some(a) => a,
        None => {
            return None;
        },
    };
    let p8 = p7 + 42;
    proof {
        assert(s7.skip(42) =~= s@.skip(p8 as int));
    }
    let ls0 = lit_sell0_vec();
    let p9 = match eat_lit(s, p8, &ls0) {
        Some(p) => p,
        None => {
            return None;
        },
    };
    let q0 = match parse_quote_at(s, p9) {
        Some(x) => x,
        None => {
            return None;
        },
    };
    let p10 = q0.1;
    let ls1 = lit_sell1_vec();
    let p11 = match eat_lit(s, p10, &ls1) {
        Some(p) => p,
        None => {
            return None;
        },
    };
    let q1 = match parse_quote_at(s, p11) {
        Some(x) => x,
        None => {
            return None;
        },
    };
    let p12 = q1.1;
    let lc = lit_close_vec();
    let p13 = match eat_lit(s, p12, &lc) {
        Some(p) => p,
        None => {
            return None;
        },
    };
    if p13 != s.len() {
        proof {
            assert(s@.skip(p13 as int).len() != 0);
        }
        return None;
    }
    proof {
        assert(s@.skip(p13 as int).len() == 0);
    }
    Some(
        ExchangeRates {
            block_number,
            pool,
            token0,
            token1,
            sell0_buy1: q0.0,
            sell1_buy0: q1.0,
        },
    )
}

} // verus!
