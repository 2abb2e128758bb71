//! The fixed-point pricing formula and best-trade sampling.
//!
//! The sell amount owed for a wanted buy amount follows the exchange's
//! on-chain integer pipeline exactly, floor divisions included: first
//! `vreserveIn * buy / (vreserveOut - buy)`, then scaling by
//! `PRECISION / (PRECISION - fee)`.

use crate::address::Address;
use crate::uint::Uint;
use crate::PRECISION;
use vstd::prelude::*;

verus! {

/// The pricing formula's preconditions were violated: the wanted buy amount
/// reaches the output-side virtual reserve, or the fee is at or above one.
#[derive(Debug)]
pub struct MathError;

/// A pool's token pair and reserves, read at one block.
pub struct PoolSnapshot {
    pub token0: Address,
    pub token1: Address,
    pub reserve0: Uint,
    pub reserve1: Uint,
    pub vreserve0: Uint,
    pub vreserve1: Uint,
    pub fee_in_precision: Uint,
}

/// When the pricing pipeline is defined: the buy amount stays below the
/// output-side virtual reserve and the fee below one.
pub open spec fn quote_ok(vout: nat, fee: nat, buy: nat) -> bool {
    buy < vout && fee < PRECISION
}

/// The exact integer pipeline: floor(floor(vin * buy / (vout - buy))
/// * PRECISION / (PRECISION - fee)).
pub open spec fn quote_spec(vin: nat, vout: nat, fee: nat, buy: nat) -> int {
    ((vin * buy) as int / (vout - buy)) * (PRECISION as int) / (PRECISION - fee)
}

/// The amount to sell so that the pool pays out the wanted buy amount.
/// Succeeds exactly on the inputs where the on-chain formula is defined.
pub fn quote_sell_for_buy(
    vreserve_in: &Uint,
    vreserve_out: &Uint,
    fee_in_precision: &Uint,
    buy_amount: &Uint,
) -> (r: Result<Uint, MathError>)
    ensures
        (r is Ok) <==> quote_ok(vreserve_out.val(), fee_in_precision.val(), buy_amount.val()),
        r matches Ok(sell) ==> sell.val() == quote_spec(
            vreserve_in.val(),
            vreserve_out.val(),
            fee_in_precision.val(),
            buy_amount.val(),
        ),
{
    let denom1 = match vreserve_out.checked_sub(buy_amount) {
        Some(d) => d,
        None => {
            return Err(MathError);
        },
    };
    if denom1.is_zero() {
        return Err(MathError);
    }
    let prec = Uint::from_u64(PRECISION);
    let denom2 = match prec.checked_sub(fee_in_precision) {
        Some(d) => d,
        None => {
            return Err(MathError);
        },
    };
    if denom2.is_zero() {
        return Err(MathError);
    }
    let num1 = vreserve_in.mul(buy_amount);
    let (q1, _r1) = num1.div_rem(&denom1);
    let num2 = q1.mul(&prec);
    let (q2, _r2) = num2.div_rem(&denom2);
    Ok(q2)
}

/// Quotes the direction where token0 is sold: the wanted amount is bought
/// out of the token1-side virtual reserve.
pub fn get_exchange_rate(ti: &PoolSnapshot, amount_out: &Uint) -> (r: Result<Uint, MathError>)
    ensures
        (r is Ok) <==> quote_ok(ti.vreserve1.val(), ti.fee_in_precision.val(), amount_out.val()),
        r matches Ok(sell) ==> sell.val() == quote_spec(
            ti.vreserve0.val(),
            ti.vreserve1.val(),
            ti.fee_in_precision.val(),
            amount_out.val(),
        ),
{
    quote_sell_for_buy(&ti.vreserve0, &ti.vreserve1, &ti.fee_in_precision, amount_out)
}

/// The input-side virtual reserve for a trade direction.
pub open spec fn dir_in(ti: PoolSnapshot, sell0: bool) -> nat {
    if sell0 {
        ti.vreserve1.val()
    } else {
        ti.vreserve0.val()
    }
}

/// The output-side virtual reserve for a trade direction.
pub open spec fn dir_out(ti: PoolSnapshot, sell0: bool) -> nat {
    if sell0 {
        ti.vreserve0.val()
    } else {
        ti.vreserve1.val()
    }
}

/// The sell amount owed for a wanted buy amount, in the chosen direction.
pub fn calc_sell_amount(ti: &PoolSnapshot, buy_amount: &Uint, sell0: bool) -> (r: Result<
    Uint,
    MathError,
>)
    ensures
        (r is Ok) <==> quote_ok(dir_out(*ti, sell0), ti.fee_in_precision.val(), buy_amount.val()),
        r matches Ok(sell) ==> sell.val() == quote_spec(
            dir_in(*ti, sell0),
            dir_out(*ti, sell0),
            ti.fee_in_precision.val(),
            buy_amount.val(),
        ),
{
    let vin = if sell0 {
        &ti.vreserve1
    } else {
        &ti.vreserve0
    };
    let vout = if sell0 {
        &ti.vreserve0
    } else {
        &ti.vreserve1
    };
    quote_sell_for_buy(vin, vout, &ti.fee_in_precision, buy_amount)
}

/// One achievable trade: what to sell and what the pool pays out.
pub struct TokenTrade {
    pub sell_amount: Uint,
    pub buy_amount: Uint,
}

impl TokenTrade {
    pub fn new(sell_amount: Uint, buy_amount: Uint) -> (r: TokenTrade)
        ensures
            r.sell_amount.val() == sell_amount.val(),
            r.buy_amount.val() == buy_amount.val(),
    {
        TokenTrade { sell_amount, buy_amount }
    }

    /// The exchange rate buy/sell is meaningful and positive.
    pub open spec fn rate_positive(self) -> bool {
        self.sell_amount.val() > 0 && self.buy_amount.val() > 0
    }

    /// This trade's rate buy/sell strictly exceeds the other's, compared
    /// exactly by cross-multiplication.
    pub open spec fn rate_gt(self, other: TokenTrade) -> bool {
        self.buy_amount.val() * other.sell_amount.val() > other.buy_amount.val()
            * self.sell_amount.val()
    }

    pub fn is_rate_positive(&self) -> (r: bool)
        ensures
            r == self.rate_positive(),
    {
        !self.sell_amount.is_zero() && !self.buy_amount.is_zero()
    }

    pub fn exceeds(&self, other: &TokenTrade) -> (r: bool)
        ensures
            r == self.rate_gt(*other),
    {
        let l = self.buy_amount.mul(&other.sell_amount);
        let rr = other.buy_amount.mul(&self.sell_amount);
        rr.lt(&l)
    }
}

/// Ten to the e: the ladder of sampled buy amounts.
pub open spec fn pow10(e: nat) -> nat
    decreases e,
{
    if e == 0 {
        1
    } else {
        10 * pow10((e - 1) as nat)
    }
}

proof fn lemma_pow10_pos(e: nat)
    ensures
        pow10(e) >= 1,
    decreases e,
{
    if e > 0 {
        lemma_pow10_pos((e - 1) as nat);
    }
}

/// Whether the sampled buy amount 10^e yields a defined quote.
pub open spec fn cand_ok(ti: PoolSnapshot, sell0: bool, e: int) -> bool {
    quote_ok(dir_out(ti, sell0), ti.fee_in_precision.val(), pow10(e as nat))
}

/// The sell amount quoted for the sampled buy amount 10^e.
pub open spec fn cand_sell(ti: PoolSnapshot, sell0: bool, e: int) -> int {
    quote_spec(dir_in(ti, sell0), dir_out(ti, sell0), ti.fee_in_precision.val(), pow10(e as nat))
}

/// The candidate succeeds and has a positive exchange rate.
pub open spec fn cand_good(ti: PoolSnapshot, sell0: bool, e: int) -> bool {
    cand_ok(ti, sell0, e) && cand_sell(ti, sell0, e) > 0
}

/// Candidate e1's rate strictly exceeds candidate e2's.
pub open spec fn cand_rate_gt(ti: PoolSnapshot, sell0: bool, e1: int, e2: int) -> bool {
    pow10(e1 as nat) * cand_sell(ti, sell0, e2) > pow10(e2 as nat) * cand_sell(ti, sell0, e1)
}

/// Candidate e1's rate is at least candidate e2's.
pub open spec fn cand_rate_ge(ti: PoolSnapshot, sell0: bool, e1: int, e2: int) -> bool {
    pow10(e1 as nat) * cand_sell(ti, sell0, e2) >= pow10(e2 as nat) * cand_sell(ti, sell0, e1)
}

/// The trade t is the first candidate whose rate no other candidate exceeds.
pub open spec fn chosen_at(ti: PoolSnapshot, sell0: bool, t: TokenTrade, e: int) -> bool {
    &&& 0 <= e < 15
    &&& cand_good(ti, sell0, e)
    &&& t.buy_amount.val() == pow10(e as nat)
    &&& t.sell_amount.val() == cand_sell(ti, sell0, e)
    &&& forall|k: int| 0 <= k < e && cand_good(ti, sell0, k) ==> cand_rate_gt(ti, sell0, e, k)
    &&& forall|k: int| e <= k < 15 && cand_good(ti, sell0, k) ==> cand_rate_ge(ti, sell0, e, k)
}

/// What the best-trade search returns: nothing when no sampled candidate
/// succeeds with a positive rate, else the first candidate of maximal rate.
pub open spec fn best_trade_post(ti: PoolSnapshot, sell0: bool, r: Option<TokenTrade>) -> bool {
    match r {
        None => forall|k: int| 0 <= k < 15 ==> !cand_good(ti, sell0, k),
        Some(t) => exists|e: int| chosen_at(ti, sell0, t, e),
    }
}

/// Rates compose: if 1 beats 2 and 2 is at least 3, then 1 beats 3.
proof fn lemma_rate_chain(b1: int, s1: int, b2: int, s2: int, b3: int, s3: int)
    by (nonlinear_arith)
    requires
        s1 > 0,
        s2 > 0,
        s3 > 0,
        b1 * s2 > b2 * s1,
        b2 * s3 >= b3 * s2,
    ensures
        b1 * s3 > b3 * s1,
{
}

/// Samples buy amounts 10^0 .. 10^14 and keeps the first quote of strictly
/// maximal positive exchange rate, comparing rates exactly.
pub fn get_best_trade(ti: &PoolSnapshot, sell0: bool) -> (r: Option<TokenTrade>)
    ensures
        best_trade_post(*ti, sell0, r),
{
    let ten = Uint::from_u64(10);
    let mut buy = Uint::from_u64(1);
    let mut best: Option<TokenTrade> = None;
    let ghost mut best_e: int = 0;
    let mut e: usize = 0;
    while e < 15
        invariant
            e <= 15,
            buy.val() == pow10(e as nat),
            ten.val() == 10,
            match best {
                None => forall|k: int| 0 <= k < e ==> !cand_good(*ti, sell0, k),
                Some(t) => {
                    &&& 0 <= best_e < e
                    &&& cand_good(*ti, sell0, best_e)
                    &&& t.buy_amount.val() == pow10(best_e as nat)
                    &&& t.sell_amount.val() == cand_sell(*ti, sell0, best_e)
                    &&& forall|k: int|
                        0 <= k < best_e && cand_good(*ti, sell0, k) ==> cand_rate_gt(
                            *ti,
                            sell0,
                            best_e,
                            k,
                        )
                    &&& forall|k: int|
                        best_e <= k < e && cand_good(*ti, sell0, k) ==> cand_rate_ge(
                            *ti,
                            sell0,
                            best_e,
                            k,
                        )
                },
            },
        decreases 15 - e,
    {
        let quote = calc_sell_amount(ti, &buy, sell0);
        match quote {
            Ok(sell) => {
                if !sell.is_zero() {
                    proof {
                        lemma_pow10_pos(e as nat);
                        assert(cand_good(*ti, sell0, e as int));
                    }
                    let trade = TokenTrade { sell_amount: sell, buy_amount: buy.duplicate() };
                    match &best {
                        Some(b) => {
                            if trade.exceeds(b) {
                                proof {
                                    let ghost old_e = best_e;
                                    assert forall|k: int|
                                        0 <= k < e && cand_good(*ti, sell0, k) implies cand_rate_gt(
                                        *ti,
                                        sell0,
                                        e as int,
                                        k,
                                    ) by {
                                        lemma_pow10_pos(k as nat);
                                        lemma_pow10_pos(old_e as nat);
                                        if k != old_e {
                                            lemma_rate_chain(
                                                pow10(e as nat) as int,
                                                cand_sell(*ti, sell0, e as int),
                                                pow10(old_e as nat) as int,
                                                cand_sell(*ti, sell0, old_e),
                                                pow10(k as nat) as int,
                                                cand_sell(*ti, sell0, k),
                                            );
                                        }
                                    }
                                    best_e = e as int;
                                }
                                best = Some(trade);
                            }
                        },
                        None => {
                            if trade.is_rate_positive() {
                                proof {
                                    best_e = e as int;
                                }
                                best = Some(trade);
                            }
                        },
                    }
                }
            },
            Err(_) => {},
        }
        buy = buy.mul(&ten);
        e = e + 1;
    }
    proof {
        if best is Some {
            assert(chosen_at(*ti, sell0, best->0, best_e));
        }
    }
    best
}

/// The unit of persistence: one pool's best trades at one block.
pub struct ExchangeRates {
    pub block_number: u64,
    pub pool: Address,
    pub token0: Address,
    pub token1: Address,
    pub sell0_buy1: Option<TokenTrade>,
    pub sell1_buy0: Option<TokenTrade>,
}

impl ExchangeRates {
    /// Derives both directions' best trades from a snapshot.
    pub fn new(block_number: u64, pool: Address, ti: &PoolSnapshot) -> (r: ExchangeRates)
        ensures
            r.block_number == block_number,
            r.pool@ == pool@,
            r.token0@ == ti.token0@,
            r.token1@ == ti.token1@,
            best_trade_post(*ti, true, r.sell0_buy1),
            best_trade_post(*ti, false, r.sell1_buy0),
    {
        ExchangeRates {
            block_number,
            token0: ti.token0.duplicate(),
            token1: ti.token1.duplicate(),
            sell0_buy1: get_best_trade(ti, true),
            sell1_buy0: get_best_trade(ti, false),
            pool,
        }
    }
}

} // verus!
