//! Arbitrary-precision unsigned integers for reserve amounts and fees.
//!
//! A value is a little-endian vector of 64-bit limbs with no zero limb on
//! top, so every number has exactly one representation.  All arithmetic is
//! exact: sums and products never overflow, subtraction and division report
//! their failure cases to the caller.

use vstd::prelude::*;
use vstd::arithmetic::div_mod::{
    lemma_fundamental_div_mod, lemma_fundamental_div_mod_converse,
};
use vstd::arithmetic::power2::{
    lemma2_to64, lemma_pow2_strictly_increases, lemma_pow2_unfold, pow2,
};

verus! {

/// The limb radix, 2^64.
spec fn base() -> nat {
    0x10000000000000000
}

/// base() raised to the power n.
spec fn pow_base(n: nat) -> nat
    decreases n,
{
    if n == 0 {
        1
    } else {
        base() * pow_base((n - 1) as nat)
    }
}

/// The number denoted by a little-endian limb sequence.
spec fn limbs_val(s: Seq<u64>) -> nat
    decreases s.len(),
{
    if s.len() == 0 {
        0
    } else {
        (s[0] as nat) + base() * limbs_val(s.skip(1))
    }
}

/// The number denoted by the first i limbs, reading limbs past the end as 0.
spec fn limb_at(s: Seq<u64>, i: int) -> u64 {
    if 0 <= i < s.len() {
        s[i]
    } else {
        0
    }
}

spec fn prefix_val(s: Seq<u64>, i: int) -> nat
    decreases i,
{
    if i <= 0 {
        0
    } else {
        prefix_val(s, i - 1) + (limb_at(s, i - 1) as nat) * pow_base((i - 1) as nat)
    }
}

proof fn lemma_pow_base_pos(n: nat)
    ensures
        pow_base(n) >= 1,
    decreases n,
{
    if n > 0 {
        lemma_pow_base_pos((n - 1) as nat);
        assert(base() * pow_base((n - 1) as nat) >= 1 * 1) by (nonlinear_arith)
            requires
                pow_base((n - 1) as nat) >= 1,
        ;
    }
}

proof fn lemma_pow_base_adds(a: nat, b: nat)
    ensures
        pow_base(a + b) == pow_base(a) * pow_base(b),
    decreases a,
{
    if a == 0 {
        assert(pow_base(a) == 1);
        assert(pow_base(a) * pow_base(b) == pow_base(b)) by (nonlinear_arith)
            requires
                pow_base(a) == 1,
        ;
    } else {
        lemma_pow_base_adds((a - 1) as nat, b);
        assert(pow_base((a + b - 1) as nat) == pow_base((a - 1) as nat) * pow_base(b));
        assert(pow_base(a + b) == base() * pow_base((a + b - 1) as nat));
        assert(pow_base(a) == base() * pow_base((a - 1) as nat));
        assert(base() * (pow_base((a - 1) as nat) * pow_base(b)) == (base() * pow_base(
            (a - 1) as nat,
        )) * pow_base(b)) by (nonlinear_arith);
    }
}

proof fn lemma_pow_base_le(a: nat, b: nat)
    requires
        a <= b,
    ensures
        pow_base(a) <= pow_base(b),
{
    lemma_pow_base_adds(a, (b - a) as nat);
    lemma_pow_base_pos(a);
    lemma_pow_base_pos((b - a) as nat);
    assert(pow_base(a) * 1 <= pow_base(a) * pow_base((b - a) as nat)) by (nonlinear_arith)
        requires
            pow_base(a) >= 1,
            pow_base((b - a) as nat) >= 1,
    ;
}

/// Appending a limb adds its value scaled by the weight of its position.
proof fn lemma_limbs_val_push(s: Seq<u64>, x: u64)
    ensures
        limbs_val(s.push(x)) == limbs_val(s) + x * pow_base(s.len()),
    decreases s.len(),
{
    if s.len() == 0 {
        assert(s.push(x).skip(1) =~= Seq::<u64>::empty());
        assert(s.push(x)[0] == x);
        assert(limbs_val(Seq::<u64>::empty()) == 0);
        assert(limbs_val(s) == 0);
        assert(pow_base(0) == 1);
        assert(limbs_val(s.push(x)) == x + base() * limbs_val(s.push(x).skip(1)));
    } else {
        assert(s.push(x).skip(1) =~= s.skip(1).push(x));
        lemma_limbs_val_push(s.skip(1), x);
        let t = limbs_val(s.skip(1));
        let p = pow_base((s.len() - 1) as nat);
        assert(limbs_val(s.push(x)) == s[0] + base() * (t + x * p));
        assert(base() * (t + x * p) == base() * t + x * (base() * p)) by (nonlinear_arith);
    }
}

/// A limb sequence denotes less than the weight of the next position.
proof fn lemma_limbs_val_bound(s: Seq<u64>)
    ensures
        limbs_val(s) < pow_base(s.len()),
    decreases s.len(),
{
    if s.len() == 0 {
    } else {
        lemma_limbs_val_bound(s.skip(1));
        let t = limbs_val(s.skip(1));
        let p = pow_base((s.len() - 1) as nat);
        assert(base() * t + base() <= base() * p) by (nonlinear_arith)
            requires
                t + 1 <= p,
        ;
        assert(s[0] < base());
    }
}

/// Splitting a limb sequence splits its value at the matching weight.
proof fn lemma_limbs_val_split(s: Seq<u64>, i: int)
    requires
        0 <= i <= s.len(),
    ensures
        limbs_val(s) == limbs_val(s.take(i)) + pow_base(i as nat) * limbs_val(s.skip(i)),
    decreases i,
{
    if i == 0 {
        assert(s.take(0) =~= Seq::<u64>::empty());
        assert(s.skip(0) =~= s);
        assert(limbs_val(Seq::<u64>::empty()) == 0);
        assert(pow_base(0) == 1);
        assert(1 * limbs_val(s) == limbs_val(s)) by (nonlinear_arith);
    } else {
        lemma_limbs_val_split(s.skip(1), i - 1);
        assert(s.take(i).skip(1) =~= s.skip(1).take(i - 1));
        assert(s.skip(i) =~= s.skip(1).skip(i - 1));
        assert(s.take(i)[0] == s[0]);
        assert(s.take(i).len() == i);
        let a = limbs_val(s.skip(1).take(i - 1));
        let b = limbs_val(s.skip(1).skip(i - 1));
        let p = pow_base((i - 1) as nat);
        assert(limbs_val(s.skip(1)) == a + p * b);
        assert(limbs_val(s) == s[0] + base() * (a + p * b));
        assert(limbs_val(s.take(i)) == s[0] + base() * a);
        assert(base() * (a + p * b) == base() * a + (base() * p) * b) by (nonlinear_arith);
        assert(pow_base(i as nat) == base() * pow_base((i - 1) as nat));
    }
}

/// A sequence whose top limb is nonzero denotes at least that limb's weight.
proof fn lemma_limbs_val_top_lower(s: Seq<u64>)
    requires
        s.len() > 0,
        s.last() != 0,
    ensures
        limbs_val(s) >= pow_base((s.len() - 1) as nat),
{
    let i = s.len() - 1;
    lemma_limbs_val_split(s, i as int);
    let tail = s.skip(i as int);
    assert(tail.len() == 1);
    assert(tail.skip(1) =~= Seq::<u64>::empty());
    assert(limbs_val(Seq::<u64>::empty()) == 0);
    assert(limbs_val(tail) == tail[0] + base() * limbs_val(tail.skip(1)));
    assert(limbs_val(tail) == tail[0]);
    assert(tail[0] == s.last());
    let p = pow_base(i as nat);
    assert(p * limbs_val(tail) >= p * 1) by (nonlinear_arith)
        requires
            limbs_val(tail) >= 1,
            p >= 0,
    ;
}

/// The running prefix value matches the value of the truncated sequence.
proof fn lemma_prefix_val_take(s: Seq<u64>, i: int)
    requires
        0 <= i <= s.len(),
    ensures
        prefix_val(s, i) == limbs_val(s.take(i)),
    decreases i,
{
    if i == 0 {
        assert(s.take(0) =~= Seq::<u64>::empty());
    } else {
        lemma_prefix_val_take(s, i - 1);
        assert(s.take(i) =~= s.take(i - 1).push(s[i - 1]));
        lemma_limbs_val_push(s.take(i - 1), s[i - 1]);
    }
}

/// Reading past the end of the sequence adds nothing to the prefix value.
proof fn lemma_prefix_val_full(s: Seq<u64>, i: int)
    requires
        i >= s.len(),
    ensures
        prefix_val(s, i) == limbs_val(s),
    decreases i,
{
    if i == s.len() {
        lemma_prefix_val_take(s, i);
        assert(s.take(i) =~= s);
    } else {
        lemma_prefix_val_full(s, i - 1);
    }
}

/// If two equally long sequences agree above position i and differ at i,
/// the one with the smaller limb at i denotes the smaller number.
proof fn lemma_limbs_val_cmp_at(a: Seq<u64>, b: Seq<u64>, i: int)
    requires
        a.len() == b.len(),
        0 <= i < a.len(),
        a.skip(i + 1) == b.skip(i + 1),
        a[i] < b[i],
    ensures
        limbs_val(a) < limbs_val(b),
{
    lemma_limbs_val_split(a, i);
    lemma_limbs_val_split(b, i);
    assert(a.skip(i).skip(1) =~= a.skip(i + 1));
    assert(b.skip(i).skip(1) =~= b.skip(i + 1));
    assert(a.skip(i)[0] == a[i]);
    assert(b.skip(i)[0] == b[i]);
    let ta = limbs_val(a.skip(i + 1));
    assert(limbs_val(a.skip(i)) == a[i] + base() * ta);
    assert(limbs_val(b.skip(i)) == b[i] + base() * ta);
    lemma_limbs_val_bound(a.take(i));
    let p = pow_base(i as nat);
    assert(limbs_val(a.take(i)) + p * limbs_val(a.skip(i)) < p * limbs_val(b.skip(i)))
        by (nonlinear_arith)
        requires
            limbs_val(a.take(i)) < p,
            limbs_val(a.skip(i)) < limbs_val(b.skip(i)),
    ;
    assert(limbs_val(b.take(i)) >= 0);
}

/// Whether a byte is an ASCII decimal digit.
pub open spec fn is_digit(c: u8) -> bool {
    48 <= c <= 57
}

/// The numeric value of an ASCII digit, 0 for other bytes.
pub open spec fn digit_val(c: u8) -> nat {
    if is_digit(c) {
        (c - 48) as nat
    } else {
        0
    }
}

pub open spec fn all_digits(s: Seq<u8>) -> bool {
    forall|i: int| 0 <= i < s.len() ==> is_digit(s[i])
}

/// The number denoted by a big-endian ASCII digit string.
pub open spec fn dec_val(s: Seq<u8>) -> nat
    decreases s.len(),
{
    if s.len() == 0 {
        0
    } else {
        dec_val(s.drop_last()) * 10 + digit_val(s.last())
    }
}

/// The canonical decimal spelling of a number: no leading zeros, and a
/// single zero digit for zero.
pub open spec fn dec_of(n: nat) -> Seq<u8>
    decreases n,
{
    if n < 10 {
        seq![(48 + n) as u8]
    } else {
        dec_of(n / 10).push((48 + n % 10) as u8)
    }
}

/// Appending a digit multiplies the denoted number by ten and adds it.
proof fn lemma_dec_val_push(s: Seq<u8>, c: u8)
    ensures
        dec_val(s.push(c)) == dec_val(s) * 10 + digit_val(c),
{
    assert(s.push(c).drop_last() =~= s);
    assert(s.push(c).last() == c);
}

/// Reading the canonical spelling back gives the number itself.
pub proof fn lemma_dec_of_val(n: nat)
    ensures
        dec_val(dec_of(n)) == n,
        dec_of(n).len() > 0,
        all_digits(dec_of(n)),
    decreases n,
{
    if n < 10 {
        let s = dec_of(n);
        assert(s.len() == 1);
        assert(s.drop_last() =~= Seq::<u8>::empty());
        assert(dec_val(s.drop_last()) == 0);
        assert(s.last() == (48 + n) as u8);
    } else {
        lemma_dec_of_val(n / 10);
        lemma_dec_val_push(dec_of(n / 10), (48 + n % 10) as u8);
        lemma_fundamental_div_mod(n as int, 10);
        assert forall|i: int| 0 <= i < dec_of(n).len() implies is_digit(dec_of(n)[i]) by {
            if i < dec_of(n / 10).len() {
                assert(dec_of(n)[i] == dec_of(n / 10)[i]);
            }
        }
    }
}

/// The number denoted by a big-endian byte string, base 256.
pub open spec fn be_val(s: Seq<u8>) -> nat
    decreases s.len(),
{
    if s.len() == 0 {
        0
    } else {
        be_val(s.drop_last()) * 256 + (s.last() as nat)
    }
}

/// An arbitrary-precision unsigned integer.
pub struct Uint {
    limbs: Vec<u64>,
}

impl Uint {
    /// No zero limb on top: each number has one representation.
    #[verifier::type_invariant]
    spec fn wf(&self) -> bool {
        self.limbs@.len() == 0 || self.limbs@.last() != 0
    }

    /// The number this value denotes.
    pub closed spec fn val(&self) -> nat {
        limbs_val(self.limbs@)
    }

    /// Builds a value from arbitrary limbs by stripping zero limbs off the top.
    fn from_limbs(limbs: Vec<u64>) -> (r: Uint)
        ensures
            r.val() == limbs_val(limbs@),
    {
        let mut v = limbs;
        let mut n = v.len();
        while n > 0 && v[n - 1] == 0
            invariant
                n == v@.len(),
                limbs_val(v@) == limbs_val(limbs@),
            decreases n,
        {
            let ghost prev = v@;
            v.pop();
            n = n - 1;
            proof {
                assert(prev =~= v@.push(0));
                lemma_limbs_val_push(v@, 0);
            }
        }
        Uint { limbs: v }
    }

    pub fn zero() -> (r: Uint)
        ensures
            r.val() == 0,
    {
        Uint { limbs: Vec::new() }
    }

    pub fn from_u64(x: u64) -> (r: Uint)
        ensures
            r.val() == x,
    {
        let mut v: Vec<u64> = Vec::new();
        v.push(x);
        proof {
            assert(v@.skip(1) =~= Seq::<u64>::empty());
            assert(limbs_val(Seq::<u64>::empty()) == 0);
            assert(limbs_val(v@) == x + base() * limbs_val(v@.skip(1)));
        }
        Self::from_limbs(v)
    }

    pub fn from_u128(x: u128) -> (r: Uint)
        ensures
            r.val() == x,
    {
        let lo: u64 = (x % 0x10000000000000000) as u64;
        let hi: u64 = (x / 0x10000000000000000) as u64;
        let mut v: Vec<u64> = Vec::new();
        v.push(lo);
        v.push(hi);
        proof {
            assert(v@.skip(1).skip(1) =~= Seq::<u64>::empty());
            assert(v@.skip(1)[0] == hi);
            assert(limbs_val(Seq::<u64>::empty()) == 0);
            assert(limbs_val(v@.skip(1)) == hi + base() * limbs_val(v@.skip(1).skip(1)));
            assert(limbs_val(v@) == lo + base() * limbs_val(v@.skip(1)));
            assert(limbs_val(v@) == lo + base() * hi);
            lemma_fundamental_div_mod(x as int, 0x10000000000000000);
        }
        Self::from_limbs(v)
    }

    pub fn is_zero(&self) -> (r: bool)
        ensures
            r == (self.val() == 0),
    {
        proof {
            use_type_invariant(&*self);
            if self.limbs@.len() > 0 {
                lemma_limbs_val_top_lower(self.limbs@);
                lemma_pow_base_pos((self.limbs@.len() - 1) as nat);
            }
        }
        self.limbs.len() == 0
    }

    /// Extracts a value already known to fit in one limb.
    pub fn to_u64(&self) -> (r: u64)
        requires
            self.val() < 0x10000000000000000,
        ensures
            r == self.val(),
    {
        proof {
            use_type_invariant(&*self);
            if self.limbs@.len() >= 2 {
                lemma_limbs_val_top_lower(self.limbs@);
                lemma_pow_base_le(1, (self.limbs@.len() - 1) as nat);
                assert(pow_base(1) == base() * pow_base(0));
                assert(pow_base(0) == 1);
                assert(false);
            }
        }
        if self.limbs.len() == 0 {
            0
        } else {
            proof {
                assert(self.limbs@.skip(1) =~= Seq::<u64>::empty());
                assert(limbs_val(Seq::<u64>::empty()) == 0);
                assert(limbs_val(self.limbs@) == self.limbs@[0] + base() * limbs_val(
                    self.limbs@.skip(1),
                ));
            }
            self.limbs[0]
        }
    }

    /// An identical copy of this value.
    pub fn duplicate(&self) -> (r: Uint)
        ensures
            r.val() == self.val(),
    {
        proof {
            use_type_invariant(&*self);
        }
        let mut v: Vec<u64> = Vec::new();
        let mut i: usize = 0;
        while i < self.limbs.len()
            invariant
                i <= self.limbs@.len(),
                v@ == self.limbs@.take(i as int),
            decreases self.limbs@.len() - i,
        {
            v.push(self.limbs[i]);
            proof {
                assert(v@ =~= self.limbs@.take(i + 1));
            }
            i = i + 1;
        }
        proof {
            assert(v@ =~= self.limbs@);
        }
        Uint { limbs: v }
    }

    /// Whether this value is at most the other.
    pub fn le(&self, other: &Uint) -> (r: bool)
        ensures
            r == (self.val() <= other.val()),
    {
        proof {
            use_type_invariant(&*self);
            use_type_invariant(&*other);
        }
        let a = &self.limbs;
        let b = &other.limbs;
        if a.len() != b.len() {
            proof {
                if a@.len() < b@.len() {
                    lemma_limbs_val_bound(a@);
                    lemma_limbs_val_top_lower(b@);
                    lemma_pow_base_le(a@.len(), (b@.len() - 1) as nat);
                } else {
                    lemma_limbs_val_bound(b@);
                    lemma_limbs_val_top_lower(a@);
                    lemma_pow_base_le(b@.len(), (a@.len() - 1) as nat);
                }
            }
            return a.len() < b.len();
        }
        let mut i = a.len();
        while i > 0
            invariant
                i <= a@.len(),
                a@.len() == b@.len(),
                a@.skip(i as int) == b@.skip(i as int),
                self.val() == limbs_val(a@),
                other.val() == limbs_val(b@),
            decreases i,
        {
            i = i - 1;
            if a[i] != b[i] {
                proof {
                    if a@[i as int] < b@[i as int] {
                        lemma_limbs_val_cmp_at(a@, b@, i as int);
                    } else {
                        lemma_limbs_val_cmp_at(b@, a@, i as int);
                    }
                }
                return a[i] < b[i];
            }
            proof {
                assert forall|j: int| 0 <= j < a@.len() - i implies a@.skip(i as int)[j] == b@.skip(
                    i as int,
                )[j] by {
                    if j > 0 {
                        assert(a@.skip(i as int)[j] == a@.skip(i as int + 1)[j - 1]);
                        assert(b@.skip(i as int)[j] == b@.skip(i as int + 1)[j - 1]);
                    }
                }
                assert(a@.skip(i as int) =~= b@.skip(i as int));
            }
        }
        proof {
            assert(a@.skip(0) =~= a@);
            assert(b@.skip(0) =~= b@);
        }
        true
    }

    /// Whether this value is strictly below the other.
    pub fn lt(&self, other: &Uint) -> (r: bool)
        ensures
            r == (self.val() < other.val()),
    {
        !other.le(self)
    }

    /// Whether the two values denote the same number.
    pub fn eq_val(&self, other: &Uint) -> (r: bool)
        ensures
            r == (self.val() == other.val()),
    {
        self.le(other) && other.le(self)
    }

    /// The sum of the two values.
    pub fn add(&self, other: &Uint) -> (r: Uint)
        ensures
            r.val() == self.val() + other.val(),
    {
        proof {
            use_type_invariant(&*self);
            use_type_invariant(&*other);
        }
        let a = &self.limbs;
        let b = &other.limbs;
        let n = if a.len() > b.len() {
            a.len()
        } else {
            b.len()
        };
        let mut out: Vec<u64> = Vec::new();
        let mut carry: u64 = 0;
        let mut i: usize = 0;
        while i < n
            invariant
                i <= n,
                a@.len() <= n,
                b@.len() <= n,
                out@.len() == i,
                carry <= 1,
                limbs_val(out@) + carry * pow_base(i as nat) == prefix_val(a@, i as int)
                    + prefix_val(b@, i as int),
            decreases n - i,
        {
            let av: u64 = if i < a.len() {
                a[i]
            } else {
                0
            };
            let bv: u64 = if i < b.len() {
                b[i]
            } else {
                0
            };
            let sum: u128 = av as u128 + bv as u128 + carry as u128;
            let lo: u64 = (sum % 0x10000000000000000) as u64;
            let new_carry: u64 = (sum / 0x10000000000000000) as u64;
            let ghost prev_out = out@;
            let ghost prev_carry = carry;
            out.push(lo);
            proof {
                lemma_fundamental_div_mod(sum as int, 0x10000000000000000);
                lemma_limbs_val_push(prev_out, lo);
                assert(av == limb_at(a@, i as int));
                assert(bv == limb_at(b@, i as int));
                let p = pow_base(i as nat);
                assert(pow_base((i + 1) as nat) == base() * p);
                assert((lo + base() * new_carry) * p == (av + bv + prev_carry) * p)
                    by (nonlinear_arith)
                    requires
                        lo + base() * new_carry == av + bv + prev_carry,
                ;
                assert(lo * p + new_carry * (base() * p) == av * p + bv * p + prev_carry * p)
                    by (nonlinear_arith)
                    requires
                        (lo + base() * new_carry) * p == (av + bv + prev_carry) * p,
                ;
            }
            carry = new_carry;
            i = i + 1;
        }
        proof {
            lemma_prefix_val_full(a@, i as int);
            lemma_prefix_val_full(b@, i as int);
        }
        if carry != 0 {
            let ghost prev_out = out@;
            out.push(carry);
            proof {
                lemma_limbs_val_push(prev_out, carry);
            }
        }
        Self::from_limbs(out)
    }

    /// The difference, when the other value does not exceed this one.
    pub fn checked_sub(&self, other: &Uint) -> (r: Option<Uint>)
        ensures
            (other.val() <= self.val()) <==> r is Some,
            r is Some ==> r->0.val() == self.val() - other.val(),
    {
        proof {
            use_type_invariant(&*self);
            use_type_invariant(&*other);
        }
        if !other.le(self) {
            return None;
        }
        let a = &self.limbs;
        let b = &other.limbs;
        proof {
            if b@.len() > a@.len() {
                lemma_limbs_val_bound(a@);
                lemma_limbs_val_top_lower(b@);
                lemma_pow_base_le(a@.len(), (b@.len() - 1) as nat);
            }
        }
        let mut out: Vec<u64> = Vec::new();
        let mut borrow: u64 = 0;
        let mut i: usize = 0;
        while i < a.len()
            invariant
                i <= a@.len(),
                b@.len() <= a@.len(),
                out@.len() == i,
                borrow <= 1,
                limbs_val(out@) + prefix_val(b@, i as int) == prefix_val(a@, i as int) + borrow
                    * pow_base(i as nat),
            decreases a@.len() - i,
        {
            let av: u64 = a[i];
            let bv: u64 = if i < b.len() {
                b[i]
            } else {
                0
            };
            let tmp: u128 = 0x10000000000000000u128 + av as u128 - bv as u128 - borrow as u128;
            let lo: u64 = (tmp % 0x10000000000000000) as u64;
            let new_borrow: u64 = if tmp < 0x10000000000000000 {
                1
            } else {
                0
            };
            let ghost prev_out = out@;
            let ghost prev_borrow = borrow;
            out.push(lo);
            proof {
                lemma_fundamental_div_mod(tmp as int, 0x10000000000000000);
                lemma_limbs_val_push(prev_out, lo);
                assert(av == limb_at(a@, i as int));
                assert(bv == limb_at(b@, i as int));
                let p = pow_base(i as nat);
                assert(pow_base((i + 1) as nat) == base() * p);
                // tmp splits as lo plus base() times its (0 or 1) quotient,
                // and that quotient is 1 exactly when no borrow occurred.
                assert(tmp / 0x10000000000000000 == 1 - new_borrow);
                assert(lo + bv + prev_borrow == av + base() * new_borrow);
                assert((lo + bv + prev_borrow) * p == (av + base() * new_borrow) * p)
                    by (nonlinear_arith)
                    requires
                        lo + bv + prev_borrow == av + base() * new_borrow,
                ;
                assert(lo * p + bv * p + prev_borrow * p == av * p + new_borrow * (base() * p))
                    by (nonlinear_arith)
                    requires
                        (lo + bv + prev_borrow) * p == (av + base() * new_borrow) * p,
                ;
            }
            borrow = new_borrow;
            i = i + 1;
        }
        proof {
            lemma_prefix_val_full(a@, i as int);
            lemma_prefix_val_full(b@, i as int);
            if borrow == 1 {
                lemma_limbs_val_bound(out@);
                assert(false);
            }
        }
        Some(Self::from_limbs(out))
    }

    /// One schoolbook row: a limb sequence times a single limb.
    fn mul_limb(a: &Vec<u64>, m: u64) -> (out: Vec<u64>)
        ensures
            limbs_val(out@) == limbs_val(a@) * m,
    {
        let mut out: Vec<u64> = Vec::new();
        let mut carry: u64 = 0;
        let mut i: usize = 0;
        proof {
            assert(out@ =~= Seq::<u64>::empty());
            assert(limbs_val(out@) == 0);
            assert(prefix_val(a@, 0) == 0);
            assert(pow_base(0) == 1);
        }
        while i < a.len()
            invariant
                i <= a@.len(),
                out@.len() == i,
                limbs_val(out@) + carry * pow_base(i as nat) == prefix_val(a@, i as int) * m,
            decreases a@.len() - i,
        {
            proof {
                let av = a@[i as int] as int;
                assert(av * m + carry < 0x10000000000000000 * 0x10000000000000000)
                    by (nonlinear_arith)
                    requires
                        0 <= av < 0x10000000000000000,
                        0 <= m < 0x10000000000000000,
                        0 <= carry < 0x10000000000000000,
                ;
            }
            let prod: u128 = a[i] as u128 * m as u128 + carry as u128;
            let lo: u64 = (prod % 0x10000000000000000) as u64;
            let hi: u64 = (prod / 0x10000000000000000) as u64;
            let ghost prev_out = out@;
            let ghost prev_carry = carry;
            out.push(lo);
            proof {
                lemma_fundamental_div_mod(prod as int, 0x10000000000000000);
                lemma_limbs_val_push(prev_out, lo);
                assert(a@[i as int] == limb_at(a@, i as int));
                let p = pow_base(i as nat);
                let av = a@[i as int];
                let pv = limbs_val(prev_out);
                let pre = prefix_val(a@, i as int);
                assert(pow_base((i + 1) as nat) == base() * p);
                assert(prefix_val(a@, i as int + 1) == pre + av * p);
                assert(pv + lo * p + hi * (base() * p) == (pre + av * p) * m) by (nonlinear_arith)
                    requires
                        pv + prev_carry * p == pre * m,
                        lo + base() * hi == av * m + prev_carry,
                ;
            }
            carry = hi;
            i = i + 1;
        }
        let ghost prev_out = out@;
        out.push(carry);
        proof {
            lemma_limbs_val_push(prev_out, carry);
            lemma_prefix_val_full(a@, i as int);
        }
        out
    }

    /// Prepends k zero limbs, scaling the value by base() to the k.
    fn shl_limbs(v: Vec<u64>, k: usize) -> (out: Vec<u64>)
        ensures
            limbs_val(out@) == pow_base(k as nat) * limbs_val(v@),
    {
        let mut out: Vec<u64> = Vec::new();
        let mut i: usize = 0;
        while i < k
            invariant
                i <= k,
                out@.len() == i,
                limbs_val(out@) == 0,
            decreases k - i,
        {
            let ghost prev_out = out@;
            out.push(0);
            proof {
                lemma_limbs_val_push(prev_out, 0);
            }
            i = i + 1;
        }
        let mut j: usize = 0;
        while j < v.len()
            invariant
                j <= v@.len(),
                out@.len() == k + j,
                limbs_val(out@) == pow_base(k as nat) * prefix_val(v@, j as int),
            decreases v@.len() - j,
        {
            let ghost prev_out = out@;
            out.push(v[j]);
            proof {
                lemma_limbs_val_push(prev_out, v@[j as int]);
                lemma_pow_base_adds(k as nat, j as nat);
                let p = pow_base(k as nat);
                let q = pow_base(j as nat);
                let vj = v@[j as int];
                assert(vj == limb_at(v@, j as int));
                assert(p * (prefix_val(v@, j as int) + vj * q) == p * prefix_val(v@, j as int) + vj
                    * (p * q)) by (nonlinear_arith);
            }
            j = j + 1;
        }
        proof {
            lemma_prefix_val_full(v@, j as int);
        }
        out
    }

    /// The product of the two values.
    pub fn mul(&self, other: &Uint) -> (r: Uint)
        ensures
            r.val() == self.val() * other.val(),
    {
        proof {
            use_type_invariant(&*self);
            use_type_invariant(&*other);
        }
        let b = &other.limbs;
        let mut acc = Uint::zero();
        let mut j: usize = 0;
        proof {
            assert(prefix_val(b@, 0) == 0);
        }
        while j < b.len()
            invariant
                j <= b@.len(),
                acc.val() == self.val() * prefix_val(b@, j as int),
                self.val() == limbs_val(self.limbs@),
                other.val() == limbs_val(b@),
            decreases b@.len() - j,
        {
            let part = Self::mul_limb(&self.limbs, b[j]);
            let shifted = Self::shl_limbs(part, j);
            let term = Self::from_limbs(shifted);
            acc = acc.add(&term);
            proof {
                let p = pow_base(j as nat);
                let bj = b@[j as int];
                assert(bj == limb_at(b@, j as int));
                assert(term.val() == p * (self.val() * bj));
                assert(self.val() * (prefix_val(b@, j as int) + bj * p) == self.val() * prefix_val(
                    b@,
                    j as int,
                ) + p * (self.val() * bj)) by (nonlinear_arith);
            }
            j = j + 1;
        }
        proof {
            lemma_prefix_val_full(b@, j as int);
        }
        acc
    }

    /// 2 to the j, as a limb, by repeated doubling.
    fn pow2_u64(j: usize) -> (r: u64)
        requires
            j < 64,
        ensures
            r == pow2(j as nat),
    {
        proof {
            lemma2_to64();
        }
        let mut r: u64 = 1;
        let mut k: usize = 0;
        while k < j
            invariant
                k <= j,
                j < 64,
                r == pow2(k as nat),
            decreases j - k,
        {
            proof {
                lemma_pow2_unfold((k + 1) as nat);
                lemma_pow2_strictly_increases((k + 1) as nat, 64);
                lemma2_to64();
            }
            r = r * 2;
            k = k + 1;
        }
        r
    }

    /// The value 2^j times base()^li: a single bit at position 64 * li + j.
    fn pow2_uint(li: usize, j: usize) -> (r: Uint)
        requires
            j < 64,
        ensures
            r.val() == pow2(j as nat) * pow_base(li as nat),
    {
        let w = Self::pow2_u64(j);
        let mut v: Vec<u64> = Vec::new();
        let mut i: usize = 0;
        proof {
            assert(v@ =~= Seq::<u64>::empty());
            assert(limbs_val(v@) == 0);
        }
        while i < li
            invariant
                i <= li,
                v@.len() == i,
                limbs_val(v@) == 0,
            decreases li - i,
        {
            let ghost prev = v@;
            v.push(0);
            proof {
                lemma_limbs_val_push(prev, 0);
            }
            i = i + 1;
        }
        let ghost prev = v@;
        v.push(w);
        proof {
            lemma_limbs_val_push(prev, w);
        }
        Self::from_limbs(v)
    }

    /// Floor quotient and remainder, by building the quotient bit by bit
    /// from the most significant position down.
    pub fn div_rem(&self, d: &Uint) -> (r: (Uint, Uint))
        requires
            d.val() > 0,
        ensures
            r.0.val() == self.val() / d.val(),
            r.1.val() == self.val() % d.val(),
    {
        proof {
            use_type_invariant(&*self);
            use_type_invariant(&*d);
        }
        let n_len = self.limbs.len();
        let mut q = Uint::zero();
        let mut li: usize = n_len;
        proof {
            lemma_limbs_val_bound(self.limbs@);
            assert(pow_base(li as nat) * 1 <= pow_base(li as nat) * d.val()) by (nonlinear_arith)
                requires
                    d.val() >= 1,
                    pow_base(li as nat) >= 0,
            ;
            assert((0 + pow_base(li as nat)) * d.val() == pow_base(li as nat) * d.val());
        }
        while li > 0
            invariant
                d.val() > 0,
                q.val() * d.val() <= self.val(),
                self.val() < (q.val() + pow_base(li as nat)) * d.val(),
            decreases li,
        {
            li = li - 1;
            let mut j: usize = 64;
            proof {
                lemma2_to64();
                assert(pow_base((li + 1) as nat) == base() * pow_base(li as nat));
            }
            while j > 0
                invariant
                    j <= 64,
                    d.val() > 0,
                    q.val() * d.val() <= self.val(),
                    self.val() < (q.val() + pow2(j as nat) * pow_base(li as nat)) * d.val(),
                decreases j,
            {
                j = j - 1;
                let p = Self::pow2_uint(li, j);
                let t = q.add(&p);
                let m = t.mul(d);
                let ghost qv = q.val();
                let ghost dv = d.val();
                let ghost pv = p.val();
                let ghost nv = self.val();
                proof {
                    lemma_pow2_unfold((j + 1) as nat);
                }
                if m.le(self) {
                    q = t;
                    proof {
                        assert((qv + 2 * pv) * dv == ((qv + pv) + pv) * dv) by (nonlinear_arith);
                        assert((qv + (2 * pow2(j as nat)) * pow_base(li as nat)) * dv == (qv + 2 * (
                        pow2(j as nat) * pow_base(li as nat))) * dv) by (nonlinear_arith);
                    }
                } else {
                }
            }
            proof {
                lemma2_to64();
                assert(pow2(0) * pow_base(li as nat) == pow_base(li as nat));
            }
        }
        proof {
            assert(pow_base(0) == 1);
        }
        let prod = q.mul(d);
        let rem_opt = self.checked_sub(&prod);
        let rem = match rem_opt {
            Some(r) => r,
            None => Uint::zero(),
        };
        proof {
            let nv = self.val() as int;
            let dv = d.val() as int;
            let qv = q.val() as int;
            let rv = rem.val() as int;
            assert((qv + 1) * dv == qv * dv + dv) by (nonlinear_arith);
            lemma_fundamental_div_mod_converse(nv, dv, qv, rv);
        }
        (q, rem)
    }

    /// The canonical decimal spelling of this value.
    pub fn to_decimal(&self) -> (r: Vec<u8>)
        ensures
            r@ == dec_of(self.val()),
        decreases self.val(),
    {
        let ten = Uint::from_u64(10);
        let (q, rem) = self.div_rem(&ten);
        let digit: u64 = rem.to_u64();
        let d8: u8 = 48 + (digit as u8);
        if q.is_zero() {
            let mut v: Vec<u8> = Vec::new();
            v.push(d8);
            proof {
                assert(self.val() < 10);
                assert(v@ =~= dec_of(self.val()));
            }
            v
        } else {
            let mut v = q.to_decimal();
            v.push(d8);
            proof {
                assert(v@ =~= dec_of(self.val()));
            }
            v
        }
    }

    /// Reads a decimal digit string from a range of a byte vector.
    pub fn from_decimal_range(s: &Vec<u8>, start: usize, end: usize) -> (r: Option<Uint>)
        requires
            start <= end <= s@.len(),
        ensures
            (start < end && all_digits(s@.subrange(start as int, end as int))) <==> r is Some,
            r is Some ==> r->0.val() == dec_val(s@.subrange(start as int, end as int)),
    {
        let ghost sub = s@.subrange(start as int, end as int);
        if start == end {
            return None;
        }
        let ten = Uint::from_u64(10);
        let mut acc = Uint::zero();
        let mut i: usize = start;
        proof {
            assert(sub.take(0) =~= Seq::<u8>::empty());
        }
        while i < end
            invariant
                start <= i <= end <= s@.len(),
                acc.val() == dec_val(sub.take(i - start)),
                forall|k: int| start <= k < i ==> is_digit(s@[k]),
                ten.val() == 10,
                sub == s@.subrange(start as int, end as int),
            decreases end - i,
        {
            let c = s[i];
            if c < 48 || c > 57 {
                proof {
                    assert(sub[i - start] == s@[i as int]);
                    assert(!is_digit(sub[i - start]));
                }
                return None;
            }
            let t = acc.mul(&ten);
            let digit = Uint::from_u64((c - 48) as u64);
            acc = t.add(&digit);
            proof {
                lemma_dec_val_push(sub.take(i - start), c);
                assert(sub.take(i - start).push(c) =~= sub.take(i - start + 1));
            }
            i = i + 1;
        }
        proof {
            assert(sub.take(i - start) =~= sub);
            assert forall|k: int| 0 <= k < sub.len() implies is_digit(sub[k]) by {
                assert(sub[k] == s@[start + k]);
            }
        }
        Some(acc)
    }

    /// Reads a whole byte vector as a decimal digit string.
    pub fn from_decimal(s: &Vec<u8>) -> (r: Option<Uint>)
        ensures
            (s@.len() > 0 && all_digits(s@)) <==> r is Some,
            r is Some ==> r->0.val() == dec_val(s@),
    {
        let r = Self::from_decimal_range(s, 0, s.len());
        proof {
            assert(s@.subrange(0, s@.len() as int) =~= s@);
        }
        r
    }

    /// Reads big-endian bytes, most significant first.
    pub fn from_be_bytes(s: &Vec<u8>) -> (r: Uint)
        ensures
            r.val() == be_val(s@),
    {
        let radix = Uint::from_u64(256);
        let mut acc = Uint::zero();
        let mut i: usize = 0;
        proof {
            assert(s@.take(0) =~= Seq::<u8>::empty());
        }
        while i < s.len()
            invariant
                i <= s@.len(),
                acc.val() == be_val(s@.take(i as int)),
                radix.val() == 256,
            decreases s@.len() - i,
        {
            let t = acc.mul(&radix);
            let b = Uint::from_u64(s[i] as u64);
            acc = t.add(&b);
            proof {
                assert(s@.take(i as int + 1).drop_last() =~= s@.take(i as int));
                assert(s@.take(i as int + 1).last() == s@[i as int]);
            }
            i = i + 1;
        }
        proof {
            assert(s@.take(i as int) =~= s@);
        }
        acc
    }
}

} // verus!
