//! 20-byte account addresses and their hexadecimal spelling.

use vstd::prelude::*;

verus! {

/// Whether a byte is a hexadecimal digit, either case.
pub open spec fn is_hex_digit(c: u8) -> bool {
    (48 <= c <= 57) || (97 <= c <= 102) || (65 <= c <= 70)
}

/// The numeric value of a hexadecimal digit, 0 for other bytes.
pub open spec fn hex_val(c: u8) -> nat {
    if 48 <= c <= 57 {
        (c - 48) as nat
    } else if 97 <= c <= 102 {
        (c - 87) as nat
    } else if 65 <= c <= 70 {
        (c - 55) as nat
    } else {
        0
    }
}

/// The lowercase digit spelling a value below 16.
pub open spec fn hex_digit_of(n: nat) -> u8 {
    if n < 10 {
        (48 + n) as u8
    } else {
        (87 + n) as u8
    }
}

/// The hexadecimal spelling of a byte string: 0x, then two lowercase digits
/// per byte, high half first.
pub open spec fn hex_enc(bytes: Seq<u8>) -> Seq<u8> {
    seq![48u8, 120u8] + Seq::new(
        2 * bytes.len(),
        |i: int| if i % 2 == 0 {
            hex_digit_of((bytes[i / 2] / 16) as nat)
        } else {
            hex_digit_of((bytes[i / 2] % 16) as nat)
        },
    )
}

/// The bytes spelled by a 0x-prefixed string of 2 * n hexadecimal digits,
/// nothing for any other string.
pub open spec fn hex_dec(s: Seq<u8>, n: nat) -> Option<Seq<u8>> {
    if s.len() == 2 + 2 * n && s[0] == 48 && s[1] == 120 && (forall|i: int|
        2 <= i < s.len() ==> is_hex_digit(s[i])) {
        Some(Seq::new(n, |i: int| (16 * hex_val(s[2 + 2 * i]) + hex_val(s[2 + 2 * i + 1])) as u8))
    } else {
        None
    }
}

/// Spelling a byte string and reading it back yields the same bytes.
pub proof fn lemma_hex_round_trip(bytes: Seq<u8>)
    ensures
        hex_dec(hex_enc(bytes), bytes.len()) == Some(bytes),
{
    let s = hex_enc(bytes);
    assert(s.len() == 2 + 2 * bytes.len());
    assert(s[0] == 48);
    assert(s[1] == 120);
    assert forall|i: int| 2 <= i < s.len() implies is_hex_digit(s[i]) by {
        let j = i - 2;
        assert(s[i] == if j % 2 == 0 {
            hex_digit_of((bytes[j / 2] / 16) as nat)
        } else {
            hex_digit_of((bytes[j / 2] % 16) as nat)
        });
    }
    let d = hex_dec(s, bytes.len())->0;
    assert forall|i: int| 0 <= i < bytes.len() implies d[i] == bytes[i] by {
        let hi = s[2 + 2 * i];
        let lo = s[2 + 2 * i + 1];
        assert((2 * i) % 2 == 0);
        assert((2 * i) / 2 == i);
        assert((2 * i + 1) % 2 == 1);
        assert((2 * i + 1) / 2 == i);
        assert(hi == hex_digit_of((bytes[i] / 16) as nat));
        assert(lo == hex_digit_of((bytes[i] % 16) as nat));
        assert(hex_val(hi) == bytes[i] / 16);
        assert(hex_val(lo) == bytes[i] % 16);
        assert(16 * (bytes[i] / 16) + bytes[i] % 16 == bytes[i]);
    }
    assert(d =~= bytes);
}

/// An immutable 20-byte account address.
pub struct Address {
    bytes: Vec<u8>,
}

impl View for Address {
    type V = Seq<u8>;

    closed spec fn view(&self) -> Seq<u8> {
        self.bytes@
    }
}

impl Address {
    #[verifier::type_invariant]
    spec fn wf(&self) -> bool {
        self.bytes@.len() == 20
    }

    /// Builds an address from its 20 raw bytes.
    pub fn from_bytes(bytes: Vec<u8>) -> (r: Option<Address>)
        ensures
            (bytes@.len() == 20) <==> r is Some,
            r is Some ==> r->0@ == bytes@,
    {
        if bytes.len() == 20 {
            Some(Address { bytes })
        } else {
            None
        }
    }

    /// An identical copy of this address.
    pub fn duplicate(&self) -> (r: Address)
        ensures
            r@ == self@,
    {
        proof {
            use_type_invariant(&*self);
        }
        let mut v: Vec<u8> = Vec::new();
        let mut i: usize = 0;
        while i < self.bytes.len()
            invariant
                i <= self.bytes@.len(),
                v@ == self.bytes@.take(i as int),
            decreases self.bytes@.len() - i,
        {
            v.push(self.bytes[i]);
            proof {
                assert(v@ =~= self.bytes@.take(i + 1));
            }
            i = i + 1;
        }
        proof {
            assert(v@ =~= self.bytes@);
        }
        Address { bytes: v }
    }

    /// Whether the two addresses hold the same bytes.
    pub fn eq_bytes(&self, other: &Address) -> (r: bool)
        ensures
            r == (self@ == other@),
    {
        proof {
            use_type_invariant(&*self);
            use_type_invariant(&*other);
        }
        let mut i: usize = 0;
        while i < self.bytes.len()
            invariant
                i <= self.bytes@.len(),
                self.bytes@.len() == other.bytes@.len(),
                forall|k: int| 0 <= k < i ==> self.bytes@[k] == other.bytes@[k],
            decreases self.bytes@.len() - i,
        {
            if self.bytes[i] != other.bytes[i] {
                proof {
                    assert(self@[i as int] != other@[i as int]);
                }
                return false;
            }
            i = i + 1;
        }
        proof {
            assert(self.bytes@ =~= other.bytes@);
        }
        true
    }

    /// The 0x-prefixed lowercase hexadecimal spelling of this address.
    pub fn to_hex(&self) -> (r: Vec<u8>)
        ensures
            r@ == hex_enc(self@),
    {
        proof {
            use_type_invariant(&*self);
        }
        let ghost target = hex_enc(self@);
        let mut v: Vec<u8> = Vec::new();
        v.push(48);
        v.push(120);
        let mut i: usize = 0;
        while i < self.bytes.len()
            invariant
                i <= self.bytes@.len(),
                self.bytes@.len() == 20,
                target == hex_enc(self@),
                self@ == self.bytes@,
                v@.len() == 2 + 2 * i,
                target.len() == 2 + 2 * self.bytes@.len(),
                forall|k: int| 0 <= k < v@.len() ==> v@[k] == target[k],
            decreases self.bytes@.len() - i,
        {
            let b = self.bytes[i];
            let hi: u8 = b / 16;
            let lo: u8 = b % 16;
            let hc: u8 = if hi < 10 {
                48 + hi
            } else {
                87 + hi
            };
            let lc: u8 = if lo < 10 {
                48 + lo
            } else {
                87 + lo
            };
            v.push(hc);
            v.push(lc);
            proof {
                assert((2 * i) % 2 == 0);
                assert((2 * i) / 2 == i);
                assert((2 * i + 1) % 2 == 1);
                assert((2 * i + 1) / 2 == i);
                assert(target[2 + 2 * i] == hex_digit_of((self.bytes@[i as int] / 16) as nat));
                assert(target[2 + 2 * i + 1] == hex_digit_of((self.bytes@[i as int] % 16) as nat));
            }
            i = i + 1;
        }
        proof {
            assert(v@ =~= target);
        }
        v
    }

    /// Reads a 0x-prefixed 40-digit hexadecimal address from a range of a
    /// byte vector.
    pub fn parse_hex_range(s: &Vec<u8>, start: usize, end: usize) -> (r: Option<Address>)
        requires
            start <= end <= s@.len(),
        ensures
            r is Some <==> hex_dec(s@.subrange(start as int, end as int), 20) is Some,
            r is Some ==> Some(r->0@) == hex_dec(s@.subrange(start as int, end as int), 20),
    {
        let ghost sub = s@.subrange(start as int, end as int);
        if end - start != 42 {
            return None;
        }
        if s[start] != 48 || s[start + 1] != 120 {
            proof {
                assert(sub[0] == s@[start as int]);
                assert(sub[1] == s@[start as int + 1]);
            }
            return None;
        }
        let mut v: Vec<u8> = Vec::new();
        let mut i: usize = 0;
        while i < 20
            invariant
                i <= 20,
                start + 42 == end <= s@.len(),
                sub == s@.subrange(start as int, end as int),
                sub.len() == 42,
                sub[0] == 48 && sub[1] == 120,
                v@.len() == i,
                forall|k: int| 0 <= k < 2 * i ==> #[trigger] is_hex_digit(sub[2 + k]),
                forall|k: int|
                    0 <= k < i ==> v@[k] == (16 * hex_val(sub[2 + 2 * k]) + hex_val(
                        sub[2 + 2 * k + 1],
                    )) as u8,
            decreases 20 - i,
        {
            let hc = s[start + 2 + 2 * i];
            let lc = s[start + 2 + 2 * i + 1];
            let hv: u8 = if 48 <= hc && hc <= 57 {
                hc - 48
            } else if 97 <= hc && hc <= 102 {
                hc - 87
            } else if 65 <= hc && hc <= 70 {
                hc - 55
            } else {
                proof {
                    assert(sub[2 + 2 * (i as int)] == s@[start + 2 + 2 * i]);
                    assert(!is_hex_digit(sub[2 + 2 * (i as int)]));
                }
                return None;
            };
            let lv: u8 = if 48 <= lc && lc <= 57 {
                lc - 48
            } else if 97 <= lc && lc <= 102 {
                lc - 87
            } else if 65 <= lc && lc <= 70 {
                lc - 55
            } else {
                proof {
                    assert(sub[2 + 2 * (i as int) + 1] == s@[start + 2 + 2 * i + 1]);
                    assert(!is_hex_digit(sub[2 + 2 * (i as int) + 1]));
                }
                return None;
            };
            v.push(16 * hv + lv);
            proof {
                assert(sub[2 + 2 * (i as int)] == s@[start + 2 + 2 * i]);
                assert(sub[2 + 2 * (i as int) + 1] == s@[start + 2 + 2 * i + 1]);
                assert(hv == hex_val(sub[2 + 2 * (i as int)]));
                assert(lv == hex_val(sub[2 + 2 * (i as int) + 1]));
            }
            i = i + 1;
        }
        proof {
            assert forall|k: int| 2 <= k < sub.len() implies is_hex_digit(sub[k]) by {
                assert(is_hex_digit(sub[2 + (k - 2)]));
            }
            let d = hex_dec(sub, 20)->0;
            assert(v@ =~= d);
        }
        Some(Address { bytes: v })
    }

    /// Reads a whole byte vector as a hexadecimal address.
    pub fn parse_hex(s: &Vec<u8>) -> (r: Option<Address>)
        ensures
            r is Some <==> hex_dec(s@, 20) is Some,
            r is Some ==> Some(r->0@) == hex_dec(s@, 20),
    {
        let r = Self::parse_hex_range(s, 0, s.len());
        proof {
            assert(s@.subrange(0, s@.len() as int) =~= s@);
        }
        r
    }
}

} // verus!
