//! Unsigned 256-bit integers, held as four 64-bit limbs, least significant first.

use vstd::prelude::*;

verus! {

/// `2^64`, the weight of the second limb.
pub open spec fn pow64() -> nat {
    0x1_0000_0000_0000_0000
}

/// `2^128`, the weight of the third limb.
pub open spec fn pow128() -> nat {
    0x1_0000_0000_0000_0000_0000_0000_0000_0000nat
}

/// `2^192`, the weight of the fourth limb.
pub open spec fn pow192() -> nat {
    0x1_0000_0000_0000_0000_0000_0000_0000_0000_0000_0000_0000_0000nat
}

/// `2^256`, one more than the largest value of a `U256`.
pub open spec fn pow256() -> nat {
    0x1_0000_0000_0000_0000_0000_0000_0000_0000_0000_0000_0000_0000_0000_0000_0000_0000nat
}

/// The number that four limbs stand for.
pub open spec fn limbs_value(l0: u64, l1: u64, l2: u64, l3: u64) -> nat {
    (l0 as nat) + (l1 as nat) * pow64() + (l2 as nat) * pow128() + (l3 as nat) * pow192()
}

/// A 256-bit unsigned integer. `l0` is the least significant limb.
#[derive(Clone, Copy, Debug, PartialEq, Eq, Structural)]
pub struct U256 {
    pub l0: u64,
    pub l1: u64,
    pub l2: u64,
    pub l3: u64,
}

impl View for U256 {
    type V = nat;

    open spec fn view(&self) -> nat {
        limbs_value(self.l0, self.l1, self.l2, self.l3)
    }
}

/// Two values with the same number have the same limbs.
pub proof fn lemma_value_determines_limbs(a: U256, b: U256)
    requires
        a@ == b@,
    ensures
        a == b,
{
    lemma_order_by_limbs(a, b);
    lemma_order_by_limbs(b, a);
}

/// Numbers are ordered as their limbs are, the most significant limb first.
pub proof fn lemma_order_by_limbs(a: U256, b: U256)
    ensures
        a@ < b@ <==> (a.l3 < b.l3 || (a.l3 == b.l3 && (a.l2 < b.l2 || (a.l2 == b.l2 && (a.l1 < b.l1
            || (a.l1 == b.l1 && a.l0 < b.l0)))))),
{
    let a1: nat = (a.l0 as nat) + (a.l1 as nat) * pow64();
    let b1: nat = (b.l0 as nat) + (b.l1 as nat) * pow64();
    assert(a1 < pow128() && b1 < pow128());
    assert(a1 < b1 <==> (a.l1 < b.l1 || (a.l1 == b.l1 && a.l0 < b.l0)));
    let a2: nat = a1 + (a.l2 as nat) * pow128();
    let b2: nat = b1 + (b.l2 as nat) * pow128();
    assert(a2 < pow192() && b2 < pow192());
    assert(a2 < b2 <==> (a.l2 < b.l2 || (a.l2 == b.l2 && a1 < b1)));
    assert(a@ == a2 + (a.l3 as nat) * pow192());
    assert(b@ == b2 + (b.l3 as nat) * pow192());
    assert(a@ < b@ <==> (a.l3 < b.l3 || (a.l3 == b.l3 && a2 < b2)));
}

/// Every value is below `2^256`.
pub proof fn lemma_value_bound(a: U256)
    ensures
        a@ < pow256(),
{
}

impl U256 {
    /// The number zero.
    pub fn zero() -> (r: U256)
        ensures
            r@ == 0,
    {
        U256 { l0: 0, l1: 0, l2: 0, l3: 0 }
    }

    /// The largest value, `2^256 - 1`.
    pub fn max_value() -> (r: U256)
        ensures
            r@ == pow256() - 1,
    {
        U256 {
            l0: 0xFFFF_FFFF_FFFF_FFFF,
            l1: 0xFFFF_FFFF_FFFF_FFFF,
            l2: 0xFFFF_FFFF_FFFF_FFFF,
            l3: 0xFFFF_FFFF_FFFF_FFFF,
        }
    }

    /// The value of a 64-bit number.
    pub fn from_u64(x: u64) -> (r: U256)
        ensures
            r@ == x,
    {
        U256 { l0: x, l1: 0, l2: 0, l3: 0 }
    }

    /// Whether the value is zero.
    pub fn is_zero(&self) -> (r: bool)
        ensures
            r == (self@ == 0),
    {
        self.l0 == 0 && self.l1 == 0 && self.l2 == 0 && self.l3 == 0
    }

    /// `self < other` as numbers.
    pub fn lt(&self, other: &U256) -> (r: bool)
        ensures
            r == (self@ < other@),
    {
        proof {
            lemma_order_by_limbs(*self, *other);
        }
        if self.l3 != other.l3 {
            self.l3 < other.l3
        } else if self.l2 != other.l2 {
            self.l2 < other.l2
        } else if self.l1 != other.l1 {
            self.l1 < other.l1
        } else {
            self.l0 < other.l0
        }
    }

    /// `self <= other` as numbers.
    pub fn le(&self, other: &U256) -> (r: bool)
        ensures
            r == (self@ <= other@),
    {
        !other.lt(self)
    }

    /// The smaller of two values.
    pub fn min(self, other: U256) -> (r: U256)
        ensures
            r@ == if self@ <= other@ { self@ } else { other@ },
            r == self || r == other,
    {
        if self.le(&other) {
            self
        } else {
            other
        }
    }

    /// The sum, or `None` where it does not fit in 256 bits.
    pub fn checked_add(self, other: U256) -> (r: Option<U256>)
        ensures
            match r {
                Some(s) => s@ == self@ + other@,
                None => self@ + other@ >= pow256(),
            },
    {
        let sum0: u128 = self.l0 as u128 + other.l0 as u128;
        let sum1: u128 = self.l1 as u128 + other.l1 as u128 + high64(sum0) as u128;
        let sum2: u128 = self.l2 as u128 + other.l2 as u128 + high64(sum1) as u128;
        let sum3: u128 = self.l3 as u128 + other.l3 as u128 + high64(sum2) as u128;
        if high64(sum3) != 0 {
            None
        } else {
            Some(U256 { l0: low64(sum0), l1: low64(sum1), l2: low64(sum2), l3: low64(sum3) })
        }
    }

    /// The difference, or `None` where `other` is the larger.
    pub fn checked_sub(self, other: U256) -> (r: Option<U256>)
        ensures
            match r {
                Some(d) => d@ == self@ - other@,
                None => self@ < other@,
            },
    {
        if self.lt(&other) {
            return None;
        }
        let (d0, b0) = sub_borrow(self.l0, other.l0, 0);
        let (d1, b1) = sub_borrow(self.l1, other.l1, b0);
        let (d2, b2) = sub_borrow(self.l2, other.l2, b1);
        let (d3, _) = sub_borrow(self.l3, other.l3, b2);
        Some(U256 { l0: d0, l1: d1, l2: d2, l3: d3 })
    }

    /// The product with a 64-bit factor, or `None` where it does not fit in 256 bits.
    pub fn checked_mul_u64(self, factor: u64) -> (r: Option<U256>)
        ensures
            match r {
                Some(p) => p@ == self@ * factor,
                None => self@ * factor >= pow256(),
            },
    {
        let prod0: u128 = mul_carry(self.l0, factor, 0);
        proof { lemma_split_u128(prod0); }
        let prod1: u128 = mul_carry(self.l1, factor, high64(prod0));
        proof { lemma_split_u128(prod1); }
        let prod2: u128 = mul_carry(self.l2, factor, high64(prod1));
        proof { lemma_split_u128(prod2); }
        let prod3: u128 = mul_carry(self.l3, factor, high64(prod2));
        proof {
            lemma_split_u128(prod3);
            assert(self@ * factor == (self.l0 as nat) * factor + (self.l1 as nat) * factor * pow64()
                + (self.l2 as nat) * factor * pow128() + (self.l3 as nat) * factor * pow192())
                by (nonlinear_arith)
                requires
                    self@ == (self.l0 as nat) + (self.l1 as nat) * pow64() + (self.l2 as nat)
                        * pow128() + (self.l3 as nat) * pow192(),
            ;
        }
        if high64(prod3) != 0 {
            None
        } else {
            Some(U256 { l0: low64(prod0), l1: low64(prod1), l2: low64(prod2), l3: low64(prod3) })
        }
    }

    /// The value times `2^64`, or `None` where that does not fit in 256 bits.
    fn shift_limb(self) -> (r: Option<U256>)
        ensures
            match r {
                Some(p) => p@ == self@ * pow64(),
                None => self@ * pow64() >= pow256(),
            },
    {
        if self.l3 != 0 {
            None
        } else {
            Some(U256 { l0: 0, l1: self.l0, l2: self.l1, l3: self.l2 })
        }
    }

    /// The sum of `self` and `2^64` times the product of `other` and `factor`, or `None`
    /// where that does not fit in 256 bits.
    fn mul_step(self, other: U256, factor: u64) -> (r: Option<U256>)
        ensures
            match r {
                Some(p) => p@ == other@ * factor + self@ * pow64(),
                None => other@ * factor + self@ * pow64() >= pow256(),
            },
    {
        let shifted: U256 = match self.shift_limb() {
            Some(v) => v,
            None => {
                return None;
            },
        };
        let product: U256 = match other.checked_mul_u64(factor) {
            Some(v) => v,
            None => {
                return None;
            },
        };
        product.checked_add(shifted)
    }

    /// The product, or `None` where it does not fit in 256 bits.
    pub fn checked_mul(self, other: U256) -> (r: Option<U256>)
        ensures
            match r {
                Some(p) => p@ == self@ * other@,
                None => self@ * other@ >= pow256(),
            },
    {
        let ghost a: int = self@ as int;
        proof {
            assert(a * other@ == a * other.l0 + (a * other.l1 + (a * other.l2 + (a * other.l3)
                * pow64()) * pow64()) * pow64()) by (nonlinear_arith)
                requires
                    other@ == (other.l0 as nat) + (other.l1 as nat) * pow64() + (other.l2 as nat)
                        * pow128() + (other.l3 as nat) * pow192(),
                    pow128() == pow64() * pow64(),
                    pow192() == pow64() * pow64() * pow64(),
            ;
        }
        let part3: U256 = match self.checked_mul_u64(other.l3) {
            Some(v) => v,
            None => {
                proof {
                    lemma_mul_step_grows(a * other.l3, a * other.l2);
                    lemma_mul_step_grows(a * other.l2 + (a * other.l3) * pow64(), a * other.l1);
                    lemma_mul_step_grows(
                        a * other.l1 + (a * other.l2 + (a * other.l3) * pow64()) * pow64(),
                        a * other.l0,
                    );
                }
                return None;
            },
        };
        let part2: U256 = match part3.mul_step(self, other.l2) {
            Some(v) => v,
            None => {
                proof {
                    lemma_mul_step_grows(a * other.l2 + (a * other.l3) * pow64(), a * other.l1);
                    lemma_mul_step_grows(
                        a * other.l1 + (a * other.l2 + (a * other.l3) * pow64()) * pow64(),
                        a * other.l0,
                    );
                }
                return None;
            },
        };
        let part1: U256 = match part2.mul_step(self, other.l1) {
            Some(v) => v,
            None => {
                proof {
                    lemma_mul_step_grows(
                        a * other.l1 + (a * other.l2 + (a * other.l3) * pow64()) * pow64(),
                        a * other.l0,
                    );
                }
                return None;
            },
        };
        part1.mul_step(self, other.l0)
    }

    /// Quotient and remainder of the division by `divisor`.
    pub fn div_rem(self, divisor: U256) -> (r: (U256, U256))
        requires
            divisor@ > 0,
        ensures
            r.0@ == self@ / divisor@,
            r.1@ == self@ % divisor@,
        decreases self@,
    {
        if self.lt(&divisor) {
            proof {
                vstd::arithmetic::div_mod::lemma_fundamental_div_mod_converse(
                    self@ as int,
                    divisor@ as int,
                    0,
                    self@ as int,
                );
            }
            return (U256::zero(), self);
        }
        let (half, bit) = self.div_rem_u64(2);
        assert(self@ == 2 * half@ + bit && bit < 2);
        assert(half@ < self@);
        let (q1, r1) = half.div_rem(divisor);
        proof {
            vstd::arithmetic::div_mod::lemma_fundamental_div_mod(half@ as int, divisor@ as int);
            vstd::arithmetic::div_mod::lemma_mod_bound(half@ as int, divisor@ as int);
            lemma_value_bound(self);
            lemma_value_bound(divisor);
            assert(q1@ <= half@) by (nonlinear_arith)
                requires
                    half@ == divisor@ * q1@ + r1@,
                    divisor@ >= 1,
            ;
        }
        let gap: U256 = divisor.checked_sub(r1).unwrap();
        let raised: U256 = r1.checked_add(U256::from_u64(bit)).unwrap();
        let doubled: U256 = q1.checked_add(q1).unwrap();
        let (q, r) = if gap.le(&raised) {
            (doubled.checked_add(U256::from_u64(1)).unwrap(), raised.checked_sub(gap).unwrap())
        } else {
            (doubled, raised.checked_add(r1).unwrap())
        };
        proof {
            assert(self@ == q@ * divisor@ + r@) by (nonlinear_arith)
                requires
                    self@ == 2 * half@ + bit,
                    half@ == divisor@ * q1@ + r1@,
                    (q@ == 2 * q1@ + 1 && r@ + divisor@ == 2 * r1@ + bit) || (q@ == 2 * q1@ && r@
                        == 2 * r1@ + bit),
            ;
            vstd::arithmetic::div_mod::lemma_fundamental_div_mod_converse(
                self@ as int,
                divisor@ as int,
                q@ as int,
                r@ as int,
            );
        }
        (q, r)
    }

    /// Quotient and remainder of the division by a 64-bit divisor.
    pub fn div_rem_u64(self, divisor: u64) -> (r: (U256, u64))
        requires
            divisor > 0,
        ensures
            r.0@ == self@ / (divisor as nat),
            r.1 == self@ % (divisor as nat),
    {
        let (q3, r3) = div_step(0, self.l3, divisor);
        let (q2, r2) = div_step(r3, self.l2, divisor);
        let (q1, r1) = div_step(r2, self.l1, divisor);
        let (q0, r0) = div_step(r1, self.l0, divisor);
        let q = U256 { l0: q0, l1: q1, l2: q2, l3: q3 };
        proof {
            let d = divisor as nat;
            assert(self@ == q@ * d + r0) by (nonlinear_arith)
                requires
                    self@ == (self.l0 as nat) + (self.l1 as nat) * pow64() + (self.l2 as nat)
                        * pow128() + (self.l3 as nat) * pow192(),
                    q@ == (q0 as nat) + (q1 as nat) * pow64() + (q2 as nat) * pow128() + (q3 as nat)
                        * pow192(),
                    self.l3 == q3 * d + r3,
                    r3 * pow64() + self.l2 == q2 * d + r2,
                    r2 * pow64() + self.l1 == q1 * d + r1,
                    r1 * pow64() + self.l0 == q0 * d + r0,
                    pow128() == pow64() * pow64(),
                    pow192() == pow64() * pow64() * pow64(),
            ;
            vstd::arithmetic::div_mod::lemma_fundamental_div_mod_converse(
                self@ as int,
                d as int,
                q@ as int,
                r0 as int,
            );
        }
        (q, r0)
    }
}

impl U256 {
    /// The value that 32 bytes stand for, the most significant byte first.
    #[verifier::opaque]
    pub open spec fn spec_from_be_bytes(bytes: Seq<u8>) -> U256 {
        U256 {
            l0: limb_from_be(bytes, 24),
            l1: limb_from_be(bytes, 16),
            l2: limb_from_be(bytes, 8),
            l3: limb_from_be(bytes, 0),
        }
    }

    /// The 32 bytes of the value, the most significant byte first.
    #[verifier::opaque]
    pub open spec fn spec_to_be_bytes(self) -> Seq<u8> {
        limb_to_be(self.l3) + limb_to_be(self.l2) + limb_to_be(self.l1) + limb_to_be(self.l0)
    }

    /// Reads a value from 32 bytes, the most significant byte first.
    pub fn from_be_bytes(bytes: &[u8; 32]) -> (r: U256)
        ensures
            r == U256::spec_from_be_bytes(bytes@),
    {
        reveal(U256::spec_from_be_bytes);
        U256 {
            l0: join_limb(bytes[24], bytes[25], bytes[26], bytes[27], bytes[28], bytes[29], bytes[30], bytes[31]),
            l1: join_limb(bytes[16], bytes[17], bytes[18], bytes[19], bytes[20], bytes[21], bytes[22], bytes[23]),
            l2: join_limb(bytes[8], bytes[9], bytes[10], bytes[11], bytes[12], bytes[13], bytes[14], bytes[15]),
            l3: join_limb(bytes[0], bytes[1], bytes[2], bytes[3], bytes[4], bytes[5], bytes[6], bytes[7]),
        }
    }

    /// Writes the value as 32 bytes, the most significant byte first.
    pub fn to_be_bytes(&self) -> (r: [u8; 32])
        ensures
            r@ == self.spec_to_be_bytes(),
    {
        reveal(U256::spec_to_be_bytes);
        let a: [u8; 8] = split_limb(self.l3);
        let b: [u8; 8] = split_limb(self.l2);
        let c: [u8; 8] = split_limb(self.l1);
        let d: [u8; 8] = split_limb(self.l0);
        let r: [u8; 32] = [
            a[0], a[1], a[2], a[3], a[4], a[5], a[6], a[7],
            b[0], b[1], b[2], b[3], b[4], b[5], b[6], b[7],
            c[0], c[1], c[2], c[3], c[4], c[5], c[6], c[7],
            d[0], d[1], d[2], d[3], d[4], d[5], d[6], d[7],
        ];
        assert(r@ =~= self.spec_to_be_bytes());
        r
    }

    /// Reading back the bytes of a value gives the value.
    pub proof fn lemma_be_bytes_round_trip(self)
        ensures
            self.spec_to_be_bytes().len() == 32,
            U256::spec_from_be_bytes(self.spec_to_be_bytes()) == self,
    {
        reveal(U256::spec_to_be_bytes);
        reveal(U256::spec_from_be_bytes);
        let s = self.spec_to_be_bytes();
        lemma_limb_round_trip(self.l3);
        lemma_limb_round_trip(self.l2);
        lemma_limb_round_trip(self.l1);
        lemma_limb_round_trip(self.l0);
        assert(s.subrange(0, 8) =~= limb_to_be(self.l3));
        assert(s.subrange(8, 16) =~= limb_to_be(self.l2));
        assert(s.subrange(16, 24) =~= limb_to_be(self.l1));
        assert(s.subrange(24, 32) =~= limb_to_be(self.l0));
        lemma_limb_from_be_window(s, 0);
        lemma_limb_from_be_window(s, 8);
        lemma_limb_from_be_window(s, 16);
        lemma_limb_from_be_window(s, 24);
    }

    /// Writing the value that 32 bytes stand for gives the bytes.
    pub proof fn lemma_be_bytes_read_back(bytes: Seq<u8>)
        requires
            bytes.len() == 32,
        ensures
            U256::spec_from_be_bytes(bytes).spec_to_be_bytes() == bytes,
    {
        reveal(U256::spec_to_be_bytes);
        reveal(U256::spec_from_be_bytes);
        lemma_limb_read_back(bytes, 0);
        lemma_limb_read_back(bytes, 8);
        lemma_limb_read_back(bytes, 16);
        lemma_limb_read_back(bytes, 24);
        assert(U256::spec_from_be_bytes(bytes).spec_to_be_bytes() =~= bytes.subrange(0, 8)
            + bytes.subrange(8, 16) + bytes.subrange(16, 24) + bytes.subrange(24, 32));
        assert(bytes.subrange(0, 8) + bytes.subrange(8, 16) + bytes.subrange(16, 24)
            + bytes.subrange(24, 32) =~= bytes);
    }

    /// The decimal digits of the value, as ASCII, without leading zeros.
    pub fn to_decimal(&self) -> (r: Vec<u8>)
        ensures
            r@ == decimal_digits(self@),
    {
        let mut out: Vec<u8> = Vec::new();
        let mut rest: U256 = *self;
        loop
            invariant_except_break
                decimal_digits(self@) == decimal_digits(rest@) + out@,
            ensures
                out@ == decimal_digits(self@),
            decreases rest@,
        {
            let (q, d) = rest.div_rem_u64(10);
            out.insert(0, 48 + d as u8);
            proof {
                reveal_with_fuel(decimal_digits, 2);
                assert(decimal_digits(rest@) =~= if rest@ < 10 {
                    seq![(48 + rest@ % 10) as u8]
                } else {
                    decimal_digits(rest@ / 10).push((48 + rest@ % 10) as u8)
                });
            }
            if q.is_zero() {
                assert(out@ =~= decimal_digits(self@));
                break ;
            }
            assert(decimal_digits(self@) =~= decimal_digits(q@) + out@);
            rest = q;
        }
        out
    }

    /// Reads a value from ASCII decimal digits; `None` where the text is empty, holds
    /// anything but digits, or stands for a number of more than 256 bits.
    pub fn from_decimal(text: &[u8]) -> (r: Option<U256>)
        ensures
            match r {
                Some(v) => is_decimal(text@) && v@ == decimal_value(text@),
                None => !is_decimal(text@) || decimal_value(text@) >= pow256(),
            },
    {
        if text.len() == 0 {
            return None;
        }
        let mut acc: U256 = U256::zero();
        let mut i: usize = 0;
        while i < text.len()
            invariant
                0 <= i <= text.len(),
                forall|j: int| 0 <= j < i ==> is_digit(#[trigger] text@[j]),
                acc@ == decimal_value(text@.take(i as int)),
            decreases text.len() - i,
        {
            let c: u8 = text[i];
            if c < 48 || c > 57 {
                return None;
            }
            proof {
                assert(text@.take(i + 1).drop_last() =~= text@.take(i as int));
                lemma_decimal_prefix(text@, i + 1);
            }
            let shifted = match acc.checked_mul_u64(10) {
                Some(v) => v,
                None => {
                    return None;
                },
            };
            acc = match shifted.checked_add(U256::from_u64((c - 48) as u64)) {
                Some(v) => v,
                None => {
                    return None;
                },
            };
            i += 1;
        }
        assert(text@.take(i as int) =~= text@);
        Some(acc)
    }
}

/// The 64-bit number that the eight bytes of `bytes` from `at` on stand for, the most
/// significant first.
pub open spec fn limb_from_be(bytes: Seq<u8>, at: int) -> u64 {
    join_bytes(
        bytes[at],
        bytes[at + 1],
        bytes[at + 2],
        bytes[at + 3],
        bytes[at + 4],
        bytes[at + 5],
        bytes[at + 6],
        bytes[at + 7],
    )
}

/// The 64-bit number with the given bytes, the most significant first.
pub open spec fn join_bytes(b0: u8, b1: u8, b2: u8, b3: u8, b4: u8, b5: u8, b6: u8, b7: u8) -> u64 {
    ((b0 as int) * 0x100_0000_0000_0000 + (b1 as int) * 0x1_0000_0000_0000 + (b2 as int)
        * 0x100_0000_0000 + (b3 as int) * 0x1_0000_0000 + (b4 as int) * 0x100_0000 + (b5 as int)
        * 0x1_0000 + (b6 as int) * 0x100 + (b7 as int)) as u64
}

/// The eight bytes of a 64-bit number, the most significant first.
pub open spec fn limb_to_be(x: u64) -> Seq<u8> {
    seq![
        ((x / 0x100_0000_0000_0000) % 256) as u8,
        ((x / 0x1_0000_0000_0000) % 256) as u8,
        ((x / 0x100_0000_0000) % 256) as u8,
        ((x / 0x1_0000_0000) % 256) as u8,
        ((x / 0x100_0000) % 256) as u8,
        ((x / 0x1_0000) % 256) as u8,
        ((x / 0x100) % 256) as u8,
        (x % 256) as u8,
    ]
}

/// Reading a limb at `at` reads the eight bytes that start there.
pub proof fn lemma_limb_from_be_window(bytes: Seq<u8>, at: int)
    requires
        0 <= at,
        at + 8 <= bytes.len(),
    ensures
        limb_from_be(bytes, at) == limb_from_be(bytes.subrange(at, at + 8), 0),
{
}

/// Joining the bytes of a limb gives the limb.
pub proof fn lemma_limb_round_trip(x: u64)
    ensures
        limb_to_be(x).len() == 8,
        limb_from_be(limb_to_be(x), 0) == x,
{
    assert(((x / 0x100_0000_0000_0000) % 256) * 0x100_0000_0000_0000 + ((x / 0x1_0000_0000_0000)
        % 256) * 0x1_0000_0000_0000 + ((x / 0x100_0000_0000) % 256) * 0x100_0000_0000 + ((x
        / 0x1_0000_0000) % 256) * 0x1_0000_0000 + ((x / 0x100_0000) % 256) * 0x100_0000 + ((x
        / 0x1_0000) % 256) * 0x1_0000 + ((x / 0x100) % 256) * 0x100 + (x % 256) == x)
        by (bit_vector);
}

/// The bytes of the limb that eight bytes stand for are those bytes.
pub proof fn lemma_limb_read_back(bytes: Seq<u8>, at: int)
    requires
        0 <= at,
        at + 8 <= bytes.len(),
    ensures
        limb_to_be(limb_from_be(bytes, at)) == bytes.subrange(at, at + 8),
{
    lemma_bytes_of_joined(
        bytes[at] as u64,
        bytes[at + 1] as u64,
        bytes[at + 2] as u64,
        bytes[at + 3] as u64,
        bytes[at + 4] as u64,
        bytes[at + 5] as u64,
        bytes[at + 6] as u64,
        bytes[at + 7] as u64,
    );
    assert(limb_to_be(limb_from_be(bytes, at)) =~= bytes.subrange(at, at + 8));
}

/// Each byte of a number that was joined from eight bytes is the byte it was joined
/// from.
proof fn lemma_bytes_of_joined(b0: u64, b1: u64, b2: u64, b3: u64, b4: u64, b5: u64, b6: u64, b7: u64)
    requires
        b0 < 256,
        b1 < 256,
        b2 < 256,
        b3 < 256,
        b4 < 256,
        b5 < 256,
        b6 < 256,
        b7 < 256,
    ensures
        ({
            let x = b0 * 0x100_0000_0000_0000 + b1 * 0x1_0000_0000_0000 + b2 * 0x100_0000_0000 + b3
                * 0x1_0000_0000 + b4 * 0x100_0000 + b5 * 0x1_0000 + b6 * 0x100 + b7;
            &&& x <= u64::MAX
            &&& (x / 0x100_0000_0000_0000) % 256 == b0
            &&& (x / 0x1_0000_0000_0000) % 256 == b1
            &&& (x / 0x100_0000_0000) % 256 == b2
            &&& (x / 0x1_0000_0000) % 256 == b3
            &&& (x / 0x100_0000) % 256 == b4
            &&& (x / 0x1_0000) % 256 == b5
            &&& (x / 0x100) % 256 == b6
            &&& x % 256 == b7
        }),
{
    let r6: int = b6 * 0x100 + b7;
    let r5: int = b5 * 0x1_0000 + r6;
    let r4: int = b4 * 0x100_0000 + r5;
    let r3: int = b3 * 0x1_0000_0000 + r4;
    let r2: int = b2 * 0x100_0000_0000 + r3;
    let r1: int = b1 * 0x1_0000_0000_0000 + r2;
    let x: int = b0 * 0x100_0000_0000_0000 + r1;
    let q6: int = b0 * 0x1_0000_0000_0000 + b1 * 0x100_0000_0000 + b2 * 0x1_0000_0000 + b3 * 0x100_0000
        + b4 * 0x1_0000 + b5 * 0x100 + b6;
    let q5: int = b0 * 0x100_0000_0000 + b1 * 0x1_0000_0000 + b2 * 0x100_0000 + b3 * 0x1_0000 + b4
        * 0x100 + b5;
    let q4: int = b0 * 0x1_0000_0000 + b1 * 0x100_0000 + b2 * 0x1_0000 + b3 * 0x100 + b4;
    let q3: int = b0 * 0x100_0000 + b1 * 0x1_0000 + b2 * 0x100 + b3;
    let q2: int = b0 * 0x1_0000 + b1 * 0x100 + b2;
    let q1: int = b0 * 0x100 + b1;
    let q0: int = b0 as int;
    vstd::arithmetic::div_mod::lemma_fundamental_div_mod_converse(x, 0x100_0000_0000_0000, q0, r1);
    vstd::arithmetic::div_mod::lemma_fundamental_div_mod_converse(x, 0x1_0000_0000_0000, q1, r2);
    vstd::arithmetic::div_mod::lemma_fundamental_div_mod_converse(x, 0x100_0000_0000, q2, r3);
    vstd::arithmetic::div_mod::lemma_fundamental_div_mod_converse(x, 0x1_0000_0000, q3, r4);
    vstd::arithmetic::div_mod::lemma_fundamental_div_mod_converse(x, 0x100_0000, q4, r5);
    vstd::arithmetic::div_mod::lemma_fundamental_div_mod_converse(x, 0x1_0000, q5, r6);
    vstd::arithmetic::div_mod::lemma_fundamental_div_mod_converse(x, 0x100, q6, b7 as int);
    vstd::arithmetic::div_mod::lemma_fundamental_div_mod_converse(q0, 256, 0, b0 as int);
    vstd::arithmetic::div_mod::lemma_fundamental_div_mod_converse(q1, 256, q0, b1 as int);
    vstd::arithmetic::div_mod::lemma_fundamental_div_mod_converse(q2, 256, q1, b2 as int);
    vstd::arithmetic::div_mod::lemma_fundamental_div_mod_converse(q3, 256, q2, b3 as int);
    vstd::arithmetic::div_mod::lemma_fundamental_div_mod_converse(q4, 256, q3, b4 as int);
    vstd::arithmetic::div_mod::lemma_fundamental_div_mod_converse(q5, 256, q4, b5 as int);
    vstd::arithmetic::div_mod::lemma_fundamental_div_mod_converse(q6, 256, q5, b6 as int);
    vstd::arithmetic::div_mod::lemma_fundamental_div_mod_converse(x, 256, q6, b7 as int);
}

/// The 64-bit number with the given bytes, the most significant first.
pub fn join_limb(b0: u8, b1: u8, b2: u8, b3: u8, b4: u8, b5: u8, b6: u8, b7: u8) -> (r: u64)
    ensures
        r == join_bytes(b0, b1, b2, b3, b4, b5, b6, b7),
{
    (b0 as u64) * 0x100_0000_0000_0000 + (b1 as u64) * 0x1_0000_0000_0000 + (b2 as u64)
        * 0x100_0000_0000 + (b3 as u64) * 0x1_0000_0000 + (b4 as u64) * 0x100_0000 + (b5 as u64)
        * 0x1_0000 + (b6 as u64) * 0x100 + (b7 as u64)
}

/// The eight bytes of a 64-bit number, the most significant first.
fn split_limb(x: u64) -> (r: [u8; 8])
    ensures
        r@ == limb_to_be(x),
{
    let r: [u8; 8] = [
        ((x / 0x100_0000_0000_0000) % 256) as u8,
        ((x / 0x1_0000_0000_0000) % 256) as u8,
        ((x / 0x100_0000_0000) % 256) as u8,
        ((x / 0x1_0000_0000) % 256) as u8,
        ((x / 0x100_0000) % 256) as u8,
        ((x / 0x1_0000) % 256) as u8,
        ((x / 0x100) % 256) as u8,
        (x % 256) as u8,
    ];
    assert(r@ =~= limb_to_be(x));
    r
}

/// Whether a byte is an ASCII decimal digit.
pub open spec fn is_digit(c: u8) -> bool {
    48 <= c <= 57
}

/// The number that an ASCII digit stands for; zero for any other byte.
pub open spec fn digit_value(c: u8) -> nat {
    if is_digit(c) {
        (c - 48) as nat
    } else {
        0
    }
}

/// Whether a text is a non-empty run of ASCII decimal digits.
pub open spec fn is_decimal(text: Seq<u8>) -> bool {
    text.len() > 0 && forall|i: int| 0 <= i < text.len() ==> is_digit(#[trigger] text[i])
}

/// The number that a run of decimal digits stands for.
pub open spec fn decimal_value(text: Seq<u8>) -> nat
    decreases text.len(),
{
    if text.len() == 0 {
        0
    } else {
        decimal_value(text.drop_last()) * 10 + digit_value(text.last())
    }
}

/// The decimal digits of a number, as ASCII, without leading zeros.
pub open spec fn decimal_digits(n: nat) -> Seq<u8>
    decreases n,
{
    if n < 10 {
        seq![(48 + n) as u8]
    } else {
        decimal_digits(n / 10).push((48 + n % 10) as u8)
    }
}

/// The digits of a number are a decimal text that stands for the number.
pub proof fn lemma_decimal_digits_value(n: nat)
    ensures
        is_decimal(decimal_digits(n)),
        decimal_value(decimal_digits(n)) == n,
    decreases n,
{
    if n < 10 {
        let s = decimal_digits(n);
        assert(s.drop_last() =~= Seq::<u8>::empty());
        reveal_with_fuel(decimal_value, 2);
    } else {
        lemma_decimal_digits_value(n / 10);
        let s = decimal_digits(n);
        assert(s.drop_last() =~= decimal_digits(n / 10));
    }
}

/// A text stands for at least as much as any of its prefixes.
pub proof fn lemma_decimal_prefix(text: Seq<u8>, k: int)
    requires
        0 <= k <= text.len(),
    ensures
        decimal_value(text.take(k)) <= decimal_value(text),
    decreases text.len() - k,
{
    if k == text.len() {
        assert(text.take(k) =~= text);
    } else {
        lemma_decimal_prefix(text, k + 1);
        assert(text.take(k + 1).drop_last() =~= text.take(k));
    }
}

/// A step of a multiplication does not make the number smaller.
proof fn lemma_mul_step_grows(high: int, low: int)
    requires
        high >= 0,
        low >= 0,
    ensures
        low + high * pow64() >= high,
{
    assert(high * pow64() >= high) by (nonlinear_arith)
        requires
            high >= 0,
            pow64() >= 1,
    ;
}

/// The low 64 bits of a 128-bit number.
fn low64(x: u128) -> (r: u64)
    ensures
        r == x % 0x1_0000_0000_0000_0000,
{
    proof { lemma_split_u128(x); }
    (x & 0xFFFF_FFFF_FFFF_FFFF) as u64
}

/// The high 64 bits of a 128-bit number.
fn high64(x: u128) -> (r: u64)
    ensures
        r == x / 0x1_0000_0000_0000_0000,
{
    proof { lemma_split_u128(x); }
    (x >> 64) as u64
}

/// Shifting and masking a 128-bit number agree with division and remainder by `2^64`.
proof fn lemma_split_u128(x: u128)
    ensures
        x >> 64 == x / 0x1_0000_0000_0000_0000,
        x & 0xFFFF_FFFF_FFFF_FFFF == x % 0x1_0000_0000_0000_0000,
        (x >> 64) < 0x1_0000_0000_0000_0000,
        (x & 0xFFFF_FFFF_FFFF_FFFF) < 0x1_0000_0000_0000_0000,
{
    assert(x >> 64 == x / 0x1_0000_0000_0000_0000) by (bit_vector);
    assert(x & 0xFFFF_FFFF_FFFF_FFFF == x % 0x1_0000_0000_0000_0000) by (bit_vector);
    assert((x >> 64) < 0x1_0000_0000_0000_0000) by (bit_vector);
    assert((x & 0xFFFF_FFFF_FFFF_FFFF) < 0x1_0000_0000_0000_0000) by (bit_vector);
}

/// One limb of a subtraction: `a - b - borrow_in`, with the borrow it leaves.
fn sub_borrow(a: u64, b: u64, borrow_in: u64) -> (r: (u64, u64))
    requires
        borrow_in <= 1,
    ensures
        r.1 <= 1,
        r.0 as int - (r.1 as int) * 0x1_0000_0000_0000_0000 == a as int - b as int - borrow_in as int,
{
    let need: u128 = b as u128 + borrow_in as u128;
    if a as u128 >= need {
        ((a as u128 - need) as u64, 0)
    } else {
        ((a as u128 + 0x1_0000_0000_0000_0000u128 - need) as u64, 1)
    }
}

/// One limb of a multiplication: `a * b + carry`, which always fits in 128 bits.
fn mul_carry(a: u64, b: u64, carry: u64) -> (r: u128)
    ensures
        r == (a as nat) * (b as nat) + carry,
{
    assert((a as nat) * (b as nat) <= 0xFFFF_FFFF_FFFF_FFFF * 0xFFFF_FFFF_FFFF_FFFF)
        by (nonlinear_arith)
        requires
            a <= 0xFFFF_FFFF_FFFF_FFFF,
            b <= 0xFFFF_FFFF_FFFF_FFFF,
    ;
    (a as u128) * (b as u128) + carry as u128
}

/// One limb of a long division: divides `rem * 2^64 + limb` by `divisor`.
fn div_step(rem: u64, limb: u64, divisor: u64) -> (r: (u64, u64))
    requires
        divisor > 0,
        rem < divisor,
    ensures
        r.1 < divisor,
        (rem as nat) * pow64() + limb == (r.0 as nat) * (divisor as nat) + r.1,
{
    let cur: u128 = (rem as u128) * 0x1_0000_0000_0000_0000u128 + limb as u128;
    let q: u128 = cur / (divisor as u128);
    let m: u128 = cur % (divisor as u128);
    proof {
        vstd::arithmetic::div_mod::lemma_fundamental_div_mod(cur as int, divisor as int);
        assert(cur == (rem as nat) * pow64() + limb);
        assert((divisor as int) * (q as int) == (q as nat) * (divisor as nat)) by (nonlinear_arith);
        assert(q < 0x1_0000_0000_0000_0000) by (nonlinear_arith)
            requires
                cur == (divisor as int) * q + m,
                0 <= m,
                cur < (rem as int + 1) * 0x1_0000_0000_0000_0000,
                rem + 1 <= divisor,
                divisor > 0,
        ;
    }
    (q as u64, m as u64)
}

} // verus!
