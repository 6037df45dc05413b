use vstd::prelude::*;
use vstd::arithmetic::div_mod::{
    lemma_div_denominator, lemma_div_is_ordered, lemma_div_pos_is_pos, lemma_fundamental_div_mod,
    lemma_fundamental_div_mod_converse_div, lemma_fundamental_div_mod_converse_mod,
    lemma_hoist_over_denominator, lemma_mod_multiples_vanish,
};
use vstd::arithmetic::mul::{
    lemma_mul_inequality, lemma_mul_is_associative, lemma_mul_is_commutative,
    lemma_mul_is_distributive_add, lemma_mul_is_distributive_add_other_way,
    lemma_mul_is_distributive_sub_other_way,
};
use vstd::arithmetic::power2::{lemma2_to64, lemma2_to64_rest, lemma_pow2_adds, pow2};
use vstd::bits::{lemma_u64_low_bits_mask_is_mod, lemma_u64_shr_is_div};

verus! {

/// `a <= b` scales to `a * c <= b * c`.
pub proof fn lemma_scale(a: nat, b: nat, c: nat)
    requires
        a <= b,
    ensures
        a * c <= b * c,
{
    lemma_mul_inequality(a as int, b as int, c as int);
}

/// `(a + 1) * c` unfolds to `a * c + c`.
pub proof fn lemma_succ_scale(a: nat, c: nat)
    ensures
        (a + 1) * c == a * c + c,
{
    lemma_mul_is_distributive_add_other_way(c as int, a as int, 1);
}

/// One 256-bit EVM word, stored as four 64-bit limbs, least significant first.
///
/// `as_nat` is the mathematical value of the word; every contract in the
/// crate speaks of words through it (or through the limbs directly, for
/// bitwise operations).
#[derive(Clone, Copy, Debug, PartialEq, Eq, Structural)]
pub struct Word {
    pub d0: u64,
    pub d1: u64,
    pub d2: u64,
    pub d3: u64,
}

pub open spec fn pow2_64() -> nat {
    0x1_0000_0000_0000_0000
}

pub open spec fn pow2_128() -> nat {
    pow2_64() * pow2_64()
}

pub open spec fn pow2_192() -> nat {
    pow2_128() * pow2_64()
}

pub open spec fn pow2_255() -> nat {
    0x8000_0000_0000_0000 * pow2_192()
}

pub open spec fn pow2_256() -> nat {
    pow2_192() * pow2_64()
}

/// Largest value representable in a 256-bit word.
pub open spec fn word_max() -> nat {
    (pow2_256() - 1) as nat
}

impl Word {
    /// The value of this word as an unbounded natural number.
    pub open spec fn as_nat(self) -> nat {
        self.d0 as nat + self.d1 as nat * pow2_64() + self.d2 as nat * pow2_128()
            + self.d3 as nat * pow2_192()
    }

    /// The value of this word read as a 256-bit two's-complement integer.
    pub open spec fn as_int(self) -> int {
        if self.as_nat() < pow2_255() {
            self.as_nat() as int
        } else {
            self.as_nat() - pow2_256()
        }
    }

    /// The three low limbs stay under the weight of the next limb.
    pub proof fn lemma_tail_bound(self)
        ensures
            self.d0 + self.d1 as nat * pow2_64() < pow2_128(),
            self.d0 + self.d1 as nat * pow2_64() + self.d2 as nat * pow2_128() < pow2_192(),
    {
        lemma_scale(self.d1 as nat, (pow2_64() - 1) as nat, pow2_64());
        lemma_scale(self.d2 as nat, (pow2_64() - 1) as nat, pow2_128());
    }

    pub proof fn lemma_as_nat_bound(self)
        ensures
            self.as_nat() < pow2_256(),
    {
        self.lemma_tail_bound();
        lemma_scale(self.d3 as nat, (pow2_64() - 1) as nat, pow2_192());
    }

    /// The low limb is the value modulo 2^64, and the rest is the quotient.
    pub proof fn lemma_split_low(self)
        ensures
            self.as_nat() % pow2_64() == self.d0,
            self.as_nat() / pow2_64() == self.d1 + self.d2 * pow2_64() + self.d3 * pow2_128(),
    {
        let q = self.d1 + self.d2 * pow2_64() + self.d3 * pow2_128();
        assert(q * pow2_64() == self.d1 as nat * pow2_64() + (self.d2 as nat * pow2_64())
            * pow2_64() + (self.d3 as nat * pow2_128()) * pow2_64()) by {
            lemma_mul_is_distributive_add_other_way(
                pow2_64() as int,
                self.d1 + self.d2 * pow2_64(),
                self.d3 * pow2_128(),
            );
            lemma_mul_is_distributive_add_other_way(
                pow2_64() as int,
                self.d1 as int,
                self.d2 * pow2_64(),
            );
        }
        assert((self.d2 as nat * pow2_64()) * pow2_64() == self.d2 as nat * pow2_128()) by {
            vstd::arithmetic::mul::lemma_mul_is_associative(
                self.d2 as int,
                pow2_64() as int,
                pow2_64() as int,
            );
        }
        assert((self.d3 as nat * pow2_128()) * pow2_64() == self.d3 as nat * pow2_192()) by {
            vstd::arithmetic::mul::lemma_mul_is_associative(
                self.d3 as int,
                pow2_128() as int,
                pow2_64() as int,
            );
        }
        assert(self.as_nat() == q * pow2_64() + self.d0);
        lemma_fundamental_div_mod_converse_mod(
            self.as_nat() as int,
            pow2_64() as int,
            q,
            self.d0 as int,
        );
        lemma_fundamental_div_mod_converse_div(
            self.as_nat() as int,
            pow2_64() as int,
            q,
            self.d0 as int,
        );
    }

    /// Splitting the value at the second limb boundary.
    pub proof fn lemma_split_128(self)
        ensures
            self.as_nat() % pow2_128() == self.d0 + self.d1 as nat * pow2_64(),
            self.as_nat() / pow2_128() == self.d2 + self.d3 as nat * pow2_64(),
    {
        let q = self.d2 + self.d3 as nat * pow2_64();
        let r = self.d0 + self.d1 as nat * pow2_64();
        self.lemma_tail_bound();
        assert(q * pow2_128() == self.d2 as nat * pow2_128() + (self.d3 as nat * pow2_64())
            * pow2_128()) by {
            lemma_mul_is_distributive_add_other_way(
                pow2_128() as int,
                self.d2 as int,
                self.d3 as nat * pow2_64() as int,
            );
        }
        assert((self.d3 as nat * pow2_64()) * pow2_128() == self.d3 as nat * pow2_192()) by {
            lemma_mul_is_associative(self.d3 as int, pow2_64() as int, pow2_128() as int);
        }
        assert(self.as_nat() == q * pow2_128() + r);
        lemma_fundamental_div_mod_converse_mod(
            self.as_nat() as int,
            pow2_128() as int,
            q as int,
            r as int,
        );
        lemma_fundamental_div_mod_converse_div(
            self.as_nat() as int,
            pow2_128() as int,
            q as int,
            r as int,
        );
    }

    /// Splitting the value at the top limb boundary.
    pub proof fn lemma_split_192(self)
        ensures
            self.as_nat() % pow2_192() == self.d0 + self.d1 as nat * pow2_64() + self.d2 as nat
                * pow2_128(),
            self.as_nat() / pow2_192() == self.d3,
    {
        let r = self.d0 + self.d1 as nat * pow2_64() + self.d2 as nat * pow2_128();
        self.lemma_tail_bound();
        lemma_fundamental_div_mod_converse_mod(
            self.as_nat() as int,
            pow2_192() as int,
            self.d3 as int,
            r as int,
        );
        lemma_fundamental_div_mod_converse_div(
            self.as_nat() as int,
            pow2_192() as int,
            self.d3 as int,
            r as int,
        );
    }

    /// Two words with the same value have the same limbs.
    pub proof fn lemma_as_nat_injective(self, other: Word)
        requires
            self.as_nat() == other.as_nat(),
        ensures
            self == other,
    {
        if self != other {
            if self.d3 != other.d3 {
                if self.d3 < other.d3 {
                    lemma_lex_lt(self, other);
                } else {
                    lemma_lex_lt(other, self);
                }
            } else if self.d2 != other.d2 {
                if self.d2 < other.d2 {
                    lemma_lex_lt(self, other);
                } else {
                    lemma_lex_lt(other, self);
                }
            } else if self.d1 != other.d1 {
                if self.d1 < other.d1 {
                    lemma_lex_lt(self, other);
                } else {
                    lemma_lex_lt(other, self);
                }
            }
        }
    }

    /// The all-zero word.
    pub fn zero() -> (r: Word)
        ensures
            r.as_nat() == 0,
            r == (Word { d0: 0u64, d1: 0u64, d2: 0u64, d3: 0u64 }),
    {
        Word { d0: 0, d1: 0, d2: 0, d3: 0 }
    }

    /// The word with value one.
    pub fn one() -> (r: Word)
        ensures
            r.as_nat() == 1,
    {
        Word { d0: 1, d1: 0, d2: 0, d3: 0 }
    }

    pub fn from_u64(x: u64) -> (r: Word)
        ensures
            r.as_nat() == x as nat,
    {
        Word { d0: x, d1: 0, d2: 0, d3: 0 }
    }

    /// Each nonzero limb forces a lower bound on the value.
    pub proof fn lemma_limb_lower(self)
        ensures
            self.d1 != 0 ==> self.as_nat() >= pow2_64(),
            self.d2 != 0 ==> self.as_nat() >= pow2_128(),
            self.d3 != 0 ==> self.as_nat() >= pow2_192(),
    {
        if self.d1 != 0 {
            lemma_scale(1, self.d1 as nat, pow2_64());
        }
        if self.d2 != 0 {
            lemma_scale(1, self.d2 as nat, pow2_128());
        }
        if self.d3 != 0 {
            lemma_scale(1, self.d3 as nat, pow2_192());
        }
    }

    /// True exactly when the word's value is zero.
    pub fn is_zero(&self) -> (r: bool)
        ensures
            r == (self.as_nat() == 0),
    {
        proof {
            self.lemma_limb_lower();
        }
        self.d0 == 0 && self.d1 == 0 && self.d2 == 0 && self.d3 == 0
    }

    /// Whether the value fits in a `u64`, i.e. the upper limbs are zero.
    pub fn fits_u64(&self) -> (r: bool)
        ensures
            r == (self.as_nat() < pow2_64()),
            r ==> self.as_nat() == self.d0,
    {
        proof {
            self.lemma_limb_lower();
        }
        self.d1 == 0 && self.d2 == 0 && self.d3 == 0
    }

    /// The low 64 bits of the word.
    pub fn low_u64(&self) -> (r: u64)
        ensures
            r == self.as_nat() % pow2_64(),
    {
        proof {
            self.lemma_split_low();
        }
        self.d0
    }

    /// Unsigned comparison: the value of `self` is less than the value of `other`.
    pub fn lt(&self, other: &Word) -> (r: bool)
        ensures
            r == (self.as_nat() < other.as_nat()),
    {
        proof {
            lemma_lex_order(*self, *other);
        }
        if self.d3 != other.d3 {
            self.d3 < other.d3
        } else if self.d2 != other.d2 {
            self.d2 < other.d2
        } else if self.d1 != other.d1 {
            self.d1 < other.d1
        } else {
            self.d0 < other.d0
        }
    }

    /// The sign bit of the word read as a two's-complement integer.
    pub fn is_negative(&self) -> (r: bool)
        ensures
            r == (self.as_int() < 0),
    {
        proof {
            lemma_sign_bit(*self);
            self.lemma_as_nat_bound();
        }
        self.d3 >= 0x8000_0000_0000_0000
    }

    /// Quotient of the value by each limb weight, with the limbs above
    /// gathered into a single coefficient of 2^64.
    proof fn lemma_quotient_at_limb(self, i: nat)
        requires
            i < 4,
        ensures
            self.as_nat() / pow2(64 * i) == self.limb(i) + self.high_part(i) * pow2_64(),
    {
        lemma_pow2_bridge();
        if i == 0 {
            assert(pow2(0) == 1) by {
                lemma2_to64();
            }
            assert(self.as_nat() / 1 == self.as_nat());
            assert(self.high_part(0) * pow2_64() == self.d1 as nat * pow2_64() + (self.d2 as nat
                * pow2_64()) * pow2_64() + (self.d3 as nat * pow2_128()) * pow2_64()) by {
                lemma_mul_is_distributive_add_other_way(
                    pow2_64() as int,
                    self.d1 + self.d2 as nat * pow2_64(),
                    self.d3 as nat * pow2_128() as int,
                );
                lemma_mul_is_distributive_add_other_way(
                    pow2_64() as int,
                    self.d1 as int,
                    self.d2 as nat * pow2_64() as int,
                );
            }
            lemma_mul_is_associative(self.d2 as int, pow2_64() as int, pow2_64() as int);
            lemma_mul_is_associative(self.d3 as int, pow2_128() as int, pow2_64() as int);
        } else if i == 1 {
            self.lemma_split_low();
            assert(self.high_part(1) * pow2_64() == self.d2 as nat * pow2_64() + (self.d3 as nat
                * pow2_64()) * pow2_64()) by {
                lemma_mul_is_distributive_add_other_way(
                    pow2_64() as int,
                    self.d2 as int,
                    self.d3 as nat * pow2_64() as int,
                );
            }
            lemma_mul_is_associative(self.d3 as int, pow2_64() as int, pow2_64() as int);
        } else if i == 2 {
            self.lemma_split_128();
        } else {
            self.lemma_split_192();
        }
    }

    /// The limbs of the word by index.
    pub open spec fn limb(self, i: nat) -> u64 {
        if i == 0 {
            self.d0
        } else if i == 1 {
            self.d1
        } else if i == 2 {
            self.d2
        } else {
            self.d3
        }
    }

    /// The limbs strictly above limb `i`, packed into one number.
    spec fn high_part(self, i: nat) -> nat {
        if i == 0 {
            self.d1 as nat + self.d2 as nat * pow2_64() + self.d3 as nat * pow2_128()
        } else if i == 1 {
            self.d2 as nat + self.d3 as nat * pow2_64()
        } else if i == 2 {
            self.d3 as nat
        } else {
            0
        }
    }

    /// Byte `k` of the value, counting from the least significant byte.
    pub fn byte_at(&self, k: usize) -> (r: u8)
        requires
            k < 32,
        ensures
            r as nat == (self.as_nat() / pow2(8 * k as nat)) % 256,
    {
        let i = k / 8;
        let sh: u64 = (8 * (k % 8)) as u64;
        let limb = if i == 0 {
            self.d0
        } else if i == 1 {
            self.d1
        } else if i == 2 {
            self.d2
        } else {
            self.d3
        };
        proof {
            self.lemma_byte_at(k as nat);
        }
        ((limb >> sh) & 0xff) as u8
    }

    proof fn lemma_byte_at(self, k: nat)
        requires
            k < 32,
        ensures
            ((self.limb(k / 8) >> ((8 * (k % 8)) as u64)) & 0xff) as nat == (self.as_nat() / pow2(
                8 * k,
            )) % 256,
    {
        let i = k / 8;
        let s = 8 * (k % 8);
        let ll = self.limb(i);
        let hh = self.high_part(i);
        lemma_pow2_bridge();
        lemma_fundamental_div_mod(k as int, 8);
        vstd::arithmetic::div_mod::lemma_div_basics(self.as_nat() as int);
        self.lemma_quotient_at_limb(i);
        // Split the division by 2^(8k) into the limb part and the bit part.
        assert(pow2(8 * k) == pow2(64 * i) * pow2(s)) by {
            lemma_pow2_adds(64 * i, s);
        }
        vstd::arithmetic::power2::lemma_pow2_pos(64 * i);
        vstd::arithmetic::power2::lemma_pow2_pos(s);
        lemma_div_denominator(self.as_nat() as int, pow2(64 * i) as int, pow2(s) as int);
        assert(self.as_nat() / pow2(8 * k) == (ll + hh * pow2_64()) / pow2(s) as int);
        // Hoist the high limbs out of the division.
        assert(hh * pow2_64() == (hh * pow2((64 - s) as nat)) * pow2(s)) by {
            lemma_pow2_adds((64 - s) as nat, s);
            lemma_mul_is_associative(hh as int, pow2((64 - s) as nat) as int, pow2(s) as int);
        }
        lemma_hoist_over_denominator(ll as int, (hh * pow2((64 - s) as nat)) as int, pow2(s));
        assert((ll + hh * pow2_64()) / pow2(s) as int == ll as int / pow2(s) as int + hh * pow2(
            (64 - s) as nat,
        ));
        // The hoisted part is a multiple of 256, so it vanishes modulo 256.
        assert(hh * pow2((64 - s) as nat) == 256 * (hh * pow2((56 - s) as nat))) by {
            lemma_pow2_adds(8, (56 - s) as nat);
            lemma_mul_is_associative(256, hh as int, pow2((56 - s) as nat) as int);
            lemma_mul_is_commutative(256, hh as int);
            lemma_mul_is_associative(hh as int, 256, pow2((56 - s) as nat) as int);
        }
        lemma_mod_multiples_vanish(
            (hh * pow2((56 - s) as nat)) as int,
            ll as int / pow2(s) as int,
            256,
        );
        assert((self.as_nat() / pow2(8 * k)) % 256 == (ll as int / pow2(s) as int) % 256);
        // Now connect to the shift and mask.
        lemma_u64_shr_is_div(ll, s as u64);
        assert(ll >> (s as u64) == ll as nat / pow2(s));
        lemma_u64_low_bits_mask_is_mod(ll >> (s as u64), 8);
        assert(vstd::bits::low_bits_mask(8) == 0xff) by {
            vstd::bits::lemma_low_bits_mask_values();
        }
    }

    /// Shift the value one byte towards the most significant end and add a
    /// new least-significant byte.
    pub fn mul256_add(&self, b: u8) -> (r: Word)
        requires
            self.as_nat() < pow2(248),
        ensures
            r.as_nat() == self.as_nat() * 256 + b,
    {
        proof {
            lemma_pow2_bridge();
            if self.d3 >= 0x100_0000_0000_0000 {
                lemma_scale(0x100_0000_0000_0000, self.d3 as nat, pow2_192());
            }
            lemma_shift56_is_div(self.d0);
            lemma_shift56_is_div(self.d1);
            lemma_shift56_is_div(self.d2);
            lemma_limb_shift8(self.d0, b as u64);
            lemma_limb_shift8(self.d1, self.d0 >> 56u64);
            lemma_limb_shift8(self.d2, self.d1 >> 56u64);
            lemma_limb_shift8(self.d3, self.d2 >> 56u64);
            self.lemma_mul256_algebra();
        }
        Word {
            d0: (self.d0 << 8u64) | (b as u64),
            d1: (self.d1 << 8u64) | (self.d0 >> 56u64),
            d2: (self.d2 << 8u64) | (self.d1 >> 56u64),
            d3: (self.d3 << 8u64) | (self.d2 >> 56u64),
        }
    }

    /// The arithmetic behind `mul256_add`: multiplying the value by 256
    /// moves `2^56`-quotients of each limb into the next limb.
    proof fn lemma_mul256_algebra(self)
        requires
            self.d3 < 0x100_0000_0000_0000,
        ensures
            self.as_nat() * 256 == (self.d0 % 0x100_0000_0000_0000) * 256 + ((self.d1
                % 0x100_0000_0000_0000) * 256 + self.d0 / 0x100_0000_0000_0000) * pow2_64() + ((
            self.d2 % 0x100_0000_0000_0000) * 256 + self.d1 / 0x100_0000_0000_0000) * pow2_128() + ((
            self.d3 % 0x100_0000_0000_0000) * 256 + self.d2 / 0x100_0000_0000_0000) * pow2_192(),
    {
        let p56: int = 0x100_0000_0000_0000;
        lemma_fundamental_div_mod(self.d0 as int, p56);
        lemma_fundamental_div_mod(self.d1 as int, p56);
        lemma_fundamental_div_mod(self.d2 as int, p56);
        lemma_fundamental_div_mod(self.d3 as int, p56);
        let q0 = self.d0 as int / p56;
        let q1 = self.d1 as int / p56;
        let q2 = self.d2 as int / p56;
        let r0 = self.d0 as int % p56;
        let r1 = self.d1 as int % p56;
        let r2 = self.d2 as int % p56;
        let r3 = self.d3 as int % p56;
        assert(self.d3 as int / p56 == 0) by {
            vstd::arithmetic::div_mod::lemma_basic_div(self.d3 as int, p56);
        }
        // Expand every product of sums; all multipliers are constants.
        assert(self.as_nat() * 256 == (r0 + q0 * p56) * 256 + ((r1 + q1 * p56) * 256) * pow2_64()
            + ((r2 + q2 * p56) * 256) * pow2_128() + (r3 * 256) * pow2_192()) by {
            lemma_mul_is_distributive_add_other_way(
                256,
                (self.d0 + self.d1 as nat * pow2_64()) as int,
                (self.d2 as nat * pow2_128() + self.d3 as nat * pow2_192()) as int,
            );
            lemma_mul_is_distributive_add_other_way(
                256,
                self.d0 as int,
                (self.d1 as nat * pow2_64()) as int,
            );
            lemma_mul_is_distributive_add_other_way(
                256,
                (self.d2 as nat * pow2_128()) as int,
                (self.d3 as nat * pow2_192()) as int,
            );
            lemma_mul_is_associative(self.d1 as int, pow2_64() as int, 256);
            lemma_mul_is_commutative(pow2_64() as int, 256);
            lemma_mul_is_associative(self.d1 as int, 256, pow2_64() as int);
            lemma_mul_is_associative(self.d2 as int, pow2_128() as int, 256);
            lemma_mul_is_commutative(pow2_128() as int, 256);
            lemma_mul_is_associative(self.d2 as int, 256, pow2_128() as int);
            lemma_mul_is_associative(self.d3 as int, pow2_192() as int, 256);
            lemma_mul_is_commutative(pow2_192() as int, 256);
            lemma_mul_is_associative(self.d3 as int, 256, pow2_192() as int);
        }
        // Push each carry one limb up: (q * 2^56) * 256 == q * 2^64, etc.
        assert((r0 + q0 * p56) * 256 == r0 * 256 + q0 * pow2_64()) by {
            lemma_mul_is_distributive_add_other_way(256, r0, q0 * p56);
            lemma_mul_is_associative(q0, p56, 256);
        }
        assert(((r1 + q1 * p56) * 256) * pow2_64() == (r1 * 256 + q1 * p56 * 256) * pow2_64()) by {
            lemma_mul_is_distributive_add_other_way(256, r1, q1 * p56);
        }
        assert((r1 * 256 + q1 * p56 * 256) * pow2_64() == (r1 * 256) * pow2_64() + q1 * pow2_128())
            by {
            lemma_mul_is_associative(q1, p56, 256);
            lemma_mul_is_distributive_add_other_way(
                pow2_64() as int,
                r1 * 256,
                q1 * (p56 * 256),
            );
            lemma_mul_is_associative(q1, p56 * 256, pow2_64() as int);
        }
        assert(((r2 + q2 * p56) * 256) * pow2_128() == (r2 * 256) * pow2_128() + q2 * pow2_192())
            by {
            lemma_mul_is_distributive_add_other_way(256, r2, q2 * p56);
            lemma_mul_is_associative(q2, p56, 256);
            lemma_mul_is_distributive_add_other_way(
                pow2_128() as int,
                r2 * 256,
                q2 * (p56 * 256),
            );
            lemma_mul_is_associative(q2, p56 * 256, pow2_128() as int);
        }
        // Re-associate the sums into the shape of the conclusion.
        assert((r1 * 256 + q0) * pow2_64() == (r1 * 256) * pow2_64() + q0 * pow2_64()) by {
            lemma_mul_is_distributive_add_other_way(pow2_64() as int, r1 * 256, q0);
        }
        assert((r2 * 256 + q1) * pow2_128() == (r2 * 256) * pow2_128() + q1 * pow2_128()) by {
            lemma_mul_is_distributive_add_other_way(pow2_128() as int, r2 * 256, q1);
        }
        assert((r3 * 256 + q2) * pow2_192() == (r3 * 256) * pow2_192() + q2 * pow2_192()) by {
            lemma_mul_is_distributive_add_other_way(pow2_192() as int, r3 * 256, q2);
        }
    }
}

/// The word whose value is `v`, for `v` below 2^256.
pub open spec fn word_of_nat(v: nat) -> Word {
    Word {
        d0: (v % pow2_64()) as u64,
        d1: ((v / pow2_64()) % pow2_64()) as u64,
        d2: ((v / pow2_128()) % pow2_64()) as u64,
        d3: ((v / pow2_192()) % pow2_64()) as u64,
    }
}

pub proof fn lemma_word_of_nat_as_nat(v: nat)
    requires
        v < pow2_256(),
    ensures
        word_of_nat(v).as_nat() == v,
{
    let b = pow2_64() as int;
    let q0 = v as int / b;
    let q1 = q0 / b;
    let q2 = q1 / b;
    lemma_fundamental_div_mod(v as int, b);
    lemma_fundamental_div_mod(q0, b);
    lemma_fundamental_div_mod(q1, b);
    assert(v / pow2_128() == q1 && v as int / pow2_128() as int / b == q2) by {
        lemma_div_denominator(v as int, b, b);
        lemma_div_denominator(v as int, pow2_128() as int, b);
    }
    assert(v / pow2_192() == q2) by {
        lemma_div_denominator(v as int, pow2_128() as int, b);
    }
    assert(q2 < b) by {
        assert(pow2_256() as int - 1 == (b - 1) * pow2_192() + (pow2_192() - 1)) by {
            lemma_mul_is_distributive_sub_other_way(pow2_192() as int, b, 1);
        }
        lemma_div_is_ordered(v as int, pow2_256() as int - 1, pow2_192() as int);
        lemma_fundamental_div_mod_converse_div(
            pow2_256() as int - 1,
            pow2_192() as int,
            b - 1,
            pow2_192() as int - 1,
        );
        lemma_div_denominator(v as int, pow2_128() as int, b);
    }
    assert(q2 >= 0) by {
        lemma_div_pos_is_pos(q1, b);
        lemma_div_pos_is_pos(q0, b);
        lemma_div_pos_is_pos(v as int, b);
    }
    // Reassemble: v == r0 + r1*2^64 + r2*2^128 + q2*2^192.
    let r1 = q0 % b;
    let r2 = q1 % b;
    assert(b * q0 == r1 * b + (q1 * b) * b) by {
        lemma_mul_is_distributive_add(b, r1, q1 * b);
        lemma_mul_is_commutative(b, r1);
        lemma_mul_is_commutative(b, q1 * b);
    }
    assert((q1 * b) * b == q1 * pow2_128()) by {
        lemma_mul_is_associative(q1, b, b);
    }
    assert(q1 * pow2_128() == r2 * pow2_128() + q2 * pow2_192()) by {
        lemma_mul_is_distributive_add_other_way(pow2_128() as int, r2, q2 * b);
        lemma_mul_is_associative(q2, b, pow2_128() as int);
    }
}

/// A word is determined by its value.
pub proof fn lemma_word_eq_of_nat(w: Word, n: nat)
    requires
        w.as_nat() == n,
        n < pow2_256(),
    ensures
        w == word_of_nat(n),
{
    lemma_word_of_nat_as_nat(n);
    w.lemma_as_nat_injective(word_of_nat(n));
}

/// Shifting a limb left by one byte splits it at 2^56; the pushed-out part
/// reappears from `>> 56` of the limb below.
proof fn lemma_limb_shift8(a: u64, c: u64)
    by (bit_vector)
    requires
        c < 256,
    ensures
        ((a << 8u64) | c) as nat == (a as nat % 0x100_0000_0000_0000) * 256 + c,
{
}

proof fn lemma_shift56_is_div(a: u64)
    by (bit_vector)
    ensures
        (a >> 56u64) as nat == a as nat / 0x100_0000_0000_0000,
        (a >> 56u64) < 256,
{
}

/// Links the limb weights to `pow2`.
pub proof fn lemma_pow2_bridge()
    ensures
        pow2(8) == 256,
        pow2(56) == 0x100_0000_0000_0000,
        pow2(64) == pow2_64(),
        pow2(128) == pow2_128(),
        pow2(192) == pow2_192(),
        pow2(248) == 0x100_0000_0000_0000 * pow2_192(),
        pow2(255) == pow2_255(),
        pow2(256) == pow2_256(),
{
    lemma2_to64();
    lemma2_to64_rest();
    lemma_pow2_adds(64, 64);
    lemma_pow2_adds(128, 64);
    lemma_pow2_adds(56, 192);
    lemma_pow2_adds(63, 192);
    lemma_pow2_adds(192, 64);
}

/// Lexicographic order on the limbs (most significant first) agrees with the
/// order on values.
proof fn lemma_lex_lt(x: Word, y: Word)
    requires
        x.d3 < y.d3 || (x.d3 == y.d3 && x.d2 < y.d2) || (x.d3 == y.d3 && x.d2 == y.d2 && x.d1
            < y.d1) || (x.d3 == y.d3 && x.d2 == y.d2 && x.d1 == y.d1 && x.d0 < y.d0),
    ensures
        x.as_nat() < y.as_nat(),
{
    if x.d3 < y.d3 {
        x.lemma_tail_bound();
        lemma_succ_scale(x.d3 as nat, pow2_192());
        lemma_scale(x.d3 as nat + 1, y.d3 as nat, pow2_192());
        assert(x.as_nat() < (x.d3 as nat + 1) * pow2_192());
    } else if x.d2 < y.d2 {
        x.lemma_tail_bound();
        lemma_succ_scale(x.d2 as nat, pow2_128());
        lemma_scale(x.d2 as nat + 1, y.d2 as nat, pow2_128());
        assert(x.as_nat() < x.d3 as nat * pow2_192() + (x.d2 as nat + 1) * pow2_128());
    } else if x.d1 < y.d1 {
        lemma_succ_scale(x.d1 as nat, pow2_64());
        lemma_scale(x.d1 as nat + 1, y.d1 as nat, pow2_64());
        assert(x.as_nat() < x.d3 as nat * pow2_192() + x.d2 as nat * pow2_128() + (x.d1 as nat + 1)
            * pow2_64());
    } else {
    }
}

proof fn lemma_lex_order(x: Word, y: Word)
    ensures
        (x.as_nat() < y.as_nat()) == (x.d3 < y.d3 || (x.d3 == y.d3 && x.d2 < y.d2) || (x.d3 == y.d3
            && x.d2 == y.d2 && x.d1 < y.d1) || (x.d3 == y.d3 && x.d2 == y.d2 && x.d1 == y.d1 && x.d0
            < y.d0)),
{
    if x.d3 < y.d3 || (x.d3 == y.d3 && x.d2 < y.d2) || (x.d3 == y.d3 && x.d2 == y.d2 && x.d1
        < y.d1) || (x.d3 == y.d3 && x.d2 == y.d2 && x.d1 == y.d1 && x.d0 < y.d0) {
        lemma_lex_lt(x, y);
    } else if y.d3 < x.d3 || (y.d3 == x.d3 && y.d2 < x.d2) || (y.d3 == x.d3 && y.d2 == x.d2 && y.d1
        < x.d1) || (y.d3 == x.d3 && y.d2 == x.d2 && y.d1 == x.d1 && y.d0 < x.d0) {
        lemma_lex_lt(y, x);
    } else {
    }
}

/// The sign bit of the top limb decides the sign of the two's-complement value.
proof fn lemma_sign_bit(x: Word)
    ensures
        (x.d3 >= 0x8000_0000_0000_0000) == (x.as_nat() >= pow2_255()),
{
    if x.d3 >= 0x8000_0000_0000_0000 {
        lemma_scale(0x8000_0000_0000_0000, x.d3 as nat, pow2_192());
        assert(x.as_nat() >= x.d3 as nat * pow2_192());
    } else {
        x.lemma_tail_bound();
        lemma_succ_scale(x.d3 as nat, pow2_192());
        lemma_scale(x.d3 as nat + 1, 0x8000_0000_0000_0000, pow2_192());
        assert(x.as_nat() < (x.d3 as nat + 1) * pow2_192());
    }
}

} // verus!
