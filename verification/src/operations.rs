#![allow(non_snake_case)]

use vstd::prelude::*;
use vstd::arithmetic::power::pow;
use vstd::arithmetic::power2::pow2;
use crate::word::{pow2_255, pow2_256, word_max, Word};

verus! {

/// Truncated (toward zero) signed division, as the EVM defines SDIV on
/// 256-bit two's-complement values; division by zero gives zero.
pub open spec fn evm_sdiv(a: int, b: int) -> int {
    if b == 0 {
        0
    } else {
        let q = (if a >= 0 {
            a
        } else {
            -a
        }) / (if b >= 0 {
            b
        } else {
            -b
        });
        if (a >= 0) == (b >= 0) {
            q
        } else {
            -q
        }
    }
}

/// Truncated signed remainder: the sign follows the dividend, and the
/// identity `a == b * evm_sdiv(a, b) + evm_smod(a, b)` holds; zero divisor
/// gives zero.
pub open spec fn evm_smod(a: int, b: int) -> int {
    if b == 0 {
        0
    } else {
        let r = (if a >= 0 {
            a
        } else {
            -a
        }) % (if b >= 0 {
            b
        } else {
            -b
        });
        if a >= 0 {
            r
        } else {
            -r
        }
    }
}

/// Relies on `primitive_types::U256::overflowing_add`: 256-bit addition that
/// wraps modulo 2^256.
#[verifier::external_body]
fn u256_add(a: &Word, b: &Word) -> (r: Word)
    ensures
        r.as_nat() == (a.as_nat() + b.as_nat()) % pow2_256(),
{
    let x = primitive_types::U256([a.d0, a.d1, a.d2, a.d3]);
    let y = primitive_types::U256([b.d0, b.d1, b.d2, b.d3]);
    let (z, _) = x.overflowing_add(y);
    Word { d0: z.0[0], d1: z.0[1], d2: z.0[2], d3: z.0[3] }
}

/// Relies on `primitive_types::U256::overflowing_sub`: 256-bit subtraction
/// that wraps modulo 2^256.
#[verifier::external_body]
fn u256_sub(a: &Word, b: &Word) -> (r: Word)
    ensures
        r.as_nat() as int == (a.as_nat() - b.as_nat()) % (pow2_256() as int),
{
    let x = primitive_types::U256([a.d0, a.d1, a.d2, a.d3]);
    let y = primitive_types::U256([b.d0, b.d1, b.d2, b.d3]);
    let (z, _) = x.overflowing_sub(y);
    Word { d0: z.0[0], d1: z.0[1], d2: z.0[2], d3: z.0[3] }
}

/// Relies on `primitive_types::U256::overflowing_mul`: 256-bit
/// multiplication that wraps modulo 2^256.
#[verifier::external_body]
fn u256_mul(a: &Word, b: &Word) -> (r: Word)
    ensures
        r.as_nat() == (a.as_nat() * b.as_nat()) % pow2_256(),
{
    let x = primitive_types::U256([a.d0, a.d1, a.d2, a.d3]);
    let y = primitive_types::U256([b.d0, b.d1, b.d2, b.d3]);
    let (z, _) = x.overflowing_mul(y);
    Word { d0: z.0[0], d1: z.0[1], d2: z.0[2], d3: z.0[3] }
}

/// Relies on `primitive_types::U256::div_mod`: Euclidean quotient of two
/// 256-bit values; the divisor must be nonzero (it panics on zero).
#[verifier::external_body]
fn u256_div(a: &Word, b: &Word) -> (r: Word)
    requires
        b.as_nat() != 0,
    ensures
        r.as_nat() == a.as_nat() / b.as_nat(),
{
    let x = primitive_types::U256([a.d0, a.d1, a.d2, a.d3]);
    let y = primitive_types::U256([b.d0, b.d1, b.d2, b.d3]);
    let (z, _) = x.div_mod(y);
    Word { d0: z.0[0], d1: z.0[1], d2: z.0[2], d3: z.0[3] }
}

/// Relies on `primitive_types::U256::div_mod`: Euclidean remainder of two
/// 256-bit values; the divisor must be nonzero (it panics on zero).
#[verifier::external_body]
fn u256_rem(a: &Word, b: &Word) -> (r: Word)
    requires
        b.as_nat() != 0,
    ensures
        r.as_nat() == a.as_nat() % b.as_nat(),
{
    let x = primitive_types::U256([a.d0, a.d1, a.d2, a.d3]);
    let y = primitive_types::U256([b.d0, b.d1, b.d2, b.d3]);
    let (_, z) = x.div_mod(y);
    Word { d0: z.0[0], d1: z.0[1], d2: z.0[2], d3: z.0[3] }
}

/// Relies on `primitive_types::U256::overflowing_pow`: exponentiation by
/// squaring with every multiplication wrapping modulo 2^256, so the result
/// is the modular power.
#[verifier::external_body]
fn u256_pow(a: &Word, b: &Word) -> (r: Word)
    ensures
        r.as_nat() as int == pow(a.as_nat() as int, b.as_nat()) % (pow2_256() as int),
{
    let x = primitive_types::U256([a.d0, a.d1, a.d2, a.d3]);
    let y = primitive_types::U256([b.d0, b.d1, b.d2, b.d3]);
    let (z, _) = x.overflowing_pow(y);
    Word { d0: z.0[0], d1: z.0[1], d2: z.0[2], d3: z.0[3] }
}

/// Relies on `primitive_types::U256`'s `Shl` implementation: for shifts
/// below 256 the result keeps the low 256 bits of the shifted value.
#[verifier::external_body]
fn u256_shl(a: &Word, s: u32) -> (r: Word)
    requires
        s < 256,
    ensures
        r.as_nat() == (a.as_nat() * pow2(s as nat)) % pow2_256(),
{
    let x = primitive_types::U256([a.d0, a.d1, a.d2, a.d3]);
    let z = x << s;
    Word { d0: z.0[0], d1: z.0[1], d2: z.0[2], d3: z.0[3] }
}

/// Relies on `primitive_types::U256`'s `Shr` implementation: for shifts
/// below 256 the result is the quotient by the corresponding power of two.
#[verifier::external_body]
fn u256_shr(a: &Word, s: u32) -> (r: Word)
    requires
        s < 256,
    ensures
        r.as_nat() == a.as_nat() / pow2(s as nat),
{
    let x = primitive_types::U256([a.d0, a.d1, a.d2, a.d3]);
    let z = x >> s;
    Word { d0: z.0[0], d1: z.0[1], d2: z.0[2], d3: z.0[3] }
}

/// ADD: modular 2^256 addition.
pub fn Add(a: Word, b: Word) -> (r: Word)
    ensures
        r.as_nat() == (a.as_nat() + b.as_nat()) % pow2_256(),
{
    u256_add(&a, &b)
}

/// MUL: modular 2^256 multiplication.
pub fn Mul(a: Word, b: Word) -> (r: Word)
    ensures
        r.as_nat() == (a.as_nat() * b.as_nat()) % pow2_256(),
{
    u256_mul(&a, &b)
}

/// SUB: modular 2^256 subtraction.
pub fn Sub(a: Word, b: Word) -> (r: Word)
    ensures
        r.as_nat() as int == (a.as_nat() - b.as_nat()) % (pow2_256() as int),
{
    u256_sub(&a, &b)
}

/// DIV: unsigned division; division by zero yields zero.
pub fn Div(a: Word, b: Word) -> (r: Word)
    ensures
        r.as_nat() == if b.as_nat() == 0 {
            0nat
        } else {
            a.as_nat() / b.as_nat()
        },
{
    if b.is_zero() {
        Word::zero()
    } else {
        u256_div(&a, &b)
    }
}

/// MOD: unsigned remainder; a zero modulus yields zero.
pub fn Mod(a: Word, b: Word) -> (r: Word)
    ensures
        r.as_nat() == if b.as_nat() == 0 {
            0nat
        } else {
            a.as_nat() % b.as_nat()
        },
{
    if b.is_zero() {
        Word::zero()
    } else {
        u256_rem(&a, &b)
    }
}

/// EXP: modular 2^256 exponentiation.
pub fn Exp(a: Word, b: Word) -> (r: Word)
    ensures
        r.as_nat() as int == pow(a.as_nat() as int, b.as_nat()) % (pow2_256() as int),
{
    u256_pow(&a, &b)
}

/// LT: unsigned less-than, 1 or 0.
pub fn Lt(a: Word, b: Word) -> (r: Word)
    ensures
        r.as_nat() == if a.as_nat() < b.as_nat() {
            1nat
        } else {
            0nat
        },
{
    if a.lt(&b) {
        Word::one()
    } else {
        Word::zero()
    }
}

/// GT: unsigned greater-than, 1 or 0.
pub fn Gt(a: Word, b: Word) -> (r: Word)
    ensures
        r.as_nat() == if a.as_nat() > b.as_nat() {
            1nat
        } else {
            0nat
        },
{
    if b.lt(&a) {
        Word::one()
    } else {
        Word::zero()
    }
}

/// EQ: equality, 1 or 0.
pub fn Eq(a: Word, b: Word) -> (r: Word)
    ensures
        r.as_nat() == if a.as_nat() == b.as_nat() {
            1nat
        } else {
            0nat
        },
{
    proof {
        if a.as_nat() == b.as_nat() {
            a.lemma_as_nat_injective(b);
        }
    }
    if a == b {
        Word::one()
    } else {
        Word::zero()
    }
}

/// ISZERO: 1 if the operand is zero, else 0.
pub fn Iszero(a: Word) -> (r: Word)
    ensures
        r.as_nat() == if a.as_nat() == 0 {
            1nat
        } else {
            0nat
        },
{
    if a.is_zero() {
        Word::one()
    } else {
        Word::zero()
    }
}

/// SLT: signed (two's complement) less-than, 1 or 0.
pub fn Slt(a: Word, b: Word) -> (r: Word)
    ensures
        r.as_nat() == if a.as_int() < b.as_int() {
            1nat
        } else {
            0nat
        },
{
    proof {
        a.lemma_as_nat_bound();
        b.lemma_as_nat_bound();
    }
    let an = a.is_negative();
    let bn = b.is_negative();
    if an != bn {
        if an {
            Word::one()
        } else {
            Word::zero()
        }
    } else {
        if a.lt(&b) {
            Word::one()
        } else {
            Word::zero()
        }
    }
}

/// SGT: signed (two's complement) greater-than, 1 or 0.
pub fn Sgt(a: Word, b: Word) -> (r: Word)
    ensures
        r.as_nat() == if a.as_int() > b.as_int() {
            1nat
        } else {
            0nat
        },
{
    Slt(b, a)
}

/// AND: bitwise conjunction, limb by limb.
pub fn And(a: Word, b: Word) -> (r: Word)
    ensures
        r.d0 == a.d0 & b.d0,
        r.d1 == a.d1 & b.d1,
        r.d2 == a.d2 & b.d2,
        r.d3 == a.d3 & b.d3,
{
    Word { d0: a.d0 & b.d0, d1: a.d1 & b.d1, d2: a.d2 & b.d2, d3: a.d3 & b.d3 }
}

/// OR: bitwise disjunction, limb by limb.
pub fn Or(a: Word, b: Word) -> (r: Word)
    ensures
        r.d0 == a.d0 | b.d0,
        r.d1 == a.d1 | b.d1,
        r.d2 == a.d2 | b.d2,
        r.d3 == a.d3 | b.d3,
{
    Word { d0: a.d0 | b.d0, d1: a.d1 | b.d1, d2: a.d2 | b.d2, d3: a.d3 | b.d3 }
}

/// XOR: bitwise exclusive or, limb by limb.
pub fn Xor(a: Word, b: Word) -> (r: Word)
    ensures
        r.d0 == a.d0 ^ b.d0,
        r.d1 == a.d1 ^ b.d1,
        r.d2 == a.d2 ^ b.d2,
        r.d3 == a.d3 ^ b.d3,
{
    Word { d0: a.d0 ^ b.d0, d1: a.d1 ^ b.d1, d2: a.d2 ^ b.d2, d3: a.d3 ^ b.d3 }
}

/// NOT: bitwise complement; as a value, the distance to the all-ones word.
pub fn Not(a: Word) -> (r: Word)
    ensures
        r.d0 == !a.d0,
        r.d1 == !a.d1,
        r.d2 == !a.d2,
        r.d3 == !a.d3,
        r.as_nat() == word_max() - a.as_nat(),
{
    proof {
        lemma_not_limb(a.d0);
        lemma_not_limb(a.d1);
        lemma_not_limb(a.d2);
        lemma_not_limb(a.d3);
        vstd::arithmetic::mul::lemma_mul_is_distributive_sub_other_way(
            crate::word::pow2_64() as int,
            0xffff_ffff_ffff_ffff,
            a.d1 as int,
        );
        vstd::arithmetic::mul::lemma_mul_is_distributive_sub_other_way(
            crate::word::pow2_128() as int,
            0xffff_ffff_ffff_ffff,
            a.d2 as int,
        );
        vstd::arithmetic::mul::lemma_mul_is_distributive_sub_other_way(
            crate::word::pow2_192() as int,
            0xffff_ffff_ffff_ffff,
            a.d3 as int,
        );
    }
    Word { d0: !a.d0, d1: !a.d1, d2: !a.d2, d3: !a.d3 }
}

proof fn lemma_not_limb(x: u64)
    by (bit_vector)
    ensures
        (!x) as nat == 0xffff_ffff_ffff_ffffu64 - x,
{
}

/// SHL: `b` shifted left by `a` bits, modulo 2^256; a shift of 256 or more
/// yields zero.
pub fn Shl(a: Word, b: Word) -> (r: Word)
    ensures
        r.as_nat() == if a.as_nat() >= 256 {
            0nat
        } else {
            (b.as_nat() * pow2(a.as_nat())) % pow2_256()
        },
{
    if !a.fits_u64() || a.d0 >= 256 {
        Word::zero()
    } else {
        u256_shl(&b, a.d0 as u32)
    }
}

/// SHR: `b` shifted right by `a` bits (logical); a shift of 256 or more
/// yields zero.
pub fn Shr(a: Word, b: Word) -> (r: Word)
    ensures
        r.as_nat() == if a.as_nat() >= 256 {
            0nat
        } else {
            b.as_nat() / pow2(a.as_nat())
        },
{
    if !a.fits_u64() || a.d0 >= 256 {
        Word::zero()
    } else {
        u256_shr(&b, a.d0 as u32)
    }
}

/// BYTE: the `a`-th byte of `b` counted from the most significant end, or
/// zero when `a` is 32 or more.
pub fn Byte(a: Word, b: Word) -> (r: Word)
    ensures
        r.as_nat() == if a.as_nat() >= 32 {
            0nat
        } else {
            (b.as_nat() / crate::bytes::pow256((31 - a.as_nat()) as nat)) % 256
        },
{
    if !a.fits_u64() || a.d0 >= 32 {
        Word::zero()
    } else {
        let k = 31 - (a.d0 as usize);
        let byte = b.byte_at(k);
        proof {
            assert(crate::bytes::pow256((31 - a.as_nat()) as nat) == pow2(
                8 * ((31 - a.as_nat()) as nat),
            ));
        }
        Word::from_u64(byte as u64)
    }
}

/// SAR: `b` shifted right by `a` bits arithmetically — the floor of the
/// signed value divided by 2^a, saturating at 0 or -1 for shifts of 256 or
/// more.
pub fn Sar(a: Word, b: Word) -> (r: Word)
    ensures
        r.as_nat() as int == (b.as_int() / (pow2(
            if a.as_nat() < 256 {
                a.as_nat()
            } else {
                256nat
            },
        ) as int)) % (pow2_256() as int),
{
    proof {
        b.lemma_as_nat_bound();
        crate::word::lemma_pow2_bridge();
    }
    let neg = b.is_negative();
    if !a.fits_u64() || a.d0 >= 256 {
        proof {
            let d = pow2(256) as int;
            if b.as_int() < 0 {
                vstd::arithmetic::div_mod::lemma_fundamental_div_mod_converse_div(
                    b.as_int(),
                    d,
                    -1,
                    b.as_int() + d,
                );
                vstd::arithmetic::div_mod::lemma_fundamental_div_mod_converse_mod(
                    -1,
                    d,
                    -1,
                    d - 1,
                );
            } else {
                vstd::arithmetic::div_mod::lemma_basic_div(b.as_int(), d);
                vstd::arithmetic::div_mod::lemma_small_mod(0, pow2_256());
            }
        }
        if neg {
            Not(Word::zero())
        } else {
            Word::zero()
        }
    } else if !neg {
        let r = u256_shr(&b, a.d0 as u32);
        proof {
            vstd::arithmetic::power2::lemma_pow2_pos(a.as_nat());
            vstd::arithmetic::div_mod::lemma_div_nonincreasing(
                b.as_nat() as int,
                pow2(a.as_nat()) as int,
            );
            vstd::arithmetic::div_mod::lemma_div_pos_is_pos(
                b.as_nat() as int,
                pow2(a.as_nat()) as int,
            );
            vstd::arithmetic::div_mod::lemma_small_mod(
                (b.as_nat() / pow2(a.as_nat())),
                pow2_256(),
            );
        }
        r
    } else {
        let y = Not(b);
        let t = u256_shr(&y, a.d0 as u32);
        let r = Not(t);
        proof {
            lemma_sar_negative(b.as_nat(), t.as_nat(), a.as_nat());
        }
        r
    }
}

/// The arithmetic of a negative arithmetic shift: complement, logical
/// shift, complement again.
proof fn lemma_sar_negative(bn: nat, t: nat, k: nat)
    requires
        k < 256,
        bn < pow2_256(),
        bn >= pow2_255(),
        t == ((pow2_256() - 1 - bn) as nat) / pow2(k),
    ensures
        ((word_max() - t) as int) == ((bn - pow2_256()) / (pow2(k) as int)) % (pow2_256() as int),
{
    let m = pow2_256() as int;
    let d = pow2(k) as int;
    vstd::arithmetic::power2::lemma_pow2_pos(k);
    crate::word::lemma_pow2_bridge();
    vstd::arithmetic::power2::lemma_pow2_strictly_increases(k, 256);
    // m - 1 - bn == t * d + s with 0 <= s < d.
    vstd::arithmetic::div_mod::lemma_fundamental_div_mod(m - 1 - bn, d);
    let s = (m - 1 - bn) % d;
    // Then bn - m == (-(t + 1)) * d + (d - 1 - s).
    assert((-(t as int + 1)) * d == -(t * d) - d) by {
        vstd::arithmetic::mul::lemma_mul_is_distributive_add_other_way(d, -(t as int), -1);
        vstd::arithmetic::mul::lemma_mul_unary_negation(t as int, d);
    }
    assert(m - 1 - bn == t * d + s) by {
        vstd::arithmetic::mul::lemma_mul_is_commutative(d, t as int);
    }
    assert(bn - m == (-(t as int + 1)) * d + (d - 1 - s));
    vstd::arithmetic::div_mod::lemma_fundamental_div_mod_converse_div(
        bn - m,
        d,
        -(t as int + 1),
        d - 1 - s,
    );
    // t stays below m, so -(t+1) reduces mod m to m - 1 - t.
    assert(t < m) by {
        vstd::arithmetic::div_mod::lemma_div_nonincreasing((m - 1 - bn) as int, d);
        vstd::arithmetic::div_mod::lemma_div_pos_is_pos((m - 1 - bn) as int, d);
    }
    vstd::arithmetic::div_mod::lemma_fundamental_div_mod_converse_mod(
        -(t as int + 1),
        m,
        -1,
        m - 1 - t,
    );
}

/// ADDMOD: `(a + b) mod c` over the full, unwrapped sum; a zero modulus
/// yields zero.
pub fn Addmod(a: Word, b: Word, c: Word) -> (r: Word)
    ensures
        r.as_nat() == if c.as_nat() == 0 {
            0nat
        } else {
            (a.as_nat() + b.as_nat()) % c.as_nat()
        },
{
    if c.is_zero() {
        return Word::zero();
    }
    let t1 = u256_rem(&a, &c);
    let t2 = u256_rem(&b, &c);
    let s = u256_add(&t1, &t2);
    proof {
        let m = pow2_256() as int;
        let cn = c.as_nat() as int;
        c.lemma_as_nat_bound();
        vstd::arithmetic::div_mod::lemma_mod_division_less_than_divisor(a.as_nat() as int, cn);
        vstd::arithmetic::div_mod::lemma_mod_division_less_than_divisor(b.as_nat() as int, cn);
        vstd::arithmetic::div_mod::lemma_add_mod_noop(a.as_nat() as int, b.as_nat() as int, cn);
        // The wrapped sum either is the true sum or is short by exactly 2^256.
        if t1.as_nat() + t2.as_nat() < pow2_256() {
            vstd::arithmetic::div_mod::lemma_small_mod(
                (t1.as_nat() + t2.as_nat()) as nat,
                pow2_256(),
            );
        } else {
            vstd::arithmetic::div_mod::lemma_fundamental_div_mod_converse_mod(
                t1.as_nat() + t2.as_nat() as int,
                m,
                1,
                t1.as_nat() + t2.as_nat() - m,
            );
        }
    }
    // The true sum t1 + t2 is below 2c; subtract c once when it reaches c.
    if s.lt(&t1) || !s.lt(&c) {
        // Either no wrap occurred and s >= c, or the sum wrapped (s < t1).
        let r = u256_sub(&s, &c);
        proof {
            let m = pow2_256() as int;
            let cn = c.as_nat() as int;
            let sum = t1.as_nat() + t2.as_nat();
            if sum < pow2_256() {
                // s is exact and at least c.
                vstd::arithmetic::div_mod::lemma_fundamental_div_mod_converse_mod(
                    sum as int,
                    cn,
                    1,
                    sum - cn,
                );
                vstd::arithmetic::div_mod::lemma_small_mod((sum - cn) as nat, pow2_256());
            } else {
                // s == sum - 2^256, and sum - c is the reduced value.
                vstd::arithmetic::div_mod::lemma_fundamental_div_mod_converse_mod(
                    sum as int,
                    cn,
                    1,
                    sum - cn,
                );
                vstd::arithmetic::div_mod::lemma_fundamental_div_mod_converse_mod(
                    s.as_nat() - cn,
                    m,
                    -1,
                    sum - cn,
                );
            }
        }
        r
    } else {
        proof {
            let sum = t1.as_nat() + t2.as_nat();
            vstd::arithmetic::div_mod::lemma_small_mod(sum, c.as_nat());
        }
        s
    }
}

/// SIGNEXTEND: extend the sign of `b` read as a value of `a + 1` bytes; for
/// `a` of 31 or more the word is returned unchanged.
pub fn Signextend(a: Word, b: Word) -> (r: Word)
    ensures
        r.as_nat() == if a.as_nat() >= 31 {
            b.as_nat()
        } else {
            let t = 8 * (a.as_nat() + 1);
            let v = b.as_nat() % pow2(t);
            if v >= pow2((t - 1) as nat) {
                (v + pow2_256() - pow2(t)) as nat
            } else {
                v
            }
        },
{
    if !a.fits_u64() || a.d0 >= 31 {
        return b;
    }
    let k = a.d0 as usize;
    let s: u32 = (256 - (8 * k as u32 + 8)) as u32;
    let sh = u256_shl(&b, s);
    let v = u256_shr(&sh, s);
    let top = b.byte_at(k);
    proof {
        b.lemma_as_nat_bound();
        crate::word::lemma_pow2_bridge();
        lemma_signextend_truncation(b.as_nat(), k as nat);
    }
    if top >= 0x80 {
        let mask = u256_shl(&Not(Word::zero()), (8 * k as u32 + 8) as u32);
        proof {
            let m = pow2_256() as int;
            let t = 8 * (k as nat + 1);
            vstd::arithmetic::power2::lemma_pow2_adds(t, (256 - t) as nat);
            vstd::arithmetic::power2::lemma_pow2_pos(t);
            vstd::arithmetic::power2::lemma_pow2_pos((256 - t) as nat);
            vstd::arithmetic::power2::lemma_pow2_strictly_increases(t, 256);
            // The all-ones word shifted left by t reduces to 2^256 - 2^t.
            assert(word_max() as int * pow2(t) == m * (pow2(t) - 1) + (m - pow2(t))) by {
                vstd::arithmetic::mul::lemma_mul_is_distributive_sub_other_way(
                    pow2(t) as int,
                    m,
                    1,
                );
                vstd::arithmetic::mul::lemma_mul_is_distributive_sub(m, pow2(t) as int, 1);
                vstd::arithmetic::mul::lemma_mul_is_commutative(m, pow2(t) as int);
            }
            vstd::arithmetic::mul::lemma_mul_is_commutative(m, pow2(t) - 1);
            vstd::arithmetic::div_mod::lemma_fundamental_div_mod_converse_mod(
                word_max() as int * pow2(t),
                m,
                pow2(t) - 1,
                m - pow2(t),
            );
            // The filled value stays below 2^256.
            vstd::arithmetic::div_mod::lemma_mod_division_less_than_divisor(
                b.as_nat() as int,
                pow2(t) as int,
            );
            vstd::arithmetic::div_mod::lemma_small_mod(
                (b.as_nat() % pow2(t) + pow2_256() - pow2(t)) as nat,
                pow2_256(),
            );
        }
        u256_add(&v, &mask)
    } else {
        v
    }
}

/// Truncating to the low `8 * (k + 1)` bits keeps exactly the bytes up to
/// byte `k`, and the truncated value's sign bit is bit 7 of byte `k`.
proof fn lemma_signextend_truncation(bn: nat, k: nat)
    requires
        k < 31,
        bn < pow2_256(),
    ensures
        ({
            let t = 8 * (k + 1);
            let s = (256 - t) as nat;
            let v = bn % pow2(t);
            &&& (bn * pow2(s)) % pow2_256() == v * pow2(s)
            &&& (v * pow2(s)) / pow2(s) == v
            &&& (v >= pow2((t - 1) as nat)) == ((bn / pow2(8 * k)) % 256 >= 0x80)
        }),
{
    let t = 8 * (k + 1);
    let s = (256 - t) as nat;
    let v = bn % pow2(t);
    crate::word::lemma_pow2_bridge();
    vstd::arithmetic::power2::lemma_pow2_pos(t);
    vstd::arithmetic::power2::lemma_pow2_pos(s);
    vstd::arithmetic::power2::lemma_pow2_pos(8 * k);
    vstd::arithmetic::power2::lemma_pow2_adds(s, t);
    // (bn * 2^s) mod 2^256 == (bn mod 2^t) * 2^s.
    assert((pow2(s) * bn as int) % (pow2(s) * pow2(t) as int) == pow2(s) * (bn as int % pow2(
        t,
    ) as int)) by {
        vstd::arithmetic::div_mod::lemma_truncate_middle(
            bn as int,
            pow2(s) as int,
            pow2(t) as int,
        );
    }
    vstd::arithmetic::mul::lemma_mul_is_commutative(pow2(s) as int, bn as int);
    vstd::arithmetic::mul::lemma_mul_is_commutative(pow2(s) as int, v as int);
    // Exact division shifts the value back down.
    vstd::arithmetic::div_mod::lemma_div_by_multiple(v as int, pow2(s) as int);
    // The sign bit of the truncated value is bit 7 of byte k:
    // v == 2^(8k) * top + low with top == (bn / 2^(8k)) % 256 and low < 2^(8k).
    let top = (bn / pow2(8 * k)) % 256;
    assert(v == pow2(8 * k) * ((bn as int / pow2(8 * k) as int) % 256) + bn as int % pow2(
        8 * k,
    ) as int) by {
        vstd::arithmetic::power2::lemma_pow2_adds(8 * k, 8);
        crate::word::lemma_pow2_bridge();
        vstd::arithmetic::div_mod::lemma_breakdown(bn as int, pow2(8 * k) as int, 256);
    }
    vstd::arithmetic::div_mod::lemma_mod_division_less_than_divisor(bn as int, pow2(8 * k) as int);
    // 2^(t-1) == 2^(8k) * 128.
    assert(pow2((t - 1) as nat) == pow2(8 * k) * 128) by {
        vstd::arithmetic::power2::lemma_pow2_adds(8 * k, 7);
        crate::word::lemma_pow2_bridge();
        vstd::arithmetic::power2::lemma2_to64();
    }
    if top >= 0x80 {
        crate::word::lemma_scale(0x80, top as nat, pow2(8 * k));
        vstd::arithmetic::mul::lemma_mul_is_commutative(pow2(8 * k) as int, top as int);
        assert(v >= pow2((t - 1) as nat));
    } else {
        crate::word::lemma_scale(top as nat, 0x7f, pow2(8 * k));
        vstd::arithmetic::mul::lemma_mul_is_commutative(pow2(8 * k) as int, top as int);
        assert(v < pow2((t - 1) as nat));
    }
}

/// A 512-bit value, as the low and high 256-bit halves of a full product.
#[derive(Clone, Copy, Debug, PartialEq, Eq, Structural)]
pub struct DoubleWord {
    pub lo: Word,
    pub hi: Word,
}

impl DoubleWord {
    /// The value of the double-width word.
    pub open spec fn as_nat(self) -> nat {
        self.lo.as_nat() + self.hi.as_nat() * pow2_256()
    }
}

/// Relies on `primitive_types::U256::full_mul`: the exact 512-bit product
/// of two 256-bit values.
#[verifier::external_body]
fn u256_full_mul(a: &Word, b: &Word) -> (r: DoubleWord)
    ensures
        r.as_nat() == a.as_nat() * b.as_nat(),
{
    let x = primitive_types::U256([a.d0, a.d1, a.d2, a.d3]);
    let y = primitive_types::U256([b.d0, b.d1, b.d2, b.d3]);
    let z = x.full_mul(y);
    DoubleWord {
        lo: Word { d0: z.0[0], d1: z.0[1], d2: z.0[2], d3: z.0[3] },
        hi: Word { d0: z.0[4], d1: z.0[5], d2: z.0[6], d3: z.0[7] },
    }
}

/// Relies on `primitive_types::U512::div_mod`: the remainder of a 512-bit
/// value by a nonzero 256-bit modulus (it panics on zero); the remainder
/// fits a single word.
#[verifier::external_body]
fn u512_rem_u256(a: &DoubleWord, c: &Word) -> (r: Word)
    requires
        c.as_nat() != 0,
    ensures
        r.as_nat() == a.as_nat() % c.as_nat(),
{
    let x = primitive_types::U512(
        [a.lo.d0, a.lo.d1, a.lo.d2, a.lo.d3, a.hi.d0, a.hi.d1, a.hi.d2, a.hi.d3],
    );
    let y = primitive_types::U512([c.d0, c.d1, c.d2, c.d3, 0, 0, 0, 0]);
    let (_, z) = x.div_mod(y);
    Word { d0: z.0[0], d1: z.0[1], d2: z.0[2], d3: z.0[3] }
}

/// MULMOD: `(a * b) mod c` over the full 512-bit product; a zero modulus
/// yields zero.
pub fn Mulmod(a: Word, b: Word, c: Word) -> (r: Word)
    ensures
        r.as_nat() == if c.as_nat() == 0 {
            0nat
        } else {
            (a.as_nat() * b.as_nat()) % c.as_nat()
        },
{
    if c.is_zero() {
        Word::zero()
    } else {
        let p = u256_full_mul(&a, &b);
        u512_rem_u256(&p, &c)
    }
}

/// The word holding `(0 - a) mod 2^256`: the two's-complement negation.
pub fn Neg(a: Word) -> (r: Word)
    ensures
        r.as_nat() == if a.as_nat() == 0 {
            0nat
        } else {
            (pow2_256() - a.as_nat()) as nat
        },
{
    let z = Word::zero();
    proof {
        a.lemma_as_nat_bound();
        if a.as_nat() != 0 {
            vstd::arithmetic::div_mod::lemma_fundamental_div_mod_converse_mod(
                0 - a.as_nat(),
                pow2_256() as int,
                -1,
                pow2_256() - a.as_nat(),
            );
        } else {
            vstd::arithmetic::div_mod::lemma_small_mod(0, pow2_256());
        }
    }
    u256_sub(&z, &a)
}

/// SDIV: signed division truncated toward zero, on two's-complement words;
/// division by zero yields zero, and MIN_SIGNED / -1 wraps back to
/// MIN_SIGNED.
pub fn Sdiv(a: Word, b: Word) -> (r: Word)
    ensures
        r.as_nat() as int == evm_sdiv(a.as_int(), b.as_int()) % (pow2_256() as int),
{
    if b.is_zero() {
        proof {
            vstd::arithmetic::div_mod::lemma_small_mod(0, pow2_256());
        }
        return Word::zero();
    }
    let an = a.is_negative();
    let bn = b.is_negative();
    let ma = if an { Neg(a) } else { a };
    let mb = if bn { Neg(b) } else { b };
    let q = u256_div(&ma, &mb);
    proof {
        a.lemma_as_nat_bound();
        b.lemma_as_nat_bound();
        q.lemma_as_nat_bound();
        lemma_magnitude(a, ma);
        lemma_magnitude(b, mb);
        vstd::arithmetic::div_mod::lemma_div_is_ordered(
            q.as_nat() as int,
            ma.as_nat() as int,
            1,
        );
        vstd::arithmetic::div_mod::lemma_div_basics(ma.as_nat() as int);
        vstd::arithmetic::div_mod::lemma_div_is_ordered_by_denominator(
            ma.as_nat() as int,
            1,
            mb.as_nat() as int,
        );
    }
    if an != bn {
        let r = Neg(q);
        proof {
            let sd = evm_sdiv(a.as_int(), b.as_int());
            assert(sd == -(q.as_nat() as int));
            if q.as_nat() == 0 {
                vstd::arithmetic::div_mod::lemma_small_mod(0, pow2_256());
            } else {
                vstd::arithmetic::div_mod::lemma_fundamental_div_mod_converse_mod(
                    sd,
                    pow2_256() as int,
                    -1,
                    pow2_256() - q.as_nat(),
                );
            }
        }
        r
    } else {
        proof {
            let sd = evm_sdiv(a.as_int(), b.as_int());
            assert(sd == q.as_nat() as int);
            q.lemma_as_nat_bound();
            vstd::arithmetic::div_mod::lemma_small_mod(q.as_nat(), pow2_256());
        }
        q
    }
}

/// SMOD: signed remainder whose sign follows the dividend; a zero modulus
/// yields zero.
pub fn Smod(a: Word, b: Word) -> (r: Word)
    ensures
        r.as_nat() as int == evm_smod(a.as_int(), b.as_int()) % (pow2_256() as int),
{
    if b.is_zero() {
        proof {
            vstd::arithmetic::div_mod::lemma_small_mod(0, pow2_256());
        }
        return Word::zero();
    }
    let an = a.is_negative();
    let bn = b.is_negative();
    let ma = if an { Neg(a) } else { a };
    let mb = if bn { Neg(b) } else { b };
    let m = u256_rem(&ma, &mb);
    proof {
        a.lemma_as_nat_bound();
        b.lemma_as_nat_bound();
        m.lemma_as_nat_bound();
        lemma_magnitude(a, ma);
        lemma_magnitude(b, mb);
        vstd::arithmetic::div_mod::lemma_mod_division_less_than_divisor(
            ma.as_nat() as int,
            mb.as_nat() as int,
        );
    }
    if an {
        let r = Neg(m);
        proof {
            let sm = evm_smod(a.as_int(), b.as_int());
            assert(sm == -(m.as_nat() as int));
            if m.as_nat() == 0 {
                vstd::arithmetic::div_mod::lemma_small_mod(0, pow2_256());
            } else {
                mb.lemma_as_nat_bound();
                vstd::arithmetic::div_mod::lemma_fundamental_div_mod_converse_mod(
                    sm,
                    pow2_256() as int,
                    -1,
                    pow2_256() - m.as_nat(),
                );
            }
        }
        r
    } else {
        proof {
            let sm = evm_smod(a.as_int(), b.as_int());
            assert(sm == m.as_nat() as int);
            mb.lemma_as_nat_bound();
            vstd::arithmetic::div_mod::lemma_small_mod(m.as_nat(), pow2_256());
        }
        m
    }
}

/// The magnitude word computed by `Sdiv`/`Smod` holds the absolute value of
/// the signed reading of `x`.
proof fn lemma_magnitude(x: Word, m: Word)
    requires
        x.as_int() >= 0 ==> m == x,
        x.as_int() < 0 ==> m.as_nat() == if x.as_nat() == 0 {
            0nat
        } else {
            (pow2_256() - x.as_nat()) as nat
        },
    ensures
        m.as_nat() == if x.as_int() >= 0 {
            x.as_int()
        } else {
            -x.as_int()
        },
{
    x.lemma_as_nat_bound();
}

} // verus!
