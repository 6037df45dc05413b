use jitevm::operations;
use jitevm::word::Word;

fn w(x: u64) -> Word {
    Word::from_u64(x)
}

const MAX: Word = Word {
    d0: 0xffff_ffff_ffff_ffff,
    d1: 0xffff_ffff_ffff_ffff,
    d2: 0xffff_ffff_ffff_ffff,
    d3: 0xffff_ffff_ffff_ffff,
};

// -2^255, the smallest signed 256-bit value.
const MIN_SIGNED: Word = Word { d0: 0, d1: 0, d2: 0, d3: 0x8000_0000_0000_0000 };

// -1 in two's complement is the all-ones word.
const NEG_ONE: Word = MAX;

#[test]
fn add_wraps_modulo() {
    assert_eq!(operations::Add(w(3), w(5)), w(8));
    // MAX + 1 wraps to 0.
    assert_eq!(operations::Add(MAX, w(1)), w(0));
    assert_eq!(
        operations::Add(w(0xffff_ffff_ffff_ffff), w(1)),
        Word { d0: 0, d1: 1, d2: 0, d3: 0 }
    );
}

#[test]
fn sub_wraps_modulo() {
    assert_eq!(operations::Sub(w(5), w(3)), w(2));
    // 0 - 1 wraps to the all-ones word.
    assert_eq!(operations::Sub(w(0), w(1)), MAX);
}

#[test]
fn mul_wraps_modulo() {
    assert_eq!(operations::Mul(w(6), w(7)), w(42));
    // 2^128 * 2^128 == 2^256 == 0 mod 2^256.
    let p128 = Word { d0: 0, d1: 0, d2: 1, d3: 0 };
    assert_eq!(operations::Mul(p128, p128), w(0));
}

#[test]
fn div_by_zero_yields_zero() {
    assert_eq!(operations::Div(w(7), w(2)), w(3));
    assert_eq!(operations::Div(w(7), w(0)), w(0));
    assert_eq!(operations::Mod(w(7), w(3)), w(1));
    assert_eq!(operations::Mod(w(7), w(0)), w(0));
}

#[test]
fn sdiv_min_signed_by_negative_one() {
    // SDIV(MIN_SIGNED, -1) wraps back to MIN_SIGNED.
    assert_eq!(operations::Sdiv(MIN_SIGNED, NEG_ONE), MIN_SIGNED);
    assert_eq!(operations::Sdiv(w(7), w(0)), w(0));
    // -6 / 2 == -3.
    let neg6 = operations::Sub(w(0), w(6));
    let neg3 = operations::Sub(w(0), w(3));
    assert_eq!(operations::Sdiv(neg6, w(2)), neg3);
    assert_eq!(operations::Sdiv(w(6), neg3), operations::Sub(w(0), w(2)));
    // Truncation toward zero: -7 / 2 == -3.
    let neg7 = operations::Sub(w(0), w(7));
    assert_eq!(operations::Sdiv(neg7, w(2)), neg3);
}

#[test]
fn smod_sign_follows_dividend() {
    let neg7 = operations::Sub(w(0), w(7));
    let neg1 = operations::Sub(w(0), w(1));
    assert_eq!(operations::Smod(neg7, w(3)), neg1);
    assert_eq!(operations::Smod(w(7), neg7), w(0));
    assert_eq!(operations::Smod(w(7), w(3)), w(1));
    assert_eq!(operations::Smod(w(7), w(0)), w(0));
}

#[test]
fn shifts_of_256_or_more_yield_zero() {
    // SHL(257, x) == 0 and SHR(257, x) == 0.
    assert_eq!(operations::Shl(w(257), w(1)), w(0));
    assert_eq!(operations::Shr(w(257), MAX), w(0));
    assert_eq!(operations::Shl(w(256), w(1)), w(0));
    assert_eq!(operations::Shr(w(256), MAX), w(0));
    // Small shifts behave arithmetically.
    assert_eq!(operations::Shl(w(4), w(1)), w(16));
    assert_eq!(operations::Shr(w(2), w(12)), w(3));
    assert_eq!(operations::Shl(w(64), w(1)), Word { d0: 0, d1: 1, d2: 0, d3: 0 });
    // A shift count above 2^64 also yields zero.
    assert_eq!(operations::Shl(Word { d0: 0, d1: 1, d2: 0, d3: 0 }, w(1)), w(0));
}

#[test]
fn comparisons_return_one_or_zero() {
    assert_eq!(operations::Lt(w(3), w(5)), w(1));
    assert_eq!(operations::Lt(w(5), w(3)), w(0));
    assert_eq!(operations::Gt(w(5), w(3)), w(1));
    assert_eq!(operations::Gt(w(3), w(5)), w(0));
    assert_eq!(operations::Eq(w(5), w(5)), w(1));
    assert_eq!(operations::Eq(w(5), w(6)), w(0));
    assert_eq!(operations::Iszero(w(0)), w(1));
    assert_eq!(operations::Iszero(w(7)), w(0));
    assert_eq!(operations::Iszero(MAX), w(0));
}

#[test]
fn signed_comparisons() {
    let neg1 = NEG_ONE;
    // -1 < 1 signed, but not unsigned.
    assert_eq!(operations::Slt(neg1, w(1)), w(1));
    assert_eq!(operations::Lt(neg1, w(1)), w(0));
    assert_eq!(operations::Sgt(w(1), neg1), w(1));
    assert_eq!(operations::Slt(MIN_SIGNED, neg1), w(1));
    assert_eq!(operations::Sgt(MIN_SIGNED, neg1), w(0));
    assert_eq!(operations::Slt(w(3), w(3)), w(0));
}

#[test]
fn bitwise_ops() {
    assert_eq!(operations::And(w(0b1100), w(0b1010)), w(0b1000));
    assert_eq!(operations::Or(w(0b1100), w(0b1010)), w(0b1110));
    assert_eq!(operations::Xor(w(0b1100), w(0b1010)), w(0b0110));
    assert_eq!(operations::Not(w(0)), MAX);
    assert_eq!(operations::Not(MAX), w(0));
}

#[test]
fn exp_is_modular_power() {
    assert_eq!(operations::Exp(w(2), w(10)), w(1024));
    assert_eq!(operations::Exp(w(3), w(0)), w(1));
    assert_eq!(operations::Exp(w(0), w(0)), w(1));
    // 2^256 mod 2^256 == 0.
    assert_eq!(operations::Exp(w(2), w(256)), w(0));
    assert_eq!(operations::Exp(w(2), w(255)), MIN_SIGNED);
}

#[test]
fn byte_extracts_big_endian_bytes() {
    // Byte 31 is the least significant byte.
    assert_eq!(operations::Byte(w(31), w(0xabcd)), w(0xcd));
    assert_eq!(operations::Byte(w(30), w(0xabcd)), w(0xab));
    // Byte 0 is the most significant byte.
    assert_eq!(operations::Byte(w(0), MIN_SIGNED), w(0x80));
    assert_eq!(operations::Byte(w(32), MAX), w(0));
    assert_eq!(operations::Byte(w(1000), MAX), w(0));
}

#[test]
fn sar_arithmetic_shift() {
    // Positive values shift like SHR.
    assert_eq!(operations::Sar(w(2), w(12)), w(3));
    // Negative values keep their sign: -8 >> 2 == -2.
    let neg8 = operations::Sub(w(0), w(8));
    let neg2 = operations::Sub(w(0), w(2));
    assert_eq!(operations::Sar(w(2), neg8), neg2);
    // Rounding is toward minus infinity: -7 >> 1 == -4.
    let neg7 = operations::Sub(w(0), w(7));
    let neg4 = operations::Sub(w(0), w(4));
    assert_eq!(operations::Sar(w(1), neg7), neg4);
    // Saturation at 256 or more: all ones for negative, zero for positive.
    assert_eq!(operations::Sar(w(257), MIN_SIGNED), MAX);
    assert_eq!(operations::Sar(w(257), w(12)), w(0));
    assert_eq!(operations::Sar(w(0), neg7), neg7);
}

#[test]
fn signextend_from_byte_width() {
    // 0xff as a 1-byte value is -1.
    assert_eq!(operations::Signextend(w(0), w(0xff)), MAX);
    // 0x7f as a 1-byte value stays 0x7f.
    assert_eq!(operations::Signextend(w(0), w(0x7f)), w(0x7f));
    // Higher bytes are discarded before extending.
    assert_eq!(operations::Signextend(w(0), w(0x1234)), w(0x34));
    // A 2-byte negative value: only the low two bytes count.
    let expect = operations::Sub(w(0), w(0x8000));
    assert_eq!(operations::Signextend(w(1), Word::from_u64(0xffff_8000)), expect);
    // Widths of 31 or more leave the word unchanged.
    assert_eq!(operations::Signextend(w(31), MAX), MAX);
    assert_eq!(operations::Signextend(w(5000), MIN_SIGNED), MIN_SIGNED);
}

#[test]
fn addmod_uses_the_unwrapped_sum() {
    assert_eq!(operations::Addmod(w(10), w(10), w(8)), w(4));
    assert_eq!(operations::Addmod(w(10), w(10), w(0)), w(0));
    // MAX + MAX would wrap; ADDMOD must see the true sum 2^257 - 2.
    // (2^257 - 2) mod (2^256 - 1) == 0 since 2^257 - 2 == 2 * (2^256 - 1).
    assert_eq!(operations::Addmod(MAX, MAX, MAX), w(0));
    assert_eq!(operations::Addmod(MAX, w(2), w(10)), {
        // (2^256 - 1 + 2) mod 10 == (2^256 + 1) mod 10 == 7,
        // since 2^256 mod 10 == 6.
        w(7)
    });
}

#[test]
fn mulmod_uses_the_full_product() {
    assert_eq!(operations::Mulmod(w(10), w(10), w(8)), w(4));
    assert_eq!(operations::Mulmod(w(10), w(10), w(0)), w(0));
    // MAX * MAX == (2^256 - 1)^2; modulo 2^256 - 1 that is 0.
    assert_eq!(operations::Mulmod(MAX, MAX, MAX), w(0));
    // (2^256 - 1)^2 mod (2^256 - 2): with m = 2^256 - 2, (m + 1)^2 = m^2 + 2m + 1.
    assert_eq!(operations::Mulmod(MAX, MAX, operations::Sub(MAX, w(1))), w(1));
}
