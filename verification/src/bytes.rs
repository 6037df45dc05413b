use vstd::prelude::*;
use vstd::arithmetic::div_mod::{
    lemma_div_denominator, lemma_fundamental_div_mod, lemma_fundamental_div_mod_converse_div,
    lemma_fundamental_div_mod_converse_mod,
};
use vstd::arithmetic::power2::{lemma_pow2_adds, lemma_pow2_pos, pow2};
use crate::word::{lemma_pow2_bridge, Word};

verus! {

/// The value of a big-endian byte string: the first byte is the most
/// significant digit.
pub open spec fn be_to_nat(s: Seq<u8>) -> nat
    decreases s.len(),
{
    if s.len() == 0 {
        0
    } else {
        be_to_nat(s.drop_last()) * 256 + s.last() as nat
    }
}

/// The `n`-byte big-endian encoding of `v` (mod 256^n).
pub open spec fn be_bytes(v: nat, n: nat) -> Seq<u8>
    decreases n,
{
    if n == 0 {
        Seq::empty()
    } else {
        be_bytes(v / 256, (n - 1) as nat).push((v % 256) as u8)
    }
}

/// 256^n, the number of values an `n`-byte string can take.
pub open spec fn pow256(n: nat) -> nat {
    pow2(8 * n)
}

pub proof fn lemma_pow256_unfold(n: nat)
    requires
        n >= 1,
    ensures
        pow256(n) == pow256((n - 1) as nat) * 256,
        pow256(n) >= 256,
{
    lemma_pow2_adds(8 * (n - 1) as nat, 8);
    lemma_pow2_bridge();
    lemma_pow2_pos(8 * (n - 1) as nat);
    vstd::arithmetic::mul::lemma_mul_inequality(1, pow256((n - 1) as nat) as int, 256);
}

pub proof fn lemma_pow256_increases(m: nat, n: nat)
    requires
        m <= n,
    ensures
        pow256(m) <= pow256(n),
    decreases n - m,
{
    if m < n {
        lemma_pow256_increases(m, (n - 1) as nat);
        lemma_pow256_unfold(n);
        vstd::arithmetic::mul::lemma_mul_inequality(1, 256, pow256((n - 1) as nat) as int);
        vstd::arithmetic::mul::lemma_mul_is_commutative(pow256((n - 1) as nat) as int, 256);
    }
}

pub proof fn lemma_be_bytes_len(v: nat, n: nat)
    ensures
        be_bytes(v, n).len() == n,
    decreases n,
{
    if n > 0 {
        lemma_be_bytes_len(v / 256, (n - 1) as nat);
    }
}

/// A byte string's value is bounded by 256 to its length.
pub proof fn lemma_be_to_nat_bound(s: Seq<u8>)
    ensures
        be_to_nat(s) < pow256(s.len()),
    decreases s.len(),
{
    if s.len() == 0 {
        lemma_pow2_bridge();
        assert(pow2(0) == 1) by {
            vstd::arithmetic::power2::lemma2_to64();
        }
    } else {
        lemma_be_to_nat_bound(s.drop_last());
        lemma_pow256_unfold(s.len());
        vstd::arithmetic::mul::lemma_mul_inequality(
            be_to_nat(s.drop_last()) as int + 1,
            pow256((s.len() - 1) as nat) as int,
            256,
        );
        vstd::arithmetic::mul::lemma_mul_is_distributive_add_other_way(
            256,
            be_to_nat(s.drop_last()) as int,
            1,
        );
    }
}

/// Encoding a value below 256^n and reading it back is the identity.
pub proof fn lemma_be_bytes_to_nat(v: nat, n: nat)
    requires
        v < pow256(n),
    ensures
        be_to_nat(be_bytes(v, n)) == v,
    decreases n,
{
    if n == 0 {
        lemma_pow2_bridge();
        assert(pow2(0) == 1) by {
            vstd::arithmetic::power2::lemma2_to64();
        }
    } else {
        let s = be_bytes(v, n);
        lemma_be_bytes_len(v, n);
        assert(s.drop_last() =~= be_bytes(v / 256, (n - 1) as nat));
        assert(v / 256 < pow256((n - 1) as nat)) by {
            lemma_pow256_unfold(n);
            lemma_pow2_pos(8 * (n - 1) as nat);
            lemma_div_denominator(v as int, 256, pow256((n - 1) as nat) as int);
            vstd::arithmetic::div_mod::lemma_basic_div(
                (v / 256) as int,
                pow256((n - 1) as nat) as int,
            );
            vstd::arithmetic::mul::lemma_mul_is_commutative(256, pow256((n - 1) as nat) as int);
        }
        lemma_be_bytes_to_nat(v / 256, (n - 1) as nat);
        lemma_fundamental_div_mod(v as int, 256);
    }
}

/// Reading a byte string and re-encoding it at its own length is the identity.
pub proof fn lemma_be_to_nat_bytes(s: Seq<u8>)
    ensures
        be_bytes(be_to_nat(s), s.len()) == s,
    decreases s.len(),
{
    if s.len() == 0 {
        assert(be_bytes(be_to_nat(s), 0) =~= s);
    } else {
        let v = be_to_nat(s);
        lemma_fundamental_div_mod_converse_div(
            v as int,
            256,
            be_to_nat(s.drop_last()) as int,
            s.last() as int,
        );
        lemma_fundamental_div_mod_converse_mod(
            v as int,
            256,
            be_to_nat(s.drop_last()) as int,
            s.last() as int,
        );
        lemma_be_to_nat_bytes(s.drop_last());
        assert(be_bytes(v, s.len()) =~= s);
    }
}

/// Each byte of the encoding, counted from the least significant end, is the
/// corresponding base-256 digit of the value.
pub proof fn lemma_be_bytes_index(v: nat, n: nat, k: nat)
    requires
        k < n,
    ensures
        be_bytes(v, n)[n - 1 - k] == (v / pow256(k)) % 256,
    decreases k,
{
    lemma_be_bytes_len(v, n);
    if k == 0 {
        lemma_pow2_bridge();
        assert(pow2(0) == 1) by {
            vstd::arithmetic::power2::lemma2_to64();
        }
        vstd::arithmetic::div_mod::lemma_div_basics(v as int);
    } else {
        lemma_be_bytes_len(v / 256, (n - 1) as nat);
        lemma_be_bytes_index(v / 256, (n - 1) as nat, (k - 1) as nat);
        assert((v / 256) / pow256((k - 1) as nat) == v / pow256(k)) by {
            lemma_pow2_pos(8 * (k - 1) as nat);
            lemma_div_denominator(v as int, 256, pow256((k - 1) as nat) as int);
            lemma_pow2_adds(8, 8 * (k - 1) as nat);
            lemma_pow2_bridge();
        }
    }
}

/// Read up to 32 big-endian bytes into a word.
pub fn word_from_be(s: &[u8]) -> (r: Word)
    requires
        s@.len() <= 32,
    ensures
        r.as_nat() == be_to_nat(s@),
{
    let n = s.len();
    let mut w = Word::zero();
    let mut i: usize = 0;
    while i < n
        invariant
            n == s@.len() <= 32,
            i <= n,
            w.as_nat() == be_to_nat(s@.take(i as int)),
        decreases n - i,
    {
        proof {
            lemma_be_to_nat_bound(s@.take(i as int));
            lemma_pow256_increases(i as nat, 31);
            assert(s@.take(i as int).len() == i);
            assert(s@.take(i + 1).drop_last() =~= s@.take(i as int));
            assert(s@.take(i + 1).last() == s@[i as int]);
        }
        w = w.mul256_add(s[i]);
        i += 1;
    }
    proof {
        assert(s@.take(n as int) =~= s@);
    }
    w
}

/// Read the bytes `v[lo..hi]` as a big-endian value, at most 32 of them.
pub fn word_from_be_range(v: &Vec<u8>, lo: usize, hi: usize) -> (r: Word)
    requires
        lo <= hi <= v@.len(),
        hi - lo <= 32,
    ensures
        r.as_nat() == be_to_nat(v@.subrange(lo as int, hi as int)),
{
    let mut w = Word::zero();
    let mut i: usize = lo;
    while i < hi
        invariant
            lo <= i <= hi <= v@.len(),
            hi - lo <= 32,
            w.as_nat() == be_to_nat(v@.subrange(lo as int, i as int)),
        decreases hi - i,
    {
        proof {
            lemma_be_to_nat_bound(v@.subrange(lo as int, i as int));
            lemma_pow256_increases((i - lo) as nat, 31);
            assert(v@.subrange(lo as int, i + 1).drop_last() =~= v@.subrange(lo as int, i as int));
            assert(v@.subrange(lo as int, i + 1).last() == v@[i as int]);
        }
        w = w.mul256_add(v[i]);
        i += 1;
    }
    w
}

/// Read 32 bytes starting at `lo`, zero-extending past the end of `v`, as
/// CALLDATALOAD does.
pub fn word_from_be_padded(v: &Vec<u8>, lo: usize) -> (r: Word)
    requires
        lo <= v@.len(),
    ensures
        r.as_nat() == be_to_nat((v@ + Seq::new(32, |i: int| 0u8)).subrange(lo as int, lo as int + 32)),
{
    let ghost p = v@ + Seq::new(32, |i: int| 0u8);
    let n = v.len();
    let avail = n - lo;
    let mut w = Word::zero();
    let mut k: usize = 0;
    while k < 32
        invariant
            lo <= v@.len(),
            n == v@.len(),
            avail == n - lo,
            p == v@ + Seq::new(32, |i: int| 0u8),
            k <= 32,
            w.as_nat() == be_to_nat(p.subrange(lo as int, lo as int + k as int)),
        decreases 32 - k,
    {
        let b: u8 = if k < avail {
            v[lo + k]
        } else {
            0
        };
        proof {
            lemma_be_to_nat_bound(p.subrange(lo as int, lo as int + k as int));
            lemma_pow256_increases(k as nat, 31);
            assert(p.subrange(lo as int, lo + k + 1).drop_last() =~= p.subrange(
                lo as int,
                lo as int + k as int,
            ));
            assert(p.subrange(lo as int, lo + k + 1).last() == p[lo + k as int]);
            assert(p[lo + k as int] == b);
        }
        w = w.mul256_add(b);
        k += 1;
    }
    w
}

/// Write the low `n` bytes of a word, most significant first.
pub fn word_to_be_n(w: &Word, n: usize) -> (r: Vec<u8>)
    requires
        n <= 32,
    ensures
        r@ == be_bytes(w.as_nat(), n as nat),
        r@.len() == n,
{
    let mut r: Vec<u8> = Vec::new();
    let mut i: usize = 0;
    while i < n
        invariant
            n <= 32,
            i <= n,
            r@.len() == i,
            forall|j: int|
                0 <= j < i ==> r@[j] == (w.as_nat() / pow256((n - 1 - j) as nat)) % 256,
        decreases n - i,
    {
        let b = w.byte_at(n - 1 - i);
        proof {
            assert(pow256((n - 1 - i as int) as nat) == pow2(8 * ((n - 1 - i as int) as nat)));
        }
        r.push(b);
        i += 1;
    }
    proof {
        lemma_be_bytes_len(w.as_nat(), n as nat);
        assert forall|j: int| 0 <= j < n implies r@[j] == be_bytes(w.as_nat(), n as nat)[j] by {
            lemma_be_bytes_index(w.as_nat(), n as nat, (n - 1 - j) as nat);
        }
        assert(r@ =~= be_bytes(w.as_nat(), n as nat));
    }
    r
}

} // verus!
