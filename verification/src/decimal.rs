//! Numbers with their sign, in as few bytes as hold them.
use vstd::prelude::*;
use crate::codec::{be_bytes, be_value, lemma_be_bytes_len, lemma_be_bytes_of_value, lemma_be_value_of_bytes, pow256};

verus! {

/// The two's complement of a number in 128 bits.
pub open spec fn twos_complement(v: i128) -> nat {
    if v >= 0 {
        v as nat
    } else {
        (v + 0x1_0000_0000_0000_0000_0000_0000_0000_0000) as nat
    }
}

/// `n` bytes hold `v` with its sign.
pub open spec fn fits_in_bytes(v: int, n: nat) -> bool {
    -(128 * pow256((n - 1) as nat)) <= v < 128 * pow256((n - 1) as nat)
}

/// The least number of bytes, from `n` on, that hold `v` with its sign.
pub open spec fn signed_len(v: i128, n: nat) -> nat
    decreases 16 - n,
{
    if n >= 16 || fits_in_bytes(v as int, n) {
        n
    } else {
        signed_len(v, n + 1)
    }
}

/// The bytes of a number with its sign, most significant first, as few as hold it.
pub open spec fn signed_bytes(v: i128) -> Seq<u8> {
    be_bytes(twos_complement(v), signed_len(v, 1))
}

/// The number with its sign that bytes stand for, most significant first.
pub open spec fn signed_value(b: Seq<u8>) -> int {
    if b.len() > 0 && b[0] >= 128 {
        be_value(b) - pow256(b.len())
    } else {
        be_value(b) as int
    }
}

pub proof fn lemma_signed_len(v: i128, n: nat)
    requires
        1 <= n <= 16,
    ensures
        n <= signed_len(v, n) <= 16,
    decreases 16 - n,
{
    if n < 16 && !fits_in_bytes(v as int, n) {
        lemma_signed_len(v, n + 1);
    }
}

fn put_be_wide(out: &mut Vec<u8>, v: u128, n: usize)
    ensures
        final(out)@ == old(out)@ + be_bytes(v as nat, n as nat),
    decreases n,
{
    if n > 0 {
        let ghost start = out@;
        put_be_wide(out, v / 256, n - 1);
        out.push((v % 256) as u8);
        assert(out@ =~= start + be_bytes(v as nat, n as nat));
    } else {
        assert(out@ =~= old(out)@ + be_bytes(v as nat, 0));
    }
}

/// The bytes of a number with its sign, as few as hold it.
pub fn i128_to_biginteger_bytes(val: i128) -> (bytes: Vec<u8>)
    ensures
        bytes@ == signed_bytes(val),
        1 <= bytes.len() <= 16,
{
    let mut n: usize = 1;
    let mut bound: i128 = 128;
    proof {
        lemma_signed_len(val, 1);
        reveal_with_fuel(pow256, 2);
    }
    while n < 16 && !(-bound <= val && val < bound)
        invariant
            1 <= n <= 16,
            n < 16 ==> bound == 128 * pow256((n - 1) as nat),
            0 < bound <= 0x80_0000_0000_0000_0000_0000_0000_0000,
            signed_len(val, 1) == signed_len(val, n as nat),
            n < 16 ==> bound <= 0x80_0000_0000_0000_0000_0000_0000_0000,
        decreases 16 - n,
    {
        assert(pow256(n as nat) == 256 * pow256((n - 1) as nat));
        n = n + 1;
        if n < 16 {
            proof {
                lemma_pow256_wide((n - 1) as nat);
            }
            bound = bound * 256;
        }
    }
    let complement: u128 = if val >= 0 {
        val as u128
    } else {
        u128::MAX - ((-(val + 1)) as u128)
    };
    let mut bytes: Vec<u8> = Vec::new();
    put_be_wide(&mut bytes, complement, n);
    proof {
        lemma_be_bytes_len(complement as nat, n as nat);
        assert(bytes@ =~= signed_bytes(val));
    }
    bytes
}

proof fn lemma_pow256_wide(n: nat)
    requires
        n <= 14,
    ensures
        128 * pow256(n) <= 0x80_0000_0000_0000_0000_0000_0000_0000,
        pow256(n) > 0,
{
    reveal_with_fuel(pow256, 16);
    if n <= 7 {
        assert(n == 0 || n == 1 || n == 2 || n == 3 || n == 4 || n == 5 || n == 6 || n == 7);
    } else {
        assert(n == 8 || n == 9 || n == 10 || n == 11 || n == 12 || n == 13 || n == 14);
    }
}

// ---------------------------------------------------------------- reading

proof fn lemma_pow256_positive(n: nat)
    ensures
        pow256(n) > 0,
    decreases n,
{
    if n > 0 {
        lemma_pow256_positive((n - 1) as nat);
    }
}

proof fn lemma_pow256_add(a: nat, b: nat)
    ensures
        pow256(a + b) == pow256(a) * pow256(b),
    decreases a,
{
    if a > 0 {
        lemma_pow256_add((a - 1) as nat, b);
        assert((256 * pow256((a - 1) as nat)) * pow256(b) == 256 * (pow256((a - 1) as nat) * pow256(b))) by (nonlinear_arith);
    } else {
        assert(1 * pow256(b) == pow256(b)) by (nonlinear_arith);
    }
}

proof fn lemma_pow256_16()
    ensures
        pow256(16) == 0x1_0000_0000_0000_0000_0000_0000_0000_0000,
{
    reveal_with_fuel(pow256, 17);
}

/// The first byte tells how large the number is.
proof fn lemma_first_byte(s: Seq<u8>)
    requires
        s.len() > 0,
    ensures
        s[0] * pow256((s.len() - 1) as nat) <= be_value(s) < (s[0] + 1) * pow256((s.len() - 1) as nat),
    decreases s.len(),
{
    let p = pow256((s.len() - 1) as nat) as int;
    if s.len() == 1 {
        assert(s.drop_last() =~= Seq::<u8>::empty());
        assert(be_value(s.drop_last()) == 0);
    } else {
        lemma_first_byte(s.drop_last());
        let q = pow256((s.len() - 2) as nat) as int;
        let v = be_value(s.drop_last()) as int;
        let f = s[0] as int;
        assert(s.drop_last()[0] == s[0]);
        assert(f * (256 * q) <= v * 256 + s.last() && v * 256 + s.last() < (f + 1) * (256 * q)) by (nonlinear_arith)
            requires
                f * q <= v < (f + 1) * q,
                0 <= s.last() < 256,
        ;
    }
}

/// Only the last `n` bytes of a number count.
proof fn lemma_be_bytes_mod(v: nat, n: nat)
    ensures
        be_bytes(v, n) == be_bytes(v % pow256(n), n),
    decreases n,
{
    lemma_pow256_positive(n);
    if n > 0 {
        let p = pow256((n - 1) as nat);
        lemma_pow256_positive((n - 1) as nat);
        let r = v % pow256(n);
        let q = v / pow256(n);
        vstd::arithmetic::div_mod::lemma_fundamental_div_mod(v as int, pow256(n) as int);
        assert(v / 256 == q * p + r / 256 && v % 256 == r % 256) by (nonlinear_arith)
            requires
                v == (256 * p) * q + r,
        ;
        assert(r / 256 < p) by (nonlinear_arith)
            requires
                r < 256 * p,
        ;
        assert(p * q == q * p) by (nonlinear_arith);
        vstd::arithmetic::div_mod::lemma_fundamental_div_mod_converse((v / 256) as int, p as int, q as int, (r / 256) as int);
        assert((v / 256) % p == r / 256);
        lemma_be_bytes_mod(v / 256, (n - 1) as nat);
        lemma_be_bytes_mod(r / 256, (n - 1) as nat);
        vstd::arithmetic::div_mod::lemma_small_mod(r / 256, p);
        assert(be_bytes(v, n) =~= be_bytes(r, n));
    } else {
        assert(be_bytes(v, n) =~= be_bytes(v % pow256(n), n));
    }
}

/// The bytes found fit the number.
proof fn lemma_signed_len_fits(v: i128, n: nat)
    requires
        1 <= n <= 16,
    ensures
        n <= signed_len(v, n) <= 16,
        fits_in_bytes(v as int, signed_len(v, n)),
    decreases 16 - n,
{
    if n == 16 {
        lemma_pow256_16();
        assert(pow256(16) == 256 * pow256(15));
    } else if !fits_in_bytes(v as int, n) {
        lemma_signed_len_fits(v, n + 1);
    }
}

/// Reading the bytes of a number gives the number.
pub proof fn signed_value_of_signed_bytes(v: i128)
    ensures
        signed_value(signed_bytes(v)) == v,
        1 <= signed_bytes(v).len() <= 16,
{
    let n = signed_len(v, 1);
    lemma_signed_len_fits(v, 1);
    let p = pow256((n - 1) as nat) as int;
    lemma_pow256_positive((n - 1) as nat);
    assert(pow256(n) == 256 * p);
    let s = signed_bytes(v);
    let x = twos_complement(v);
    lemma_be_bytes_len(x, n);
    lemma_be_bytes_mod(x, n);
    lemma_pow256_positive(n);
    lemma_first_byte(s);
    if v >= 0 {
        vstd::arithmetic::div_mod::lemma_small_mod(x, pow256(n));
        lemma_be_value_of_bytes(x, n);
        assert(s[0] < 128) by (nonlinear_arith)
            requires
                s[0] * p <= x < 128 * p,
                p > 0,
        ;
    } else {
        lemma_pow256_16();
        lemma_pow256_add(n, (16 - n) as nat);
        let k = pow256((16 - n) as nat) as int;
        lemma_pow256_positive((16 - n) as nat);
        let y = v + 256 * p;
        assert(x == (256 * p) * (k - 1) + y) by (nonlinear_arith)
            requires
                x == v + (256 * p) * k,
                y == v + 256 * p,
        ;
        vstd::arithmetic::div_mod::lemma_fundamental_div_mod_converse(x as int, 256 * p, k - 1, y);
        lemma_be_value_of_bytes(y as nat, n);
        assert(s[0] >= 128) by (nonlinear_arith)
            requires
                y < (s[0] + 1) * p,
                y >= 128 * p,
                p > 0,
        ;
    }
}

/// Sixteen bytes hold numbers with their sign.
proof fn lemma_signed_bounds(b: Seq<u8>)
    requires
        b.len() <= 16,
    ensures
        i128::MIN <= signed_value(b) <= i128::MAX,
        be_value(b) < pow256(b.len()),
        pow256(b.len()) <= pow256(16),
{
    lemma_be_bytes_of_value(b);
    lemma_pow256_16();
    lemma_pow256_add(b.len(), (16 - b.len()) as nat);
    lemma_pow256_positive((16 - b.len()) as nat);
    lemma_pow256_positive(b.len());
    assert(pow256(b.len()) <= pow256(b.len()) * pow256((16 - b.len()) as nat)) by (nonlinear_arith)
        requires
            pow256((16 - b.len()) as nat) >= 1,
            pow256(b.len()) >= 0,
    ;
    if b.len() > 0 {
        lemma_first_byte(b);
        let p = pow256((b.len() - 1) as nat) as int;
        lemma_pow256_positive((b.len() - 1) as nat);
        if b[0] >= 128 {
            assert(128 * p <= b[0] * p) by (nonlinear_arith)
                requires
                    b[0] >= 128,
                    p > 0,
            ;
        } else {
            assert((b[0] + 1) * p <= 128 * p) by (nonlinear_arith)
                requires
                    b[0] < 128,
                    p > 0,
            ;
        }
    }
}

/// Reads a number with its sign.
pub fn sign_extended(bytes: &[u8]) -> (value: i128)
    requires
        bytes.len() <= 16,
    ensures
        value == signed_value(bytes@),
{
    let mut acc: u128 = 0;
    let mut mask: u128 = 0;
    let mut i: usize = 0;
    assert(bytes@.take(0) =~= Seq::<u8>::empty());
    while i < bytes.len()
        invariant
            i <= bytes.len() <= 16,
            acc == be_value(bytes@.take(i as int)),
            mask == pow256(i as nat) - 1,
        decreases bytes.len() - i,
    {
        proof {
            lemma_pow256_16();
            assert(bytes@.take(i + 1).drop_last() =~= bytes@.take(i as int));
            lemma_signed_bounds(bytes@.take(i + 1));
        }
        acc = acc * 256 + bytes[i] as u128;
        mask = mask * 256 + 255;
        i += 1;
    }
    proof {
        lemma_pow256_16();
        assert(bytes@.take(i as int) =~= bytes@);
        lemma_signed_bounds(bytes@);
    }
    if bytes.len() > 0 && bytes[0] >= 128 {
        -((mask - acc) as i128) - 1
    } else {
        acc as i128
    }
}

/// A number has as few bytes as hold it with its sign.
pub proof fn signed_bytes_are_the_fewest(v: i128)
    ensures
        ({
            let n = signed_bytes(v).len();
            &&& 1 <= n <= 16
            &&& n < 16 ==> -(128 * pow256((n - 1) as nat)) <= v < 128 * pow256((n - 1) as nat)
            &&& n > 1 ==> !(-(128 * pow256((n - 2) as nat)) <= v < 128 * pow256((n - 2) as nat))
        }),
{
    lemma_signed_len(v, 1);
    lemma_be_bytes_len(twos_complement(v), signed_len(v, 1));
    lemma_fewest(v, 1);
}

proof fn lemma_fewest(v: i128, n: nat)
    requires
        1 <= n <= 16,
    ensures
        n <= signed_len(v, n) <= 16,
        signed_len(v, n) < 16 ==> fits_in_bytes(v as int, signed_len(v, n)),
        signed_len(v, n) > n ==> !fits_in_bytes(v as int, (signed_len(v, n) - 1) as nat),
    decreases 16 - n,
{
    if n < 16 && !fits_in_bytes(v as int, n) {
        lemma_fewest(v, n + 1);
    }
}

/// The first byte of a number has the sign, and each byte behind it eight more bits. No bytes are zero.
pub proof fn signed_values_grow_by_bytes(bytes: Seq<u8>, next: u8)
    ensures
        signed_value(Seq::<u8>::empty()) == 0,
        signed_value(seq![next]) == (if next < 128 {
            next as int
        } else {
            next - 256
        }),
        bytes.len() > 0 ==> signed_value(bytes.push(next)) == 256 * signed_value(bytes) + next,
{
    let one = seq![next];
    assert(one.drop_last() =~= Seq::<u8>::empty());
    reveal_with_fuel(be_value, 2);
    reveal_with_fuel(pow256, 2);
    let longer = bytes.push(next);
    assert(longer.drop_last() =~= bytes);
    if bytes.len() > 0 {
        assert(longer[0] == bytes[0]);
        assert(be_value(longer) == 256 * be_value(bytes) + next);
        assert(pow256(longer.len()) == 256 * pow256(bytes.len()));
    }
}

} // verus!
