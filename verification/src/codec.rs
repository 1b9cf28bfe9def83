//! Unsigned numbers as bytes, most significant byte first.
use vstd::prelude::*;

verus! {

/// How many numbers `n` bytes tell apart.
pub open spec fn pow256(n: nat) -> nat
    decreases n,
{
    if n == 0 {
        1
    } else {
        256 * pow256((n - 1) as nat)
    }
}

/// The last `n` bytes of `v`, most significant first.
pub open spec fn be_bytes(v: nat, n: nat) -> Seq<u8>
    decreases n,
{
    if n == 0 {
        Seq::empty()
    } else {
        be_bytes(v / 256, (n - 1) as nat).push((v % 256) as u8)
    }
}

/// The number that the bytes stand for, most significant first.
pub open spec fn be_value(s: Seq<u8>) -> nat
    decreases s.len(),
{
    if s.len() == 0 {
        0
    } else {
        be_value(s.drop_last()) * 256 + s.last() as nat
    }
}

pub proof fn lemma_pow256()
    ensures
        pow256(1) == 0x100,
        pow256(2) == 0x1_0000,
        pow256(3) == 0x100_0000,
        pow256(4) == 0x1_0000_0000,
        pow256(5) == 0x100_0000_0000,
        pow256(6) == 0x1_0000_0000_0000,
        pow256(7) == 0x100_0000_0000_0000,
        pow256(8) == 0x1_0000_0000_0000_0000,
{
    reveal_with_fuel(pow256, 9);
}

pub proof fn lemma_be_bytes_len(v: nat, n: nat)
    ensures
        be_bytes(v, n).len() == n,
    decreases n,
{
    if n > 0 {
        lemma_be_bytes_len(v / 256, (n - 1) as nat);
    }
}

/// Reading the bytes of a number gives the number.
pub proof fn lemma_be_value_of_bytes(v: nat, n: nat)
    requires
        v < pow256(n),
    ensures
        be_value(be_bytes(v, n)) == v,
        be_bytes(v, n).len() == n,
    decreases n,
{
    lemma_be_bytes_len(v, n);
    if n > 0 {
        lemma_be_value_of_bytes(v / 256, (n - 1) as nat);
        let s = be_bytes(v, n);
        assert(s.drop_last() =~= be_bytes(v / 256, (n - 1) as nat));
    }
}

/// The bytes of the number that bytes stand for are those bytes.
pub proof fn lemma_be_bytes_of_value(s: Seq<u8>)
    ensures
        be_bytes(be_value(s), s.len()) == s,
        be_value(s) < pow256(s.len()),
    decreases s.len(),
{
    if s.len() > 0 {
        lemma_be_bytes_of_value(s.drop_last());
        assert(be_bytes(be_value(s), s.len()) =~= s);
    } else {
        assert(be_bytes(be_value(s), s.len()) =~= s);
    }
}

/// Appends the last `n` bytes of `v`.
pub fn put_be(out: &mut Vec<u8>, v: u64, n: usize)
    ensures
        final(out)@ == old(out)@ + be_bytes(v as nat, n as nat),
    decreases n,
{
    if n > 0 {
        let ghost start = out@;
        put_be(out, v / 256, n - 1);
        out.push((v % 256) as u8);
        assert(out@ =~= start + be_bytes(v as nat, n as nat));
    } else {
        assert(out@ =~= old(out)@ + be_bytes(v as nat, 0));
    }
}

/// Reads `n` bytes from `pos` on.
pub fn get_be(buf: &[u8], pos: usize, n: usize) -> (v: u64)
    requires
        n <= 8,
        pos + n <= buf.len(),
    ensures
        v == be_value(buf@.subrange(pos as int, pos + n)),
        v < pow256(n as nat),
{
    let mut v: u64 = 0;
    let mut i: usize = 0;
    let ghost all = buf@.subrange(pos as int, pos + n);
    assert(all.take(0) =~= Seq::<u8>::empty());
    while i < n
        invariant
            i <= n <= 8,
            pos + n <= buf.len(),
            all == buf@.subrange(pos as int, pos + n),
            v == be_value(all.take(i as int)),
        decreases n - i,
    {
        proof {
            lemma_pow256();
            lemma_be_bytes_of_value(all.take(i as int));
            lemma_be_bytes_of_value(all.take(i + 1));
            assert(all.take(i + 1).drop_last() =~= all.take(i as int));
            assert(i + 1 == 1 || i + 1 == 2 || i + 1 == 3 || i + 1 == 4 || i + 1 == 5 || i + 1 == 6 || i + 1 == 7 || i + 1 == 8);
        }
        v = v * 256 + buf[pos + i] as u64;
        i += 1;
    }
    proof {
        assert(all.take(i as int) =~= all);
        lemma_be_bytes_of_value(all);
    }
    v
}

/// The most significant byte comes first.
pub proof fn most_significant_bytes_come_first(v: nat, n: nat, i: int)
    requires
        0 <= i < n,
    ensures
        be_bytes(v, n).len() == n,
        be_bytes(v, n)[i] == (v / pow256((n - 1 - i) as nat)) % 256,
    decreases n,
{
    lemma_be_bytes_len(v, n);
    lemma_be_bytes_len(v / 256, (n - 1) as nat);
    if i == n - 1 {
        assert(v / 1 == v);
    } else {
        most_significant_bytes_come_first(v / 256, (n - 1) as nat, i);
        let k = (n - 2 - i) as nat;
        lemma_pow256_positive(k);
        vstd::arithmetic::div_mod::lemma_div_denominator(v as int, 256, pow256(k) as int);
        assert(pow256(k + 1) == 256 * pow256(k));
    }
}

pub proof fn lemma_pow256_positive(n: nat)
    ensures
        pow256(n) > 0,
    decreases n,
{
    if n > 0 {
        lemma_pow256_positive((n - 1) as nat);
    }
}

} // verus!
