//! Numbers of at most 32 bits in one to five bytes: seven bits in each byte, the least significant
//! ones first; every byte but the last has its top bit set.
use vstd::prelude::*;
use crate::error::Error;

verus! {

pub open spec fn varint_bytes(v: nat) -> Seq<u8>
    decreases v,
{
    if v < 128 {
        seq![v as u8]
    } else {
        seq![(v % 128 + 128) as u8] + varint_bytes(v / 128)
    }
}

/// What stands at `pos` when `read` bytes of the number have been read before it: the number and
/// the position behind it, or what is wrong.
pub open spec fn varint_tail(data: Seq<u8>, pos: int, read: nat) -> Result<(nat, int), Error>
    decreases 5 - read,
{
    if read >= 5 {
        Err(Error::OversizedVarint)
    } else if pos >= data.len() {
        Err(Error::TruncatedVarint)
    } else if read == 4 && data[pos] > 15 {
        Err(Error::OversizedVarint)
    } else if data[pos] < 128 {
        Ok((data[pos] as nat, pos + 1))
    } else {
        match varint_tail(data, pos + 1, read + 1) {
            Ok((v, next)) => Ok(((data[pos] - 128) as nat + 128 * v, next)),
            Err(e) => Err(e),
        }
    }
}

/// The number at `pos` and the position behind it, or what is wrong.
pub open spec fn varint_at(data: Seq<u8>, pos: int) -> Result<(nat, int), Error> {
    varint_tail(data, pos, 0)
}

/// The numbers that are left to be told apart after `read` bytes.
pub open spec fn tail_limit(read: nat) -> nat {
    if read == 0 {
        0x1_0000_0000
    } else if read == 1 {
        0x200_0000
    } else if read == 2 {
        0x4_0000
    } else if read == 3 {
        0x800
    } else {
        16
    }
}

pub proof fn lemma_tail_bounds(data: Seq<u8>, pos: int, read: nat)
    requires
        0 <= pos,
        read < 5,
    ensures
        varint_tail(data, pos, read) matches Ok((v, next)) ==> v < tail_limit(read) && pos < next <= data.len() && next <= pos
            + 5,
        varint_tail(data, pos, read) matches Ok((v, next)) ==> next <= pos + 5 - read,
    decreases 5 - read,
{
    if pos < data.len() && data[pos] >= 128 && read < 4 {
        lemma_tail_bounds(data, pos + 1, read + 1);
    }
}

pub proof fn lemma_varint_bounds(data: Seq<u8>, pos: int)
    requires
        0 <= pos,
    ensures
        varint_at(data, pos) matches Ok((v, next)) ==> v <= u32::MAX && pos < next <= data.len(),
{
    lemma_tail_bounds(data, pos, 0);
}

pub proof fn lemma_varint_len(v: nat)
    ensures
        varint_bytes(v).len() >= 1,
        v < 128 ==> varint_bytes(v).len() == 1,
        v < 0x4000 ==> varint_bytes(v).len() <= 2,
        v < 0x20_0000 ==> varint_bytes(v).len() <= 3,
        v < 0x1000_0000 ==> varint_bytes(v).len() <= 4,
        v <= u32::MAX ==> varint_bytes(v).len() <= 5,
    decreases v,
{
    if v >= 128 {
        lemma_varint_len(v / 128);
    }
}

proof fn lemma_tail_of_bytes(data: Seq<u8>, pos: int, read: nat, v: nat)
    requires
        0 <= pos,
        read < 5,
        v < tail_limit(read),
        pos + varint_bytes(v).len() <= data.len(),
        data.subrange(pos, pos + varint_bytes(v).len()) == varint_bytes(v),
    ensures
        varint_tail(data, pos, read) == Ok::<(nat, int), Error>((v, pos + varint_bytes(v).len())),
    decreases 5 - read,
{
    let s = varint_bytes(v);
    lemma_varint_len(v);
    assert(data[pos] == data.subrange(pos, pos + s.len())[0]);
    if v >= 128 {
        let rest = varint_bytes(v / 128);
        assert(s.len() == 1 + rest.len());
        assert(data.subrange(pos + 1, pos + 1 + rest.len()) =~= rest) by {
            assert forall|i: int| 0 <= i < rest.len() implies data.subrange(pos + 1, pos + 1 + rest.len())[i] == rest[i] by {
                assert(data.subrange(pos, pos + s.len())[i + 1] == s[i + 1]);
            }
        }
        lemma_tail_of_bytes(data, pos + 1, read + 1, v / 128);
    }
}

/// A number that stands encoded at `pos` is what is read there.
pub proof fn decode_undoes_encode(data: Seq<u8>, pos: int, v: nat)
    requires
        0 <= pos,
        v <= u32::MAX,
        pos + varint_bytes(v).len() <= data.len(),
        data.subrange(pos, pos + varint_bytes(v).len()) == varint_bytes(v),
    ensures
        varint_at(data, pos) == Ok::<(nat, int), Error>((v, pos + varint_bytes(v).len())),
{
    lemma_tail_of_bytes(data, pos, 0, v);
}

/// Appends a number.
pub fn encode(out: &mut Vec<u8>, value: u32)
    ensures
        final(out)@ == old(out)@ + varint_bytes(value as nat),
{
    let mut rest: u32 = value;
    assert(out@ + varint_bytes(rest as nat) =~= old(out)@ + varint_bytes(value as nat));
    while rest >= 128
        invariant
            out@ + varint_bytes(rest as nat) == old(out)@ + varint_bytes(value as nat),
        decreases rest,
    {
        let ghost before = out@;
        out.push((rest % 128 + 128) as u8);
        assert(before + varint_bytes(rest as nat) =~= out@ + varint_bytes((rest / 128) as nat));
        rest = rest / 128;
    }
    let ghost before = out@;
    out.push(rest as u8);
    assert(out@ =~= before + varint_bytes(rest as nat));
}

/// How many bytes a number takes.
pub fn encoded_size(value: u32) -> (size: usize)
    ensures
        size == varint_bytes(value as nat).len(),
        1 <= size <= 5,
{
    let mut rest: u32 = value;
    let mut size: usize = 1;
    proof {
        lemma_varint_len(value as nat);
    }
    while rest >= 128
        invariant
            varint_bytes(value as nat).len() <= 5,
            1 <= size,
            size - 1 + varint_bytes(rest as nat).len() == varint_bytes(value as nat).len(),
        decreases rest,
    {
        proof {
            lemma_varint_len((rest / 128) as nat);
        }
        rest = rest / 128;
        size += 1;
    }
    size
}

fn decode_tail(buf: &[u8], pos: usize, read: usize) -> (result: Result<(u32, usize), Error>)
    requires
        read < 5,
    ensures
        result matches Ok((v, next)) ==> varint_tail(buf@, pos as int, read as nat) == Ok::<(nat, int), Error>(
            (v as nat, next as int),
        ) && v < tail_limit(read as nat) && pos < next <= buf.len(),
        result matches Err(e) ==> varint_tail(buf@, pos as int, read as nat) == Err::<(nat, int), Error>(e),
    decreases 5 - read,
{
    if pos >= buf.len() {
        return Err(Error::TruncatedVarint);
    }
    let byte: u8 = buf[pos];
    if read == 4 && byte > 15 {
        return Err(Error::OversizedVarint);
    }
    if byte < 128 {
        return Ok((byte as u32, pos + 1));
    }
    match decode_tail(buf, pos + 1, read + 1) {
        Ok((v, next)) => Ok(((byte - 128) as u32 + 128 * v, next)),
        Err(e) => Err(e),
    }
}

/// Reads the number at `pos` and moves `pos` behind it; `pos` stays where it is when there is none.
pub fn decode(buf: &[u8], pos: &mut usize) -> (result: Result<u32, Error>)
    ensures
        result matches Ok(v) ==> varint_at(buf@, *old(pos) as int) == Ok::<(nat, int), Error>((v as nat, *final(pos) as int)) && *old(
            pos,
        ) < *final(pos) <= buf.len(),
        result matches Err(e) ==> varint_at(buf@, *old(pos) as int) == Err::<(nat, int), Error>(e) && *final(pos) == *old(pos),
{
    match decode_tail(buf, *pos, 0) {
        Ok((v, next)) => {
            *pos = next;
            Ok(v)
        },
        Err(e) => Err(e),
    }
}

/// How many numbers `n` groups of seven bits tell apart.
pub open spec fn pow128(n: nat) -> nat
    decreases n,
{
    if n == 0 {
        1
    } else {
        128 * pow128((n - 1) as nat)
    }
}

proof fn lemma_pow128_positive(n: nat)
    ensures
        pow128(n) > 0,
    decreases n,
{
    if n > 0 {
        lemma_pow128_positive((n - 1) as nat);
    }
}

/// Each byte holds seven bits of the number, the least significant ones first. All bytes but the last
/// have their top bit set, and there are no more bytes than the number needs.
pub proof fn seven_bits_stand_in_each_byte(v: nat, i: int)
    requires
        0 <= i < varint_bytes(v).len(),
    ensures
        varint_bytes(v)[i] % 128 == (v / pow128(i as nat)) % 128,
        varint_bytes(v)[i] >= 128 <==> i < varint_bytes(v).len() - 1,
        v < pow128(varint_bytes(v).len()),
        varint_bytes(v).len() > 1 ==> v >= pow128((varint_bytes(v).len() - 1) as nat),
    decreases v,
{
    reveal_with_fuel(pow128, 2);
    if v < 128 {
        assert(v / 1 == v);
    } else {
        let rest = varint_bytes(v / 128);
        if i == 0 {
            assert(v / 1 == v);
            assert(rest.len() > 0) by {
                if v / 128 < 128 {
                }
            }
            seven_bits_stand_in_each_byte(v / 128, 0);
        } else {
            assert(varint_bytes(v)[i] == rest[i - 1]);
            seven_bits_stand_in_each_byte(v / 128, i - 1);
            let k = (i - 1) as nat;
            lemma_pow128_positive(k);
            vstd::arithmetic::div_mod::lemma_div_denominator(v as int, 128, pow128(k) as int);
            assert(pow128(k + 1) == 128 * pow128(k));
        }
        assert(pow128(rest.len() + 1) == 128 * pow128(rest.len()));
        if rest.len() > 1 {
            let n = (rest.len() - 1) as nat;
            assert(pow128(n + 1) == 128 * pow128(n));
        }
    }
}

} // verus!
