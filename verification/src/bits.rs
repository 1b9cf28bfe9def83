//! Bits of numbers and of byte strings, and fixed-width numbers packed into bytes.
//!
//! Bit `q` of a byte string is bit `q % 8` of its byte `q / 8`, the least significant bit of a byte
//! first.
use vstd::prelude::*;
use vstd::arithmetic::power2::pow2;

verus! {

/// Bit `b` of `v`.
pub open spec fn nat_bit(v: nat, b: nat) -> bool {
    (v / pow2(b)) % 2 == 1
}

/// Bit `q` of a byte string.
pub open spec fn stream_bit(bytes: Seq<u8>, q: int) -> bool {
    nat_bit(bytes[q / 8] as nat, (q % 8) as nat)
}

/// The number whose `width` bits stand in `bytes` from bit `start` on.
pub open spec fn unpacked(bytes: Seq<u8>, start: int, width: nat) -> nat
    decreases width,
{
    if width == 0 {
        0
    } else {
        unpacked(bytes, start, (width - 1) as nat) + if stream_bit(bytes, start + width - 1) {
            pow2((width - 1) as nat)
        } else {
            0
        }
    }
}

/// Bit `q` of the numbers `values` written one after another with `width` bits each.
pub open spec fn packed_bit(values: Seq<nat>, width: nat, q: int) -> bool {
    width > 0 && 0 <= q && q / (width as int) < values.len() && nat_bit(values[q / (width as int)], (q % (width as int)) as nat)
}

pub open spec fn bit_value(b: bool) -> int {
    if b {
        1
    } else {
        0
    }
}

/// The byte with the bits `f(0)`, ..., `f(7)`.
pub open spec fn byte_of(f: spec_fn(int) -> bool) -> u8 {
    (bit_value(f(0)) + 2 * bit_value(f(1)) + 4 * bit_value(f(2)) + 8 * bit_value(f(3)) + 16 * bit_value(f(4)) + 32
        * bit_value(f(5)) + 64 * bit_value(f(6)) + 128 * bit_value(f(7))) as u8
}

/// How many bytes `bits` bits take.
pub open spec fn bytes_for(bits: int) -> int {
    (bits + 7) / 8
}

/// The numbers `values` written one after another with `width` bits each; the bits that are left
/// over in the last byte are zero.
pub open spec fn packed(values: Seq<nat>, width: nat) -> Seq<u8> {
    Seq::new(
        bytes_for((values.len() * width) as int) as nat,
        |b: int| byte_of(|k: int| packed_bit(values, width, 8 * b + k)),
    )
}

pub open spec fn flag_values(flags: Seq<bool>) -> Seq<nat> {
    Seq::new(flags.len(), |i: int| bit_value(flags[i]) as nat)
}

/// One bit for each flag.
pub open spec fn packed_flags(flags: Seq<bool>) -> Seq<u8> {
    packed(flag_values(flags), 1)
}

pub open spec fn all_below(values: Seq<nat>, bound: nat) -> bool {
    forall|i: int| 0 <= i < values.len() ==> #[trigger] values[i] < bound
}

// ---------------------------------------------------------------- lemmas

pub proof fn lemma_u64_bit(v: u64, b: u64)
    requires
        b < 64,
    ensures
        nat_bit(v as nat, b as nat) == ((v >> b) & 1 == 1),
{
    vstd::bits::lemma_u64_shr_is_div(v, b);
    let s: u64 = v >> b;
    assert(s & 1 == s % 2) by (bit_vector);
}

pub proof fn lemma_u8_bit(v: u8, b: u8)
    requires
        b < 8,
    ensures
        nat_bit(v as nat, b as nat) == ((v >> b) & 1 == 1),
{
    vstd::bits::lemma_u8_shr_is_div(v, b);
    let s: u8 = v >> b;
    assert(s & 1 == s % 2) by (bit_vector);
}

/// Two bytes with the same bits are the same byte.
pub proof fn lemma_byte_ext(a: u8, b: u8)
    requires
        forall|k: nat| k < 8 ==> #[trigger] nat_bit(a as nat, k) == nat_bit(b as nat, k),
    ensures
        a == b,
{
    assert forall|k: u8| k < 8 implies (#[trigger] (a >> k) & 1 == 1) == ((b >> k) & 1 == 1) by {
        lemma_u8_bit(a, k);
        lemma_u8_bit(b, k);
        assert(nat_bit(a as nat, k as nat) == nat_bit(b as nat, k as nat));
    }
    assert(a == b) by (bit_vector)
        requires
            ((a >> 0u8) & 1 == 1) == ((b >> 0u8) & 1 == 1),
            ((a >> 1u8) & 1 == 1) == ((b >> 1u8) & 1 == 1),
            ((a >> 2u8) & 1 == 1) == ((b >> 2u8) & 1 == 1),
            ((a >> 3u8) & 1 == 1) == ((b >> 3u8) & 1 == 1),
            ((a >> 4u8) & 1 == 1) == ((b >> 4u8) & 1 == 1),
            ((a >> 5u8) & 1 == 1) == ((b >> 5u8) & 1 == 1),
            ((a >> 6u8) & 1 == 1) == ((b >> 6u8) & 1 == 1),
            ((a >> 7u8) & 1 == 1) == ((b >> 7u8) & 1 == 1),
    ;
}

proof fn lemma_sum_bits(b0: int, b1: int, b2: int, b3: int, b4: int, b5: int, b6: int, b7: int, k: nat)
    requires
        0 <= b0 <= 1,
        0 <= b1 <= 1,
        0 <= b2 <= 1,
        0 <= b3 <= 1,
        0 <= b4 <= 1,
        0 <= b5 <= 1,
        0 <= b6 <= 1,
        0 <= b7 <= 1,
        k < 8,
    ensures
        ({
            let s = b0 + 2 * b1 + 4 * b2 + 8 * b3 + 16 * b4 + 32 * b5 + 64 * b6 + 128 * b7;
            &&& 0 <= s < 256
            &&& (s / pow2(k) as int) % 2 == seq![b0, b1, b2, b3, b4, b5, b6, b7][k as int]
        }),
{
    vstd::arithmetic::power2::lemma2_to64();
    let s = b0 + 2 * b1 + 4 * b2 + 8 * b3 + 16 * b4 + 32 * b5 + 64 * b6 + 128 * b7;
    assert(s / 2 == b1 + 2 * b2 + 4 * b3 + 8 * b4 + 16 * b5 + 32 * b6 + 64 * b7);
    assert(s / 4 == b2 + 2 * b3 + 4 * b4 + 8 * b5 + 16 * b6 + 32 * b7);
    assert(s / 8 == b3 + 2 * b4 + 4 * b5 + 8 * b6 + 16 * b7);
    assert(s / 16 == b4 + 2 * b5 + 4 * b6 + 8 * b7);
    assert(s / 32 == b5 + 2 * b6 + 4 * b7);
    assert(s / 64 == b6 + 2 * b7);
    assert(s / 128 == b7);
    let t = seq![b0, b1, b2, b3, b4, b5, b6, b7];
    if k == 0 {
        assert(s % 2 == b0);
    } else if k == 1 {
        assert((s / 2) % 2 == b1);
    } else if k == 2 {
        assert((s / 4) % 2 == b2);
    } else if k == 3 {
        assert((s / 8) % 2 == b3);
    } else if k == 4 {
        assert((s / 16) % 2 == b4);
    } else if k == 5 {
        assert((s / 32) % 2 == b5);
    } else if k == 6 {
        assert((s / 64) % 2 == b6);
    } else {
        assert((s / 128) % 2 == b7);
    }
}

pub proof fn lemma_byte_of(f: spec_fn(int) -> bool, k: int)
    requires
        0 <= k < 8,
    ensures
        nat_bit(byte_of(f) as nat, k as nat) == f(k),
{
    lemma_sum_bits(
        bit_value(f(0)),
        bit_value(f(1)),
        bit_value(f(2)),
        bit_value(f(3)),
        bit_value(f(4)),
        bit_value(f(5)),
        bit_value(f(6)),
        bit_value(f(7)),
        k as nat,
    );
}

pub proof fn lemma_packed_stream(values: Seq<nat>, width: nat, q: int)
    requires
        0 <= q < 8 * packed(values, width).len(),
    ensures
        stream_bit(packed(values, width), q) == packed_bit(values, width, q),
{
    let b = q / 8;
    let f = |k: int| packed_bit(values, width, 8 * b + k);
    lemma_byte_of(f, q % 8);
    assert(8 * b + q % 8 == q);
}

/// A byte string with the right length and the right bits is the packed one.
pub proof fn lemma_packed_by_bits(bytes: Seq<u8>, values: Seq<nat>, width: nat)
    requires
        bytes.len() == bytes_for((values.len() * width) as int),
        forall|q: int| 0 <= q < 8 * bytes.len() ==> #[trigger] stream_bit(bytes, q) == packed_bit(values, width, q),
    ensures
        bytes == packed(values, width),
{
    let p = packed(values, width);
    assert(0 <= values.len() * width) by (nonlinear_arith);
    assert forall|i: int| 0 <= i < bytes.len() implies bytes[i] == p[i] by {
        assert forall|k: nat| k < 8 implies #[trigger] nat_bit(bytes[i] as nat, k) == nat_bit(p[i] as nat, k) by {
            let q = 8 * i + k;
            assert(q / 8 == i && q % 8 == k);
            lemma_packed_stream(values, width, q);
            assert(stream_bit(bytes, q) == packed_bit(values, width, q));
        }
        lemma_byte_ext(bytes[i], p[i]);
    }
    assert(bytes =~= p);
}

pub proof fn lemma_bits_determine(bytes: Seq<u8>, start: int, width: nat, v: nat)
    requires
        forall|b: int| 0 <= b < width ==> #[trigger] stream_bit(bytes, start + b) == nat_bit(v, b as nat),
    ensures
        unpacked(bytes, start, width) == v % pow2(width),
    decreases width,
{
    vstd::arithmetic::power2::lemma2_to64();
    if width > 0 {
        let n = (width - 1) as nat;
        lemma_bits_determine(bytes, start, n, v);
        vstd::arithmetic::power2::lemma_pow2_pos(n);
        vstd::arithmetic::power2::lemma_pow2_unfold(width);
        vstd::arithmetic::div_mod::lemma_mod_breakdown(v as int, pow2(n) as int, 2);
        assert(stream_bit(bytes, start + n as int) == nat_bit(v, n));
        assert(pow2(n) as int * 2 == pow2(width));
        let r = (v as int / pow2(n) as int) % 2;
        assert(r == 0 || r == 1);
        assert(pow2(n) as int * r == if r == 1 { pow2(n) as int } else { 0 }) by (nonlinear_arith)
            requires
                r == 0 || r == 1,
        ;
    }
}

/// Reading a packed number gives the number.
pub proof fn unpack_undoes_pack(values: Seq<nat>, width: nat, i: int, before: Seq<u8>, after: Seq<u8>)
    requires
        0 <= i < values.len(),
        all_below(values, pow2(width)),
    ensures
        unpacked(before + packed(values, width) + after, 8 * before.len() + i * width, width) == values[i],
{
    let p = packed(values, width);
    let all = before + p + after;
    let start = 8 * before.len() + i * width;
    let v = values[i];
    assert(v < pow2(width));
    assert forall|b: int| 0 <= b < width implies #[trigger] stream_bit(all, start + b) == nat_bit(v, b as nat) by {
        let q = i * width + b;
        assert(0 <= q < values.len() * width) by (nonlinear_arith)
            requires
                q == i * width + b,
                0 <= i < values.len(),
                0 <= b < width,
        ;
        vstd::arithmetic::div_mod::lemma_fundamental_div_mod_converse(q, width as int, i, b);
        lemma_packed_stream(values, width, q);
        assert((start + b) / 8 == before.len() + q / 8);
        assert((start + b) % 8 == q % 8);
        assert(all[(start + b) / 8] == p[q / 8]);
    }
    lemma_bits_determine(all, start, width, v);
    vstd::arithmetic::div_mod::lemma_small_mod(v, pow2(width));
}

// ---------------------------------------------------------------- executable functions

/// Bit `q` of a byte string.
pub fn get_bit(bytes: &[u8], q: usize) -> (set: bool)
    requires
        q / 8 < bytes.len(),
    ensures
        set == stream_bit(bytes@, q as int),
{
    let k: u8 = (q % 8) as u8;
    let byte: u8 = bytes[q / 8];
    proof {
        lemma_u8_bit(byte, k);
    }
    (byte >> k) & 1 == 1
}

/// Sets bit `q`, and no other.
pub fn set_bit(bytes: &mut Vec<u8>, q: usize)
    requires
        q / 8 < old(bytes).len(),
    ensures
        final(bytes).len() == old(bytes).len(),
        forall|p: int|
            0 <= p < 8 * old(bytes).len() ==> #[trigger] stream_bit(final(bytes)@, p) == (p == q || stream_bit(old(bytes)@, p)),
{
    let k: u8 = (q % 8) as u8;
    let i: usize = q / 8;
    let byte: u8 = bytes[i];
    let new_byte: u8 = byte | (1u8 << k);
    bytes.set(i, new_byte);
    proof {
        assert forall|p: int| 0 <= p < 8 * old(bytes).len() implies #[trigger] stream_bit(bytes@, p) == (p == q || stream_bit(
            old(bytes)@,
            p,
        )) by {
            if p / 8 == i {
                let m: u8 = (p % 8) as u8;
                lemma_u8_bit(byte, m);
                lemma_u8_bit(new_byte, m);
                assert(((new_byte >> m) & 1 == 1) == (m == k || ((byte >> m) & 1 == 1))) by (bit_vector)
                    requires
                        new_byte == byte | (1u8 << k),
                        k < 8,
                        m < 8,
                ;
            }
        }
    }
}

/// The number of bytes that `bits` bits take.
pub fn byte_count(bits: usize) -> (count: usize)
    ensures
        count == bytes_for(bits as int),
{
    if bits % 8 == 0 {
        bits / 8
    } else {
        bits / 8 + 1
    }
}

/// Sets the bits of the rows that are null, from bit `start_row` on.
pub fn append_null_bitmap(bitmap: &mut Vec<u8>, start_row: usize, nulls: &[bool])
    requires
        start_row + nulls@.len() <= 8 * old(bitmap)@.len(),
        start_row + nulls@.len() <= usize::MAX,
    ensures
        final(bitmap).len() == old(bitmap).len(),
        forall|q: int|
            0 <= q < 8 * old(bitmap).len() ==> #[trigger] stream_bit(final(bitmap)@, q) == (stream_bit(old(bitmap)@, q) || (start_row <= q
                < start_row + nulls@.len() && nulls@[q - start_row])),
{
    let ghost before = bitmap@;
    let mut i: usize = 0;
    while i < nulls.len()
        invariant
            i <= nulls@.len(),
            bitmap@.len() == before.len(),
            start_row + nulls@.len() <= 8 * before.len(),
            start_row + nulls@.len() <= usize::MAX,
            forall|q: int|
                0 <= q < 8 * before.len() ==> #[trigger] stream_bit(bitmap@, q) == (stream_bit(before, q) || (start_row <= q < start_row + i
                    && nulls@[q - start_row])),
        decreases nulls@.len() - i,
    {
        if nulls[i] {
            set_bit(bitmap, start_row + i);
        }
        i += 1;
    }
}

/// One bit for each flag, in a new byte string.
pub fn pack_flags(flags: &[bool]) -> (bytes: Vec<u8>)
    ensures
        bytes@ == packed_flags(flags@),
{
    let mut bytes: Vec<u8> = vec![0u8; byte_count(flags.len())];
    proof {
        assert forall|q: int| 0 <= q < 8 * bytes.len() implies !#[trigger] stream_bit(bytes@, q) by {
            lemma_u8_bit(0u8, (q % 8) as u8);
            let k: u8 = (q % 8) as u8;
            assert((0u8 >> k) & 1 == 0) by (bit_vector);
        }
    }
    append_null_bitmap(&mut bytes, 0, flags);
    proof {
        let values = flag_values(flags@);
        vstd::arithmetic::power2::lemma2_to64();
        assert forall|q: int| 0 <= q < 8 * bytes.len() implies #[trigger] stream_bit(bytes@, q) == packed_bit(values, 1, q) by {
            if q < flags.len() {
                assert(values[q] == bit_value(flags@[q]));
            }
        }
        lemma_packed_by_bits(bytes@, values, 1);
    }
    bytes
}

/// Reads the number of `bit_width` bits at bit `bit_offset` behind byte `byte_base`.
pub fn read_bit_packed(buf: &[u8], byte_base: usize, bit_offset: usize, bit_width: usize) -> (value: usize)
    requires
        bit_width <= 32,
        byte_base + bytes_for(bit_offset + bit_width) <= buf.len(),
        bit_offset + bit_width <= usize::MAX,
    ensures
        value == unpacked(buf@, 8 * byte_base + bit_offset, bit_width as nat),
        value < pow2(bit_width as nat),
{
    let mut value: u64 = 0;
    let mut b: usize = 0;
    proof {
        vstd::arithmetic::power2::lemma2_to64();
    }
    while b < bit_width
        invariant
            b <= bit_width <= 32,
            byte_base + bytes_for(bit_offset + bit_width) <= buf.len(),
            bit_offset + bit_width <= usize::MAX,
            value == unpacked(buf@, 8 * byte_base + bit_offset, b as nat),
            value < pow2(b as nat),
            pow2(32) == 0x1_0000_0000,
        decreases bit_width - b,
    {
        let global_bit: usize = bit_offset + b;
        let byte: u8 = buf[byte_base + global_bit / 8];
        let k: u8 = (global_bit % 8) as u8;
        proof {
            lemma_u8_bit(byte, k);
            assert((8 * byte_base + bit_offset + b) / 8 == byte_base + global_bit / 8);
            assert((8 * byte_base + bit_offset + b) % 8 == global_bit % 8);
            vstd::arithmetic::power2::lemma_pow2_unfold((b + 1) as nat);
            if b + 1 < 32 {
                vstd::arithmetic::power2::lemma_pow2_strictly_increases((b + 1) as nat, 32);
            }
            vstd::bits::lemma_u64_pow2_no_overflow(b as nat);
            vstd::bits::lemma_u64_shl_is_mul(1, b as u64);
        }
        if (byte >> k) & 1 == 1 {
            value = value + (1u64 << (b as u64));
        }
        b += 1;
    }
    proof {
        if bit_width < 32 {
            vstd::arithmetic::power2::lemma_pow2_strictly_increases(bit_width as nat, 32);
        }
    }
    value as usize
}

proof fn lemma_shifted_byte(value: u64, shift: u64, i: u64, k: u64)
    requires
        shift < 8,
        i < 8,
        k < 8,
    ensures
        ({
            let chunk = (((value << shift) >> (8 * i) as u64) & 0xff) as u8;
            nat_bit(chunk as nat, k as nat) == (8 * i + k >= shift && nat_bit(value as nat, (8 * i + k - shift) as nat))
        }),
{
    let chunk = (((value << shift) >> (8 * i) as u64) & 0xff) as u8;
    let kk: u8 = k as u8;
    lemma_u8_bit(chunk, kk);
    if 8 * i + k >= shift {
        let p: u64 = (8 * i + k - shift) as u64;
        lemma_u64_bit(value, p);
        assert(((chunk >> kk) & 1 == 1) == ((value >> p) & 1 == 1)) by (bit_vector)
            requires
                chunk == (((value << shift) >> (8 * i) as u64) & 0xff) as u8,
                p == (8 * i + k - shift) as u64,
                8 * i + k >= shift,
                shift < 8,
                i < 8,
                k < 8,
                kk == k as u8,
        ;
    } else {
        assert((chunk >> kk) & 1 == 0) by (bit_vector)
            requires
                chunk == (((value << shift) >> (8 * i) as u64) & 0xff) as u8,
                8 * i + k < shift,
                shift < 8,
                i < 8,
                k < 8,
                kk == k as u8,
        ;
    }
}

/// Writes `value` over the `bw` bits at bit `bit_offset` behind byte `byte_base`, which keep the
/// bits that they already have.
pub fn write_bit_packed(buf: &mut Vec<u8>, byte_base: usize, bit_offset: usize, value: usize, bw: usize)
    requires
        bw <= 32,
        value < pow2(bw as nat),
        byte_base + bytes_for(bit_offset + bw) <= old(buf).len(),
        bit_offset + bw <= usize::MAX,
    ensures
        final(buf).len() == old(buf).len(),
        forall|q: int|
            0 <= q < 8 * old(buf).len() ==> #[trigger] stream_bit(final(buf)@, q) == (stream_bit(old(buf)@, q) || (8 * byte_base
                + bit_offset <= q < 8 * byte_base + bit_offset + bw && nat_bit(
                value as nat,
                (q - 8 * byte_base - bit_offset) as nat,
            ))),
{
    if bw == 0 {
        return;
    }
    let start_byte: usize = byte_base + bit_offset / 8;
    let bit_shift: usize = bit_offset % 8;
    let shifted: u64 = (value as u64) << (bit_shift as u64);
    let num_bytes: usize = byte_count(bit_shift + bw);
    let ghost first = 8 * byte_base + bit_offset;
    assert(first == 8 * start_byte + bit_shift);
    let mut i: usize = 0;
    while i < num_bytes
        invariant
            bw <= 32,
            bit_shift < 8,
            i <= num_bytes,
            num_bytes == bytes_for(bit_shift + bw),
            num_bytes <= 5,
            first == 8 * start_byte + bit_shift,
            start_byte + num_bytes <= buf.len(),
            buf.len() == old(buf).len(),
            shifted == (value as u64) << (bit_shift as u64),
            value < pow2(bw as nat),
            forall|q: int|
                0 <= q < 8 * buf.len() ==> #[trigger] stream_bit(buf@, q) == (stream_bit(old(buf)@, q) || (first <= q < first + bw
                    && q < 8 * (start_byte + i) && nat_bit(value as nat, (q - first) as nat))),
        decreases num_bytes - i,
    {
        let chunk: u8 = ((shifted >> (8 * i as u64)) & 0xff) as u8;
        let at: usize = start_byte + i;
        let before: u8 = buf[at];
        let ghost previous = buf@;
        let after: u8 = before | chunk;
        buf.set(at, after);
        proof {
            assert forall|q: int| 0 <= q < 8 * buf.len() implies #[trigger] stream_bit(buf@, q) == (stream_bit(old(buf)@, q) || (first
                <= q < first + bw && q < 8 * (start_byte + i + 1) && nat_bit(value as nat, (q - first) as nat))) by {
                assert(stream_bit(previous, q) == (stream_bit(old(buf)@, q) || (first <= q < first + bw && q < 8 * (start_byte + i)
                    && nat_bit(value as nat, (q - first) as nat))));
                if q / 8 == at {
                    let k: u8 = (q % 8) as u8;
                    lemma_u8_bit(before, k);
                    lemma_u8_bit(chunk, k);
                    lemma_u8_bit(after, k);
                    assert(((after >> k) & 1 == 1) == (((before >> k) & 1 == 1) || ((chunk >> k) & 1 == 1))) by (bit_vector)
                        requires
                            after == before | chunk,
                            k < 8,
                    ;
                    lemma_shifted_byte(value as u64, bit_shift as u64, i as u64, k as u64);
                    assert(q - 8 * start_byte == 8 * i + k);
                    if q >= first + bw {
                        lemma_high_bits_are_zero(value as nat, bw as nat, (q - first) as nat);
                    }
                }
            }
        }
        i += 1;
    }
}

pub proof fn lemma_high_bits_are_zero(v: nat, width: nat, b: nat)
    requires
        v < pow2(width),
        width <= b,
    ensures
        !nat_bit(v, b),
{
    if width < b {
        vstd::arithmetic::power2::lemma_pow2_strictly_increases(width, b);
    }
    vstd::arithmetic::div_mod::lemma_basic_div(v as int, pow2(b) as int);
}

/// How many bits an index into `num_entries` entries takes.
pub open spec fn index_width(num_entries: nat) -> nat
    decreases num_entries,
{
    if num_entries <= 1 {
        0
    } else {
        1 + index_width((num_entries + 1) / 2)
    }
}

/// The width is the least one that holds every index.
pub proof fn lemma_index_width(num_entries: nat)
    ensures
        num_entries <= pow2(index_width(num_entries)),
        num_entries > 1 ==> pow2((index_width(num_entries) - 1) as nat) < num_entries,
    decreases num_entries,
{
    vstd::arithmetic::power2::lemma2_to64();
    if num_entries > 1 {
        let half = (num_entries + 1) / 2;
        lemma_index_width(half);
        vstd::arithmetic::power2::lemma_pow2_unfold(index_width(num_entries));
        if half > 1 {
            vstd::arithmetic::power2::lemma_pow2_unfold(index_width(half));
        }
    }
}

pub proof fn lemma_index_width_bound(num_entries: nat, width: nat)
    requires
        num_entries <= pow2(width),
    ensures
        index_width(num_entries) <= width,
    decreases num_entries,
{
    vstd::arithmetic::power2::lemma2_to64();
    if num_entries > 1 {
        if width > 0 {
            vstd::arithmetic::power2::lemma_pow2_unfold(width);
            lemma_index_width_bound((num_entries + 1) / 2, (width - 1) as nat);
        }
    }
}

/// How many bits an index into `num_entries` entries takes.
pub fn bit_width(num_entries: usize) -> (width: usize)
    ensures
        width == index_width(num_entries as nat),
{
    let mut rest: usize = num_entries;
    let mut width: usize = 0;
    while rest > 1
        invariant
            width + index_width(rest as nat) == index_width(num_entries as nat),
            width + rest <= num_entries,
        decreases rest,
    {
        rest = rest / 2 + rest % 2;
        width += 1;
    }
    width
}

/// The bits of packed numbers stand one behind the other, the least significant ones first, and fill
/// each byte from its least significant bit on.
pub proof fn bits_stand_in_order(values: Seq<nat>, width: nat, i: int, b: int)
    requires
        0 <= i < values.len(),
        0 <= b < width,
    ensures
        ({
            let q = i * width + b;
            &&& 0 <= q / 8 < packed(values, width).len()
            &&& (packed(values, width)[q / 8] as nat / pow2((q % 8) as nat)) % 2 == (values[i] / pow2(b as nat)) % 2
        }),
{
    let w = width as int;
    let q = i * w + b;
    assert(0 <= q < values.len() * w) by (nonlinear_arith)
        requires
            0 <= i < values.len(),
            0 <= b < w,
            q == i * w + b,
    ;
    vstd::arithmetic::div_mod::lemma_fundamental_div_mod_converse(q, w, i, b);
    lemma_packed_stream(values, width, q);
}

} // verus!
