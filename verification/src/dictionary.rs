//! Dictionaries that grow while values are written.
use vstd::prelude::*;
use vstd::arithmetic::power2::pow2;
use std::collections::HashMap;
use crate::bits::{
    all_below, bit_width, byte_count, bytes_for, index_width, lemma_high_bits_are_zero, lemma_packed_by_bits,
    lemma_u64_bit, lemma_u8_bit, nat_bit, packed, packed_bit, stream_bit, write_bit_packed,
};
use crate::codec::be_bytes;
use crate::values::write_fixed_key_to_vec;

verus! {

// ---------------------------------------------------------------- compact lists of indexes

/// A list of indexes that takes no more bytes for each than the largest one may need.
pub enum CompactIndices {
    U8(Vec<u8>),
    U16(Vec<u16>),
    U32(Vec<u32>),
    Usize(Vec<usize>),
}

impl View for CompactIndices {
    type V = Seq<usize>;

    open spec fn view(&self) -> Seq<usize> {
        match *self {
            CompactIndices::U8(values) => Seq::new(values@.len(), |i: int| values@[i] as usize),
            CompactIndices::U16(values) => Seq::new(values@.len(), |i: int| values@[i] as usize),
            CompactIndices::U32(values) => Seq::new(values@.len(), |i: int| values@[i] as usize),
            CompactIndices::Usize(values) => values@,
        }
    }
}

pub open spec fn as_nats(values: Seq<usize>) -> Seq<nat> {
    Seq::new(values.len(), |i: int| values[i] as nat)
}

impl CompactIndices {
    /// The largest index that the list can hold.
    pub open spec fn largest(self) -> usize {
        match self {
            CompactIndices::U8(_) => u8::MAX as usize,
            CompactIndices::U16(_) => u16::MAX as usize,
            CompactIndices::U32(_) => u32::MAX as usize,
            CompactIndices::Usize(_) => usize::MAX,
        }
    }

    /// An empty list for indexes up to `max_index`.
    pub fn for_indexes_up_to(max_index: usize) -> (list: Self)
        ensures
            list@ == Seq::<usize>::empty(),
            max_index <= list.largest(),
    {
        let list = if max_index <= u8::MAX as usize {
            CompactIndices::U8(Vec::new())
        } else if max_index <= u16::MAX as usize {
            CompactIndices::U16(Vec::new())
        } else if max_index <= u32::MAX as usize {
            CompactIndices::U32(Vec::new())
        } else {
            CompactIndices::Usize(Vec::new())
        };
        assert(list@ =~= Seq::<usize>::empty());
        list
    }

    pub fn push(&mut self, value: usize)
        requires
            value <= old(self).largest(),
        ensures
            final(self)@ == old(self)@.push(value),
            final(self).largest() == old(self).largest(),
    {
        let ghost before = self@;
        match self {
            CompactIndices::U8(values) => values.push(value as u8),
            CompactIndices::U16(values) => values.push(value as u16),
            CompactIndices::U32(values) => values.push(value as u32),
            CompactIndices::Usize(values) => values.push(value),
        }
        assert(self@ =~= before.push(value));
    }

    pub fn len(&self) -> (len: usize)
        ensures
            len == self@.len(),
    {
        match self {
            CompactIndices::U8(values) => values.len(),
            CompactIndices::U16(values) => values.len(),
            CompactIndices::U32(values) => values.len(),
            CompactIndices::Usize(values) => values.len(),
        }
    }

    pub fn get(&self, index: usize) -> (value: usize)
        requires
            index < self@.len(),
        ensures
            value == self@[index as int],
    {
        match self {
            CompactIndices::U8(values) => values[index] as usize,
            CompactIndices::U16(values) => values[index] as usize,
            CompactIndices::U32(values) => values[index] as usize,
            CompactIndices::Usize(values) => values[index],
        }
    }

    /// The indexes one after another with `bit_width` bits each.
    pub fn write_bit_packed(&self, bit_width: usize) -> (out: Vec<u8>)
        requires
            bit_width <= 32,
            all_below(as_nats(self@), pow2(bit_width as nat)),
            self@.len() * bit_width <= usize::MAX,
        ensures
            out@ == packed(as_nats(self@), bit_width as nat),
    {
        match self {
            CompactIndices::U8(values) => {
                if bit_width <= 8 {
                    let size: usize = byte_count(values.len() * bit_width);
                    let mut out: Vec<u8> = vec![0u8; size];
                    assert(as_nats(self@) =~= u8_nats(values@));
                    write_u8_indices(values, &mut out, bit_width);
                    return out;
                }
            },
            _ => {},
        }
        let size: usize = byte_count(self.len() * bit_width);
        let mut out: Vec<u8> = vec![0u8; size];
        let ghost all = as_nats(self@);
        proof {
            lemma_zero_bytes(out@);
        }
        let mut i: usize = 0;
        while i < self.len()
            invariant
                i <= self@.len(),
                bit_width <= 32,
                all == as_nats(self@),
                all_below(all, pow2(bit_width as nat)),
                self@.len() * bit_width <= usize::MAX,
                out.len() == bytes_for(self@.len() * bit_width),
                forall|q: int|
                    0 <= q < 8 * out.len() ==> #[trigger] stream_bit(out@, q) == (q < i * bit_width && packed_bit(
                        all,
                        bit_width as nat,
                        q,
                    )),
            decreases self@.len() - i,
        {
            let ghost before = out@;
            assert(i * bit_width + bit_width <= self@.len() * bit_width) by (nonlinear_arith)
                requires
                    i + 1 <= self@.len(),
            ;
            assert(all[i as int] < pow2(bit_width as nat));
            write_bit_packed(&mut out, 0, i * bit_width, self.get(i), bit_width);
            proof {
                assert((i + 1) * bit_width == i * bit_width + bit_width) by (nonlinear_arith);
                assert forall|q: int| 0 <= q < 8 * out.len() implies #[trigger] stream_bit(out@, q) == (q < (i + 1) * bit_width
                    && packed_bit(all, bit_width as nat, q)) by {
                    assert(stream_bit(before, q) == (q < i * bit_width && packed_bit(all, bit_width as nat, q)));
                    if i * bit_width <= q < i * bit_width + bit_width {
                        vstd::arithmetic::div_mod::lemma_fundamental_div_mod_converse(
                            q,
                            bit_width as int,
                            i as int,
                            q - i * bit_width,
                        );
                    }
                }
            }
            i += 1;
        }
        proof {
            assert forall|q: int| 0 <= q < 8 * out.len() implies #[trigger] stream_bit(out@, q) == packed_bit(
                all,
                bit_width as nat,
                q,
            ) by {
                if q >= all.len() * bit_width && bit_width > 0 {
                    lemma_past_the_end(all.len() as int, bit_width as int, q);
                }
            }
            lemma_packed_by_bits(out@, all, bit_width as nat);
        }
        out
    }
}

proof fn lemma_past_the_end(len: int, width: int, q: int)
    requires
        0 < width,
        0 <= len,
        q >= len * width,
    ensures
        q / width >= len,
{
    vstd::arithmetic::div_mod::lemma_div_is_ordered(len * width, q, width);
    vstd::arithmetic::div_mod::lemma_div_by_multiple(len, width);
}

pub proof fn lemma_zero_bytes(bytes: Seq<u8>)
    requires
        forall|i: int| 0 <= i < bytes.len() ==> bytes[i] == 0,
    ensures
        forall|q: int| 0 <= q < 8 * bytes.len() ==> !#[trigger] stream_bit(bytes, q),
{
    assert forall|q: int| 0 <= q < 8 * bytes.len() implies !#[trigger] stream_bit(bytes, q) by {
        let k: u8 = (q % 8) as u8;
        lemma_u8_bit(0u8, k);
        assert((0u8 >> k) & 1 == 0) by (bit_vector);
    }
}

pub open spec fn u8_nats(values: Seq<u8>) -> Seq<nat> {
    Seq::new(values.len(), |i: int| values[i] as nat)
}

proof fn lemma_or_bit(packed: u64, index: u64, shift: u64, q: u64)
    requires
        shift < 64,
        q < 64,
    ensures
        nat_bit((packed | (index << shift)) as nat, q as nat) == (nat_bit(packed as nat, q as nat) || (q >= shift && nat_bit(
            index as nat,
            (q - shift) as nat,
        ))),
{
    let joined = packed | (index << shift);
    lemma_u64_bit(joined, q);
    lemma_u64_bit(packed, q);
    if q >= shift {
        let r: u64 = (q - shift) as u64;
        lemma_u64_bit(index, r);
        assert(((joined >> q) & 1 == 1) == (((packed >> q) & 1 == 1) || ((index >> r) & 1 == 1))) by (bit_vector)
            requires
                joined == packed | (index << shift),
                r == (q - shift) as u64,
                q >= shift,
                q < 64,
                shift < 64,
        ;
    } else {
        assert(((joined >> q) & 1 == 1) == ((packed >> q) & 1 == 1)) by (bit_vector)
            requires
                joined == packed | (index << shift),
                q < shift,
                q < 64,
                shift < 64,
        ;
    }
}

proof fn lemma_byte_of_word(word: u64, b: u64, k: u64)
    requires
        b < 8,
        k < 8,
    ensures
        nat_bit((((word >> ((8 * b) as u64)) & 0xff) as u8) as nat, k as nat) == nat_bit(word as nat, (8 * b + k) as nat),
{
    let chunk = ((word >> ((8 * b) as u64)) & 0xff) as u8;
    let kk: u8 = k as u8;
    let p: u64 = (8 * b + k) as u64;
    lemma_u8_bit(chunk, kk);
    lemma_u64_bit(word, p);
    assert(((chunk >> kk) & 1 == 1) == ((word >> p) & 1 == 1)) by (bit_vector)
        requires
            chunk == ((word >> ((8 * b) as u64)) & 0xff) as u8,
            kk == k as u8,
            p == (8 * b + k) as u64,
            b < 8,
            k < 8,
    ;
}

/// Joins up to eight indexes from `first` on into one word, `bit_width` bits each.
fn join_indices(indices: &Vec<u8>, first: usize, count: usize, bit_width: usize) -> (word: u64)
    requires
        count <= 8,
        0 < bit_width < 8,
        first + count <= indices.len(),
        all_below(u8_nats(indices@), pow2(bit_width as nat)),
    ensures
        forall|p: int|
            0 <= p < 64 ==> #[trigger] nat_bit(word as nat, p as nat) == (p / (bit_width as int) < count && nat_bit(
                indices@[first + p / (bit_width as int)] as nat,
                (p % (bit_width as int)) as nat,
            )),
{
    let mut word: u64 = 0;
    let mut offset: usize = 0;
    let ghost width = bit_width as int;
    proof {
        assert forall|p: int| 0 <= p < 64 implies !#[trigger] nat_bit(word as nat, p as nat) by {
            let q: u64 = p as u64;
            lemma_u64_bit(0u64, q);
            assert((0u64 >> q) & 1 == 0) by (bit_vector);
        }
        assert forall|p: int| 0 <= p < 64 implies #[trigger] (p / width) >= 0 by {
            vstd::arithmetic::div_mod::lemma_div_pos_is_pos(p, width);
        }
    }
    while offset < count
        invariant
            offset <= count <= 8,
            0 < bit_width < 8,
            width == bit_width,
            first + count <= indices.len(),
            all_below(u8_nats(indices@), pow2(bit_width as nat)),
            forall|p: int|
                0 <= p < 64 ==> #[trigger] nat_bit(word as nat, p as nat) == (p / width < offset && nat_bit(
                    indices@[first + p / width] as nat,
                    (p % width) as nat,
                )),
        decreases count - offset,
    {
        let index: u8 = indices[first + offset];
        assert(offset * bit_width <= 49) by (nonlinear_arith)
            requires
                offset <= 7,
                bit_width <= 7,
        ;
        let shift: u64 = (offset * bit_width) as u64;
        let ghost before = word;
        word = word | ((index as u64) << shift);
        proof {
            assert(u8_nats(indices@)[first + offset] < pow2(bit_width as nat));
            assert forall|p: int| 0 <= p < 64 implies #[trigger] nat_bit(word as nat, p as nat) == (p / width < offset + 1 && nat_bit(
                indices@[first + p / width] as nat,
                (p % width) as nat,
            )) by {
                lemma_or_bit(before, index as u64, shift, p as u64);
                assert(nat_bit(before as nat, p as nat) == (p / width < offset && nat_bit(
                    indices@[first + p / width] as nat,
                    (p % width) as nat,
                )));
                if p >= shift {
                    let r = p - shift;
                    if r < width {
                        vstd::arithmetic::div_mod::lemma_fundamental_div_mod_converse(p, width, offset as int, r);
                    } else {
                        lemma_high_bits_are_zero(index as nat, bit_width as nat, r as nat);
                        assert((offset + 1) * width == offset * width + width) by (nonlinear_arith);
                        lemma_past_the_end(offset + 1, width, p);
                    }
                } else {
                    assert(p / width < offset) by {
                        vstd::arithmetic::div_mod::lemma_multiply_divide_lt(p, width, offset as int);
                    }
                }
            }
        }
        offset += 1;
    }
    word
}

/// Packs one-byte indexes, eight at a time.
pub fn write_u8_indices(indices: &Vec<u8>, out: &mut Vec<u8>, bit_width: usize)
    requires
        bit_width <= 8,
        all_below(u8_nats(indices@), pow2(bit_width as nat)),
        indices.len() * bit_width <= usize::MAX,
        old(out).len() == bytes_for(indices.len() * bit_width),
    ensures
        final(out)@ == packed(u8_nats(indices@), bit_width as nat),
{
    let ghost all = u8_nats(indices@);
    if bit_width == 0 {
        assert(out@ =~= packed(all, 0));
        return;
    }
    if bit_width == 8 {
        let mut i: usize = 0;
        while i < indices.len()
            invariant
                i <= indices.len(),
                out.len() == indices.len(),
                forall|k: int| 0 <= k < i ==> out@[k] == indices@[k],
            decreases indices.len() - i,
        {
            out.set(i, indices[i]);
            i += 1;
        }
        proof {
            assert forall|q: int| 0 <= q < 8 * out.len() implies #[trigger] stream_bit(out@, q) == packed_bit(all, 8, q) by {
                assert(all[q / 8] == out@[q / 8]);
            }
            lemma_packed_by_bits(out@, all, 8);
        }
        return;
    }
    let ghost width = bit_width as int;
    let mut input_pos: usize = 0;
    let mut output_pos: usize = 0;
    while input_pos < indices.len()
        invariant
            0 < bit_width < 8,
            width == bit_width,
            all == u8_nats(indices@),
            all_below(all, pow2(bit_width as nat)),
            indices.len() * bit_width <= usize::MAX,
            out.len() == bytes_for(indices.len() * bit_width),
            input_pos <= indices.len(),
            input_pos % 8 == 0 || input_pos == indices.len(),
            input_pos % 8 == 0 ==> 8 * output_pos == input_pos * bit_width,
            input_pos == indices.len() ==> output_pos == out.len(),
            output_pos <= out.len(),
            forall|q: int|
                0 <= q < 8 * output_pos ==> #[trigger] stream_bit(out@, q) == packed_bit(all, bit_width as nat, q),
        decreases indices.len() - input_pos,
    {
        let left: usize = indices.len() - input_pos;
        let count: usize = if left >= 8 {
            8
        } else {
            left
        };
        let word: u64 = join_indices(indices, input_pos, count, bit_width);
        assert(count * bit_width <= 56) by (nonlinear_arith)
            requires
                count <= 8,
                bit_width <= 7,
        ;
        let size: usize = byte_count(count * bit_width);
        let ghost done = 8 * output_pos;
        proof {
            assert((input_pos + count) * bit_width == input_pos * bit_width + count * bit_width) by (nonlinear_arith);
            assert((input_pos + count) * bit_width <= indices.len() * bit_width) by (nonlinear_arith)
                requires
                    input_pos + count <= indices.len(),
            ;
            assert(output_pos + size <= out.len());
        }
        let mut b: usize = 0;
        while b < size
            invariant
                b <= size <= 7,
                output_pos + size <= out.len(),
                out.len() == bytes_for(indices.len() * bit_width),
                done == 8 * output_pos,
                forall|q: int|
                    0 <= q < done ==> #[trigger] stream_bit(out@, q) == packed_bit(all, bit_width as nat, q),
                forall|p: int|
                    0 <= p < 8 * b ==> stream_bit(out@, done + p) == #[trigger] nat_bit(word as nat, p as nat),
            decreases size - b,
        {
            let ghost earlier = out@;
            out.set(output_pos + b, ((word >> ((8 * b) as u64)) & 0xff) as u8);
            proof {
                assert forall|p: int| 0 <= p < 8 * (b + 1) implies stream_bit(out@, done + p) == #[trigger] nat_bit(
                    word as nat,
                    p as nat,
                ) by {
                    assert((done + p) / 8 == output_pos + p / 8 && (done + p) % 8 == p % 8);
                    if p >= 8 * b {
                        lemma_byte_of_word(word, b as u64, (p - 8 * b) as u64);
                    } else {
                        assert(stream_bit(earlier, done + p) == nat_bit(word as nat, p as nat));
                    }
                }
                assert forall|q: int| 0 <= q < done implies #[trigger] stream_bit(out@, q) == packed_bit(
                    all,
                    bit_width as nat,
                    q,
                ) by {
                    assert(stream_bit(earlier, q) == packed_bit(all, bit_width as nat, q));
                }
            }
            b += 1;
        }
        proof {
            assert forall|q: int| 0 <= q < 8 * (output_pos + size) implies #[trigger] stream_bit(out@, q) == packed_bit(
                all,
                bit_width as nat,
                q,
            ) by {
                if q >= done {
                    let p = q - done;
                    assert(stream_bit(out@, done + p) == nat_bit(word as nat, p as nat));
                    let i = p / width;
                    let r = p % width;
                    vstd::arithmetic::div_mod::lemma_fundamental_div_mod(p, width);
                    assert(q == (input_pos + i) * width + r) by (nonlinear_arith)
                        requires
                            p == width * i + r,
                            q == input_pos * width + p,
                    ;
                    vstd::arithmetic::div_mod::lemma_fundamental_div_mod_converse(q, width, input_pos + i, r);
                    if i < count {
                        assert(all[input_pos + i] == indices@[input_pos + i]);
                    } else if count < 8 {
                        assert(input_pos + i >= all.len());
                    } else {
                        assert(i * width >= 8 * width) by (nonlinear_arith)
                            requires
                                i >= 8,
                                width > 0,
                        ;
                        assert(p >= 8 * width) by (nonlinear_arith)
                            requires
                                p == width * i + r,
                                r >= 0,
                                i * width >= 8 * width,
                        ;
                    }
                }
            }
        }
        input_pos = input_pos + count;
        output_pos = output_pos + size;
    }
    proof {
        if indices.len() == 0 {
            assert(out@ =~= packed(all, bit_width as nat));
        }
        lemma_packed_by_bits(out@, all, bit_width as nat);
    }
}

// ---------------------------------------------------------------- dictionary of fixed-width values

/// Spreads the bits of a key over a word.
pub open spec fn mixed_key(value: u64) -> u64 {
    let a = value ^ (value >> 33);
    let b = a.wrapping_mul(0xff51_afd7_ed55_8ccd);
    let c = b ^ (b >> 33);
    let d = c.wrapping_mul(0xc4ce_b9fe_1a85_ec53);
    d ^ (d >> 33)
}

pub fn mix_u64_key(value: u64) -> (mixed: u64)
    ensures
        mixed == mixed_key(value),
{
    let a: u64 = value ^ (value >> 33);
    let b: u64 = a.wrapping_mul(0xff51_afd7_ed55_8ccd);
    let c: u64 = b ^ (b >> 33);
    let d: u64 = c.wrapping_mul(0xc4ce_b9fe_1a85_ec53);
    d ^ (d >> 33)
}

/// A table of slots, each empty or with an index, that takes no more bytes for each slot than the
/// largest index may need.
pub enum FixedDictSlots {
    U16(Vec<u16>),
    U32(Vec<u32>),
    Usize(Vec<usize>),
}

pub open spec fn slot_content(stored: usize) -> Option<usize> {
    if stored == 0 {
        None
    } else {
        Some((stored - 1) as usize)
    }
}

impl View for FixedDictSlots {
    type V = Seq<Option<usize>>;

    open spec fn view(&self) -> Seq<Option<usize>> {
        match *self {
            FixedDictSlots::U16(slots) => Seq::new(slots@.len(), |i: int| slot_content(slots@[i] as usize)),
            FixedDictSlots::U32(slots) => Seq::new(slots@.len(), |i: int| slot_content(slots@[i] as usize)),
            FixedDictSlots::Usize(slots) => Seq::new(slots@.len(), |i: int| slot_content(slots@[i])),
        }
    }
}

impl FixedDictSlots {
    /// How many indexes the slots can tell apart.
    pub open spec fn room(self) -> usize {
        match self {
            FixedDictSlots::U16(_) => u16::MAX as usize,
            FixedDictSlots::U32(_) => u32::MAX as usize,
            FixedDictSlots::Usize(_) => usize::MAX,
        }
    }

    pub fn new(max_dict_entries: usize, slot_count: usize) -> (slots: Self)
        ensures
            slots@.len() == slot_count,
            forall|i: int| 0 <= i < slot_count ==> (#[trigger] slots@[i]) is None,
            max_dict_entries <= slots.room(),
    {
        if max_dict_entries <= u16::MAX as usize {
            FixedDictSlots::U16(vec![0u16; slot_count])
        } else if max_dict_entries <= u32::MAX as usize {
            FixedDictSlots::U32(vec![0u32; slot_count])
        } else {
            FixedDictSlots::Usize(vec![0usize; slot_count])
        }
    }

    pub fn get(&self, slot: usize) -> (index: Option<usize>)
        requires
            slot < self@.len(),
        ensures
            index == self@[slot as int],
    {
        let stored: usize = match self {
            FixedDictSlots::U16(slots) => slots[slot] as usize,
            FixedDictSlots::U32(slots) => slots[slot] as usize,
            FixedDictSlots::Usize(slots) => slots[slot],
        };
        if stored == 0 {
            None
        } else {
            Some(stored - 1)
        }
    }

    pub fn set(&mut self, slot: usize, index: usize)
        requires
            slot < old(self)@.len(),
            index < old(self).room(),
        ensures
            final(self)@ == old(self)@.update(slot as int, Some(index)),
            final(self).room() == old(self).room(),
    {
        let ghost before = self@;
        let stored: usize = index + 1;
        match self {
            FixedDictSlots::U16(slots) => slots.set(slot, stored as u16),
            FixedDictSlots::U32(slots) => slots.set(slot, stored as u32),
            FixedDictSlots::Usize(slots) => slots.set(slot, stored),
        }
        assert(self@ =~= before.update(slot as int, Some(index)));
    }

    pub fn len(&self) -> (len: usize)
        ensures
            len == self@.len(),
    {
        match self {
            FixedDictSlots::U16(slots) => slots.len(),
            FixedDictSlots::U32(slots) => slots.len(),
            FixedDictSlots::Usize(slots) => slots.len(),
        }
    }
}

/// The slot `d` steps behind `home` in a ring of `m` slots.
pub open spec fn ring_slot(home: int, d: int, m: int) -> int {
    if home + d < m {
        home + d
    } else {
        home + d - m
    }
}

/// How many steps `slot` is behind `home`.
pub open spec fn ring_distance(home: int, slot: int, m: int) -> int {
    if slot >= home {
        slot - home
    } else {
        slot - home + m
    }
}

/// The slot where the search for a key starts.
pub open spec fn home_slot(key: u64, seed: u64, m: int) -> int {
    mixed_key(key ^ seed) as int % m
}

/// The slots hold the keys' indexes: `places[e]` is the slot of key `e`, and no slot from where the
/// search for the key starts up to it is empty.
pub open spec fn slots_hold(slots: Seq<Option<usize>>, keys: Seq<u64>, places: Seq<int>, seed: u64) -> bool {
    let m = slots.len() as int;
    &&& m > 0
    &&& places.len() == keys.len()
    &&& forall|e: int| 0 <= e < keys.len() ==> 0 <= #[trigger] places[e] < m && slots[places[e]] == Some(e as usize)
    &&& forall|p: int|
        0 <= p < m && #[trigger] slots[p] is Some ==> slots[p]->0 < keys.len() && places[slots[p]->0 as int] == p
    &&& forall|e: int, d: int|
        0 <= e < keys.len() && 0 <= d < ring_distance(home_slot(keys[e], seed, m), places[e], m) ==> #[trigger] slots[ring_slot(
            home_slot(#[trigger] keys[e], seed, m),
            d,
            m,
        )] is Some
}

/// A table with fewer keys than slots has an empty slot.
proof fn lemma_not_full(slots: Seq<Option<usize>>, keys: Seq<u64>, places: Seq<int>, seed: u64)
    requires
        slots_hold(slots, keys, places, seed),
        forall|p: int| 0 <= p < slots.len() ==> #[trigger] slots[p] is Some,
    ensures
        slots.len() <= keys.len(),
{
    let held = Seq::new(slots.len(), |p: int| slots[p]->0 as int);
    assert(held.no_duplicates()) by {
        assert forall|a: int, b: int| 0 <= a < held.len() && 0 <= b < held.len() && a != b implies held[a] != held[b] by {
            assert(slots[a] is Some && slots[b] is Some);
            assert(places[slots[a]->0 as int] == a);
            assert(places[slots[b]->0 as int] == b);
        }
    }
    held.unique_seq_to_set();
    let all = vstd::set_lib::set_int_range(0, keys.len() as int);
    vstd::set_lib::lemma_int_range(0, keys.len() as int);
    assert(held.to_set().subset_of(all)) by {
        assert forall|x: int| held.to_set().contains(x) implies all.contains(x) by {
            let p = choose|p: int| 0 <= p < held.len() && held[p] == x;
            assert(slots[p] is Some);
        }
    }
    vstd::set_lib::lemma_len_subset(held.to_set(), all);
}

/// The bytes of keys, one after another.
pub open spec fn key_bytes(keys: Seq<u64>, width: nat) -> Seq<u8>
    decreases keys.len(),
{
    if keys.len() == 0 {
        Seq::empty()
    } else {
        key_bytes(keys.drop_last(), width) + be_bytes(keys.last() as nat, width)
    }
}

/// A dictionary of keys in the order in which they came, with the list of the indexes of all values.
pub struct IncrementalFixedDict {
    slots: FixedDictSlots,
    seed: u64,
    values: Vec<u64>,
    indices: CompactIndices,
    places: Ghost<Seq<int>>,
}

impl IncrementalFixedDict {
    /// The distinct keys.
    pub closed spec fn entries(self) -> Seq<u64> {
        self.values@
    }

    /// The indexes of the values.
    pub closed spec fn index_list(self) -> Seq<usize> {
        self.indices@
    }

    /// The keys of the values.
    pub open spec fn keys(self) -> Seq<u64> {
        Seq::new(self.index_list().len(), |i: int| self.entries()[self.index_list()[i] as int])
    }

    pub closed spec fn slot_count(self) -> nat {
        self.slots@.len()
    }

    /// The dictionary is sound, and made for at most `max` entries.
    pub closed spec fn wf(self, max: usize) -> bool {
        &&& max <= u32::MAX
        &&& 4 * max + 4 <= usize::MAX
        &&& self.values.len() <= max
        &&& self.values@.no_duplicates()
        &&& self.values.len() * 2 <= self.slots@.len()
        &&& self.slots@.len() <= 4 + 4 * self.values.len()
        &&& slots_hold(self.slots@, self.values@, self.places@, self.seed)
        &&& max <= self.slots.room()
        &&& max <= self.indices.largest() + 1
        &&& forall|i: int| 0 <= i < self.indices@.len() ==> #[trigger] self.indices@[i] < self.values.len()
    }

    pub proof fn lemma_wf(self, max: usize)
        requires
            self.wf(max),
        ensures
            self.entries().len() <= max,
            max <= u32::MAX,
            4 * max + 4 <= usize::MAX,
            self.entries().no_duplicates(),
            forall|i: int| 0 <= i < self.index_list().len() ==> #[trigger] self.index_list()[i] < self.entries().len(),
    {
    }

    pub fn new(max_dict_entries: usize, seed: u64) -> (dict: Self)
        requires
            max_dict_entries <= u32::MAX,
            4 * max_dict_entries + 4 <= usize::MAX,
        ensures
            dict.wf(max_dict_entries),
            dict.entries() == Seq::<u64>::empty(),
            dict.index_list() == Seq::<usize>::empty(),
            dict.slot_count() == if max_dict_entries <= 1 {
                2nat
            } else {
                4
            },
    {
        let slot_count: usize = if max_dict_entries <= 1 {
            2
        } else {
            4
        };
        let max_index: usize = if max_dict_entries == 0 {
            0
        } else {
            max_dict_entries - 1
        };
        IncrementalFixedDict {
            slots: FixedDictSlots::new(max_dict_entries, slot_count),
            seed,
            values: Vec::new(),
            indices: CompactIndices::for_indexes_up_to(max_index),
            places: Ghost(Seq::empty()),
        }
    }

    /// Looks for a key: the slot that holds it, or the empty slot where it belongs.
    fn probe(&self, key: u64) -> (slot: usize)
        requires
            slots_hold(self.slots@, self.values@, self.places@, self.seed),
            self.values.len() < self.slots@.len(),
        ensures
            slot < self.slots@.len(),
            self.slots@[slot as int] matches Some(e) ==> self.values@[e as int] == key,
            self.slots@[slot as int] is None ==> !self.values@.contains(key) && forall|d: int|
                0 <= d < ring_distance(home_slot(key, self.seed, self.slots@.len() as int), slot as int, self.slots@.len() as int)
                    ==> #[trigger] self.slots@[ring_slot(
                    home_slot(key, self.seed, self.slots@.len() as int),
                    d,
                    self.slots@.len() as int,
                )] is Some,
    {
        let len: usize = self.slots.len();
        let ghost m = len as int;
        let home: usize = (mix_u64_key(key ^ self.seed) % (len as u64)) as usize;
        let mut slot: usize = home;
        let ghost mut d: int = 0;
        loop
            invariant
                slots_hold(self.slots@, self.values@, self.places@, self.seed),
                self.values.len() < self.slots@.len(),
                len == self.slots@.len(),
                m == len,
                0 <= home < m,
                home == home_slot(key, self.seed, m),
                0 <= d < m,
                slot == ring_slot(home as int, d, m),
                forall|c: int|
                    0 <= c < d ==> (#[trigger] self.slots@[ring_slot(home as int, c, m)]) is Some && self.values@[self.slots@[ring_slot(
                        home as int,
                        c,
                        m,
                    )]->0 as int] != key,
            decreases m - d,
        {
            match self.slots.get(slot) {
                None => {
                    proof {
                        if self.values@.contains(key) {
                            let e = choose|e: int| 0 <= e < self.values@.len() && self.values@[e] == key;
                            let p = self.places@[e];
                            let c = ring_distance(home as int, p, m);
                            assert(ring_slot(home as int, c, m) == p);
                            if c < d {
                                assert(self.slots@[ring_slot(home as int, c, m)] is Some);
                            } else if c > d {
                                assert(self.slots@[ring_slot(home_slot(self.values@[e], self.seed, m), d, m)] is Some);
                            }
                        }
                        assert(ring_distance(home as int, slot as int, m) == d);
                    }
                    return slot;
                },
                Some(index) => {
                    if self.values[index] == key {
                        return slot;
                    }
                },
            }
            proof {
                if d + 1 == m {
                    assert forall|p: int| 0 <= p < self.slots@.len() implies #[trigger] self.slots@[p] is Some by {
                        let c = ring_distance(home as int, p, m);
                        assert(ring_slot(home as int, c, m) == p);
                        if c < d {
                            assert(self.slots@[ring_slot(home as int, c, m)] is Some);
                        }
                    }
                    lemma_not_full(self.slots@, self.values@, self.places@, self.seed);
                }
                d = d + 1;
            }
            slot = if slot + 1 == len {
                0
            } else {
                slot + 1
            };
        }
    }

    /// The index of a key, which becomes a new entry where there is room for it.
    pub fn lookup_or_insert(&mut self, key: u64, max_dict_entries: usize) -> (index: Option<usize>)
        requires
            old(self).wf(max_dict_entries),
        ensures
            final(self).wf(max_dict_entries),
            final(self).index_list() == old(self).index_list(),
            old(self).entries().contains(key) ==> final(self).entries() == old(self).entries() && (index matches Some(i) && i
                < old(self).entries().len() && old(self).entries()[i as int] == key),
            !old(self).entries().contains(key) ==> if old(self).entries().len() == max_dict_entries {
                index is None && final(self).entries() == old(self).entries()
            } else {
                index == Some(old(self).entries().len() as usize) && final(self).entries() == old(self).entries().push(key)
            },
            final(self).slot_count() == if !old(self).entries().contains(key) && old(self).entries().len() < max_dict_entries && (old(
                self,
            ).entries().len() + 1) * 2 > old(self).slot_count() {
                2 * old(self).slot_count()
            } else {
                old(self).slot_count()
            },
    {
        let mut slot: usize = self.probe(key);
        match self.slots.get(slot) {
            Some(index) => {
                assert(self.values@[index as int] == key);
                return Some(index);
            },
            None => {},
        }
        if self.values.len() == max_dict_entries {
            return None;
        }
        if self.values.len() + 1 > self.slots.len() / 2 {
            self.grow_slots(max_dict_entries);
            slot = self.probe(key);
            assert(self.slots@[slot as int] is None) by {
                if let Some(e) = self.slots@[slot as int] {
                    assert(self.values@[e as int] == key);
                    assert(self.values@.contains(key));
                }
            }
        }
        let index: usize = self.values.len();
        let ghost before = *self;
        let ghost m = self.slots@.len() as int;
        self.values.push(key);
        self.slots.set(slot, index);
        self.places = Ghost(self.places@.push(slot as int));
        proof {
            let slots = self.slots@;
            let keys = self.values@;
            let places = self.places@;
            assert forall|e: int| 0 <= e < keys.len() implies 0 <= #[trigger] places[e] < m && slots[places[e]] == Some(e as usize) by {
                if e < index {
                    assert(before.slots@[before.places@[e]] == Some(e as usize));
                }
            }
            assert forall|p: int| 0 <= p < m && #[trigger] slots[p] is Some implies slots[p]->0 < keys.len() && places[slots[p]->0 as int]
                == p by {
                if p != slot {
                    assert(before.slots@[p] is Some);
                }
            }
            assert forall|e: int, d: int|
                0 <= e < keys.len() && 0 <= d < ring_distance(home_slot(keys[e], self.seed, m), places[e], m) implies #[trigger] slots[ring_slot(
                home_slot(#[trigger] keys[e], self.seed, m),
                d,
                m,
            )] is Some by {
                if e < index {
                    assert(before.values@[e] == keys[e]);
                    assert(before.slots@[ring_slot(home_slot(before.values@[e], self.seed, m), d, m)] is Some);
                } else {
                    assert(before.slots@[ring_slot(home_slot(key, self.seed, m), d, m)] is Some);
                }
            }
            assert(self.values@.no_duplicates()) by {
                assert forall|a: int, b: int| 0 <= a < keys.len() && 0 <= b < keys.len() && a != b implies keys[a] != keys[b] by {
                    if a == index {
                        assert(before.values@.contains(keys[b]));
                    }
                    if b == index {
                        assert(before.values@.contains(keys[a]));
                    }
                }
            }
        }
        Some(index)
    }

    /// Moves the keys into a table of twice as many slots.
    fn grow_slots(&mut self, max_dict_entries: usize)
        requires
            old(self).wf(max_dict_entries),
            old(self).values.len() < max_dict_entries,
            (old(self).values.len() + 1) * 2 > old(self).slots@.len(),
        ensures
            final(self).wf(max_dict_entries),
            final(self).values == old(self).values,
            final(self).indices == old(self).indices,
            final(self).seed == old(self).seed,
            final(self).slots@.len() == 2 * old(self).slots@.len(),
    {
        let ghost start = *self;
        let slot_count: usize = self.slots.len() * 2;
        let mut table = IncrementalFixedDict {
            slots: FixedDictSlots::new(max_dict_entries, slot_count),
            seed: self.seed,
            values: Vec::new(),
            indices: CompactIndices::for_indexes_up_to(0),
            places: Ghost(Seq::empty()),
        };
        let ghost m = slot_count as int;
        let mut index: usize = 0;
        while index < self.values.len()
            invariant
                *self == start,
                start.wf(max_dict_entries),
                index <= self.values.len(),
                table.values@ == self.values@.take(index as int),
                table.seed == self.seed,
                table.slots@.len() == slot_count,
                m == slot_count,
                self.values.len() * 2 <= slot_count,
                slots_hold(table.slots@, table.values@, table.places@, table.seed),
                max_dict_entries <= table.slots.room(),
            decreases self.values.len() - index,
        {
            let key: u64 = self.values[index];
            assert(!table.values@.contains(key)) by {
                if table.values@.contains(key) {
                    let e = choose|e: int| 0 <= e < table.values@.len() && table.values@[e] == key;
                    assert(self.values@[e] == self.values@[index as int]);
                }
            }
            let slot: usize = table.probe(key);
            assert(table.slots@[slot as int] is None) by {
                if let Some(e) = table.slots@[slot as int] {
                    assert(table.values@[e as int] == key);
                    assert(table.values@.contains(key));
                }
            }
            let ghost before = table;
            table.values.push(key);
            table.slots.set(slot, index);
            table.places = Ghost(table.places@.push(slot as int));
            proof {
                let slots = table.slots@;
                let keys = table.values@;
                let places = table.places@;
                assert(keys =~= self.values@.take(index + 1));
                assert forall|e: int| 0 <= e < keys.len() implies 0 <= #[trigger] places[e] < m && slots[places[e]] == Some(e as usize) by {
                    if e < index {
                        assert(before.slots@[before.places@[e]] == Some(e as usize));
                    }
                }
                assert forall|p: int| 0 <= p < m && #[trigger] slots[p] is Some implies slots[p]->0 < keys.len() && places[slots[p]->0 as int]
                    == p by {
                    if p != slot {
                        assert(before.slots@[p] is Some);
                    }
                }
                assert forall|e: int, d: int|
                    0 <= e < keys.len() && 0 <= d < ring_distance(home_slot(keys[e], table.seed, m), places[e], m) implies #[trigger] slots[ring_slot(
                    home_slot(#[trigger] keys[e], table.seed, m),
                    d,
                    m,
                )] is Some by {
                    if e < index {
                        assert(before.values@[e] == keys[e]);
                        assert(before.slots@[ring_slot(home_slot(before.values@[e], table.seed, m), d, m)] is Some);
                    } else {
                        assert(before.slots@[ring_slot(home_slot(key, table.seed, m), d, m)] is Some);
                    }
                }
            }
            index += 1;
        }
        assert(table.values@ =~= self.values@);
        self.slots = table.slots;
        self.places = table.places;
    }

    /// Notes the index of one more value.
    pub fn push_index(&mut self, index: usize, Ghost(max): Ghost<usize>)
        requires
            old(self).wf(max),
            index < old(self).entries().len(),
        ensures
            final(self).wf(max),
            final(self).entries() == old(self).entries(),
            final(self).index_list() == old(self).index_list().push(index),
            final(self).slot_count() == old(self).slot_count(),
    {
        self.indices.push(index);
    }

    pub fn num_entries(&self) -> (len: usize)
        ensures
            len == self.entries().len(),
    {
        self.values.len()
    }

    pub fn num_slots(&self) -> (len: usize)
        ensures
            len == self.slot_count(),
    {
        self.slots.len()
    }

    pub fn num_indices(&self) -> (len: usize)
        ensures
            len == self.index_list().len(),
    {
        self.indices.len()
    }

    pub fn entry(&self, index: usize) -> (key: u64)
        requires
            index < self.entries().len(),
        ensures
            key == self.entries()[index as int],
    {
        self.values[index]
    }

    /// The indexes one after another.
    pub fn packed_indices(&self, bit_width: usize) -> (out: Vec<u8>)
        requires
            bit_width <= 32,
            all_below(as_nats(self.index_list()), pow2(bit_width as nat)),
            self.index_list().len() * bit_width <= usize::MAX,
        ensures
            out@ == packed(as_nats(self.index_list()), bit_width as nat),
    {
        self.indices.write_bit_packed(bit_width)
    }

    /// Appends the bytes of the first `count` values.
    pub fn write_plain_prefix(&self, count: usize, fixed_width: i32, out: &mut Vec<u8>, Ghost(max): Ghost<usize>)
        requires
            self.wf(max),
            0 < fixed_width,
            count <= self.index_list().len(),
        ensures
            final(out)@ == old(out)@ + key_bytes(self.keys().take(count as int), fixed_width as nat),
    {
        let mut position: usize = 0;
        assert(out@ =~= old(out)@ + key_bytes(self.keys().take(0), fixed_width as nat));
        while position < count
            invariant
                self.wf(max),
                0 < fixed_width,
                position <= count <= self.index_list().len(),
                out@ == old(out)@ + key_bytes(self.keys().take(position as int), fixed_width as nat),
            decreases count - position,
        {
            let ghost before = out@;
            let key: u64 = self.values[self.indices.get(position)];
            write_fixed_key_to_vec(out, key, fixed_width);
            proof {
                let shorter = self.keys().take(position as int);
                let longer = self.keys().take(position + 1);
                assert(longer.drop_last() =~= shorter);
                assert(longer.last() == key);
                assert(out@ =~= old(out)@ + key_bytes(longer, fixed_width as nat));
            }
            position += 1;
        }
    }

    /// An index takes at least as many bits as a value.
    pub fn cannot_beat_plain(&self, fixed_width: i32) -> (result: bool)
        requires
            0 < fixed_width <= 8,
        ensures
            result == (index_width(self.entries().len()) >= 8 * fixed_width),
    {
        bit_width(self.values.len()) >= fixed_width as usize * 8
    }
}

// ---------------------------------------------------------------- dictionary of byte strings

/// A number that is the same for equal byte strings.
pub open spec fn bytes_hash(bytes: Seq<u8>) -> u64
    decreases bytes.len(),
{
    if bytes.len() == 0 {
        0
    } else {
        mixed_key(bytes_hash(bytes.drop_last()) ^ (bytes.last() as u64))
    }
}

pub fn hash_bytes(bytes: &[u8]) -> (hash: u64)
    ensures
        hash == bytes_hash(bytes@),
{
    let mut hash: u64 = 0;
    let mut i: usize = 0;
    assert(bytes@.take(0) =~= Seq::<u8>::empty());
    while i < bytes.len()
        invariant
            i <= bytes.len(),
            hash == bytes_hash(bytes@.take(i as int)),
        decreases bytes.len() - i,
    {
        assert(bytes@.take(i + 1).drop_last() =~= bytes@.take(i as int));
        hash = mix_u64_key(hash ^ (bytes[i] as u64));
        i += 1;
    }
    assert(bytes@.take(i as int) =~= bytes@);
    hash
}

pub fn bytes_equal(a: &[u8], b: &[u8]) -> (equal: bool)
    ensures
        equal == (a@ == b@),
{
    if a.len() != b.len() {
        return false;
    }
    let mut i: usize = 0;
    while i < a.len()
        invariant
            i <= a.len(),
            a.len() == b.len(),
            forall|k: int| 0 <= k < i ==> a@[k] == b@[k],
        decreases a.len() - i,
    {
        if a[i] != b[i] {
            return false;
        }
        i += 1;
    }
    assert(a@ =~= b@);
    true
}

/// Distinct byte strings in the order in which they came.
pub struct ByteDict {
    entries: Vec<Vec<u8>>,
    index: HashMap<u64, Vec<usize>>,
}

impl View for ByteDict {
    type V = Seq<Seq<u8>>;

    closed spec fn view(&self) -> Seq<Seq<u8>> {
        Seq::new(self.entries@.len(), |e: int| self.entries@[e]@)
    }
}

impl ByteDict {
    pub closed spec fn wf(self) -> bool {
        &&& self@.no_duplicates()
        &&& forall|e: int|
            0 <= e < self@.len() ==> self.index@.dom().contains(bytes_hash(#[trigger] self@[e])) && self.index@[bytes_hash(
                self@[e],
            )]@.contains(e as usize)
        &&& forall|h: u64, k: int|
            self.index@.dom().contains(h) && 0 <= k < self.index@[h]@.len() ==> #[trigger] self.index@[h]@[k] < self@.len()
    }

    pub proof fn lemma_wf(self)
        requires
            self.wf(),
        ensures
            self@.no_duplicates(),
    {
    }

    pub fn new() -> (dict: Self)
        ensures
            dict.wf(),
            dict@ == Seq::<Seq<u8>>::empty(),
    {
        broadcast use vstd::std_specs::hash::group_hash_axioms;

        let dict = ByteDict { entries: Vec::new(), index: HashMap::new() };
        assert(dict@ =~= Seq::<Seq<u8>>::empty());
        dict
    }

    pub fn len(&self) -> (len: usize)
        ensures
            len == self@.len(),
    {
        self.entries.len()
    }

    pub fn entry(&self, e: usize) -> (bytes: &Vec<u8>)
        requires
            e < self@.len(),
        ensures
            bytes@ == self@[e as int],
    {
        &self.entries[e]
    }

    pub fn lookup(&self, bytes: &[u8]) -> (found: Option<usize>)
        requires
            self.wf(),
        ensures
            found matches Some(e) ==> e < self@.len() && self@[e as int] == bytes@,
            found is None ==> !self@.contains(bytes@),
    {
        broadcast use vstd::std_specs::hash::group_hash_axioms;

        let hash: u64 = hash_bytes(bytes);
        match self.index.get(&hash) {
            None => {
                assert(!self@.contains(bytes@)) by {
                    if self@.contains(bytes@) {
                        let e = choose|e: int| 0 <= e < self@.len() && self@[e] == bytes@;
                        assert(self.index@.dom().contains(bytes_hash(self@[e])));
                    }
                }
                None
            },
            Some(list) => {
                assert(*list == self.index@[hash]);
                let mut k: usize = 0;
                while k < list.len()
                    invariant
                        self.wf(),
                        self.index@.dom().contains(hash),
                        *list == self.index@[hash],
                        k <= list.len(),
                        forall|j: int| 0 <= j < k ==> self@[(#[trigger] list@[j]) as int] != bytes@,
                    decreases list.len() - k,
                {
                    let e: usize = list[k];
                    assert(self.index@[hash]@[k as int] < self@.len());
                    assert(self@[e as int] == self.entries@[e as int]@);
                    if bytes_equal(self.entries[e].as_slice(), bytes) {
                        return Some(e);
                    }
                    k += 1;
                }
                assert(!self@.contains(bytes@)) by {
                    if self@.contains(bytes@) {
                        let e = choose|e: int| 0 <= e < self@.len() && self@[e] == bytes@;
                        assert(e < self.entries.len());
                        assert(bytes_hash(self@[e]) == hash);
                        assert(self.index@[bytes_hash(self@[e])]@.contains(e as usize));
                        let j = choose|j: int| 0 <= j < list@.len() && list@[j] == e as usize;
                        assert(self@[list@[j] as int] != bytes@);
                    }
                }
                None
            },
        }
    }

    /// Adds a byte string that is not there yet.
    pub fn insert(&mut self, bytes: &[u8])
        requires
            old(self).wf(),
            !old(self)@.contains(bytes@),
        ensures
            final(self).wf(),
            final(self)@ == old(self)@.push(bytes@),
    {
        broadcast use vstd::std_specs::hash::group_hash_axioms;

        let ghost before = *self;
        let hash: u64 = hash_bytes(bytes);
        let e: usize = self.entries.len();
        let mut list: Vec<usize> = match self.index.remove(&hash) {
            Some(list) => list,
            None => Vec::new(),
        };
        let ghost known = list@;
        list.push(e);
        self.index.insert(hash, list);
        self.entries.push(vstd::slice::slice_to_vec(bytes));
        proof {
            assert(self@ =~= before@.push(bytes@));
            let index = self.index@;
            assert(index[hash]@ == known.push(e));
            assert(before.index@.dom().contains(hash) ==> known == before.index@[hash]@);
            assert(!before.index@.dom().contains(hash) ==> known.len() == 0);
            assert forall|h: u64| h != hash implies index.dom().contains(h) == before.index@.dom().contains(h) && (index.dom().contains(h)
                ==> index[h] == before.index@[h]) by {}
            assert forall|f: int| 0 <= f < self@.len() implies index.dom().contains(bytes_hash(#[trigger] self@[f])) && index[bytes_hash(
                self@[f],
            )]@.contains(f as usize) by {
                if f < e {
                    let h = bytes_hash(before@[f]);
                    assert(self@[f] == before@[f]);
                    assert(before.index@[h]@.contains(f as usize));
                    if h == hash {
                        let k = choose|k: int| 0 <= k < known.len() && known[k] == f as usize;
                        assert(index[hash]@[k] == f as usize);
                    }
                } else {
                    assert(index[hash]@[known.len() as int] == e);
                }
            }
            assert forall|h: u64, k: int| index.dom().contains(h) && 0 <= k < index[h]@.len() implies #[trigger] index[h]@[k] < self@.len() by {
                if h == hash {
                    if k < known.len() {
                        assert(before.index@[hash]@[k] < before@.len());
                    }
                } else {
                    assert(before.index@[h]@[k] < before@.len());
                }
            }
            assert(self@.no_duplicates()) by {
                assert forall|a: int, b: int| 0 <= a < self@.len() && 0 <= b < self@.len() && a != b implies self@[a] != self@[b] by {
                    if a == e {
                        assert(before@.contains(self@[b]));
                    }
                    if b == e {
                        assert(before@.contains(self@[a]));
                    }
                }
            }
        }
    }
}

} // verus!
