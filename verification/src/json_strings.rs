//! Quoted texts and objects of JSON: how a reader takes them, and that it finds what was written.
use vstd::prelude::*;
use crate::json_text::{escape_byte, escaped, hex_digit, lemma_escaped_add};

verus! {

// ---------------------------------------------------------------- how texts are read

/// The digit that a byte stands for to the base of 16.
pub open spec fn hex_value(byte: u8) -> Option<int> {
    if 48 <= byte <= 57 {
        Some(byte - 48)
    } else if 97 <= byte <= 102 {
        Some(byte - 87)
    } else if 65 <= byte <= 70 {
        Some(byte - 55)
    } else {
        None
    }
}

/// The byte that an escape stands for, and the length of the escape. Of characters that are told by
/// number only those of one byte are.
pub open spec fn read_escape(text: Seq<u8>) -> Option<(u8, int)> {
    if text.len() < 2 || text[0] != 0x5c {
        None
    } else if text[1] == 0x22 || text[1] == 0x5c || text[1] == 0x2f {
        Some((text[1], 2))
    } else if text[1] == 0x62 {
        Some((0x08u8, 2))
    } else if text[1] == 0x66 {
        Some((0x0cu8, 2))
    } else if text[1] == 0x6e {
        Some((0x0au8, 2))
    } else if text[1] == 0x72 {
        Some((0x0du8, 2))
    } else if text[1] == 0x74 {
        Some((0x09u8, 2))
    } else if text[1] == 0x75 && text.len() >= 6 && text[2] == 48 && text[3] == 48 {
        match (hex_value(text[4]), hex_value(text[5])) {
            (Some(high), Some(low)) => if high < 8 {
                Some(((16 * high + low) as u8, 6))
            } else {
                None
            },
            _ => None,
        }
    } else {
        None
    }
}

/// The text up to the quote that closes it, and what is left behind the quote.
pub open spec fn read_string(text: Seq<u8>) -> Option<(Seq<u8>, Seq<u8>)>
    decreases text.len(),
{
    if text.len() == 0 || text[0] < 0x20 {
        None
    } else if text[0] == 0x22 {
        Some((Seq::empty(), text.skip(1)))
    } else {
        let taken = if text[0] == 0x5c {
            read_escape(text)
        } else {
            Some((text[0], 1int))
        };
        match taken {
            Some((byte, n)) => if 0 < n <= text.len() {
                match read_string(text.skip(n)) {
                    Some((found, rest)) => Some((seq![byte] + found, rest)),
                    None => None,
                }
            } else {
                None
            },
            None => None,
        }
    }
}

/// A name and a text, both in quotes and with a colon between them, and what is left behind them.
pub open spec fn read_member(text: Seq<u8>) -> Option<((Seq<u8>, Seq<u8>), Seq<u8>)> {
    if text.len() == 0 || text[0] != 0x22 {
        None
    } else {
        match read_string(text.skip(1)) {
            None => None,
            Some((name, rest)) => if rest.len() < 2 || rest[0] != 0x3a || rest[1] != 0x22 {
                None
            } else {
                match read_string(rest.skip(2)) {
                    None => None,
                    Some((value, left)) => Some(((name, value), left)),
                }
            },
        }
    }
}

/// The members that are left of an object, up to the brace that closes it; there is nothing behind.
pub open spec fn read_members(text: Seq<u8>, first: bool) -> Option<Seq<(Seq<u8>, Seq<u8>)>>
    decreases text.len(),
{
    if text == seq![0x7du8] {
        Some(Seq::empty())
    } else if !first && (text.len() == 0 || text[0] != 0x2c) {
        None
    } else {
        match read_member(
            if first {
                text
            } else {
                text.skip(1)
            },
        ) {
            None => None,
            Some((found, rest)) => if rest.len() < text.len() {
                match read_members(rest, false) {
                    None => None,
                    Some(others) => Some(seq![found] + others),
                }
            } else {
                None
            },
        }
    }
}

/// The members of an object of texts.
pub open spec fn read_object(text: Seq<u8>) -> Option<Seq<(Seq<u8>, Seq<u8>)>> {
    if text.len() == 0 || text[0] != 0x7b {
        None
    } else {
        read_members(text.skip(1), true)
    }
}

// ---------------------------------------------------------------- what is read of what was written

/// A byte is read as it was written, and whatever stands behind it is left.
proof fn lemma_byte_read(byte: u8, rest: Seq<u8>)
    ensures
        ({
            let text = escape_byte(byte) + rest;
            &&& text.len() > 0
            &&& text[0] >= 0x20
            &&& text[0] != 0x22
            &&& text[0] == 0x5c ==> read_escape(text) == Some((byte, escape_byte(byte).len() as int))
            &&& text[0] != 0x5c ==> text[0] == byte && escape_byte(byte).len() == 1
            &&& text.skip(escape_byte(byte).len() as int) == rest
        }),
{
    let text = escape_byte(byte) + rest;
    assert(text.skip(escape_byte(byte).len() as int) =~= rest);
    assert(text[0] == escape_byte(byte)[0]);
    if escape_byte(byte).len() > 1 {
        assert(text[1] == escape_byte(byte)[1]);
    }
    if escape_byte(byte).len() == 6 {
        assert(text[2] == escape_byte(byte)[2] && text[3] == escape_byte(byte)[3]);
        assert(text[4] == hex_digit(byte as int / 16) && text[5] == hex_digit(byte as int % 16));
        assert(hex_value(text[4]) == Some(byte as int / 16));
        assert(hex_value(text[5]) == Some(byte as int % 16));
        assert(16 * (byte as int / 16) + byte as int % 16 == byte);
    }
}

/// A text that was written between quotes is read as the text, up to its closing quote.
pub proof fn texts_read_back(text: Seq<u8>, rest: Seq<u8>)
    ensures
        read_string(escaped(text) + seq![0x22u8] + rest) == Some((text, rest)),
    decreases text.len(),
{
    let all = escaped(text) + seq![0x22u8] + rest;
    if text.len() == 0 {
        assert(all[0] == 0x22);
        assert(all.skip(1) =~= rest);
    } else {
        let byte = text[0];
        let others = text.skip(1);
        let left = escaped(others) + seq![0x22u8] + rest;
        lemma_escaped_add(seq![byte], others);
        assert(seq![byte] + others =~= text);
        assert(seq![byte].drop_last() =~= Seq::<u8>::empty());
        assert(escaped(seq![byte].drop_last()) =~= Seq::<u8>::empty());
        assert(escaped(seq![byte]) =~= escape_byte(byte));
        assert(all =~= escape_byte(byte) + left);
        lemma_byte_read(byte, left);
        texts_read_back(others, rest);
    }
}

/// Different texts are written differently.
pub proof fn texts_are_told_apart(a: Seq<u8>, b: Seq<u8>)
    requires
        a != b,
    ensures
        escaped(a) != escaped(b),
{
    texts_read_back(a, Seq::empty());
    texts_read_back(b, Seq::empty());
}

/// A member that was written is read, and whatever stands behind it is left.
pub proof fn members_read_back(name: Seq<u8>, value: Seq<u8>, rest: Seq<u8>)
    ensures
        read_member(
            seq![0x22u8] + escaped(name) + seq![0x22u8, 0x3au8, 0x22u8] + escaped(value) + seq![0x22u8] + rest,
        ) == Some(((name, value), rest)),
{
    let all = seq![0x22u8] + escaped(name) + seq![0x22u8, 0x3au8, 0x22u8] + escaped(value) + seq![0x22u8] + rest;
    let behind = seq![0x3au8, 0x22u8] + escaped(value) + seq![0x22u8] + rest;
    assert(all.skip(1) =~= escaped(name) + seq![0x22u8] + behind);
    texts_read_back(name, behind);
    assert(behind.skip(2) =~= escaped(value) + seq![0x22u8] + rest);
    texts_read_back(value, rest);
}

/// A member as it is written, behind a comma if there is one before it.
pub open spec fn member_text(part: (Seq<u8>, Seq<u8>), first: bool) -> Seq<u8> {
    (if first {
        Seq::empty()
    } else {
        seq![0x2cu8]
    }) + (seq![0x22u8] + escaped(part.0) + seq![0x22u8, 0x3au8, 0x22u8] + escaped(part.1) + seq![0x22u8])
}

/// The first `n` members as they are written.
pub open spec fn members_text(parts: Seq<(Seq<u8>, Seq<u8>)>, n: nat) -> Seq<u8>
    decreases n,
{
    if n == 0 {
        Seq::empty()
    } else {
        members_text(parts, (n - 1) as nat) + member_text(parts[n - 1], n == 1)
    }
}

/// The members from `k` on and the brace behind them.
spec fn members_from(parts: Seq<(Seq<u8>, Seq<u8>)>, k: nat) -> Seq<u8>
    decreases parts.len() - k,
{
    if k >= parts.len() {
        seq![0x7du8]
    } else {
        member_text(parts[k as int], k == 0) + members_from(parts, k + 1)
    }
}

proof fn lemma_members_from(parts: Seq<(Seq<u8>, Seq<u8>)>, k: nat)
    requires
        k <= parts.len(),
    ensures
        members_text(parts, parts.len()) + seq![0x7du8] == members_text(parts, k) + members_from(parts, k),
    decreases parts.len() - k,
{
    if k < parts.len() {
        lemma_members_from(parts, k + 1);
        let before = members_text(parts, k);
        let own = member_text(parts[k as int], k == 0);
        assert(before + own + members_from(parts, k + 1) =~= before + (own + members_from(parts, k + 1)));
    }
}

proof fn lemma_members_read(parts: Seq<(Seq<u8>, Seq<u8>)>, k: nat)
    requires
        k <= parts.len(),
    ensures
        read_members(members_from(parts, k), k == 0) == Some(parts.skip(k as int)),
    decreases parts.len() - k,
{
    let text = members_from(parts, k);
    if k == parts.len() {
        assert(parts.skip(k as int) =~= Seq::empty());
    } else {
        let (name, value) = parts[k as int];
        let rest = members_from(parts, k + 1);
        let own = seq![0x22u8] + escaped(name) + seq![0x22u8, 0x3au8, 0x22u8] + escaped(value) + seq![0x22u8] + rest;
        lemma_members_read(parts, k + 1);
        members_read_back(name, value, rest);
        assert(own.len() > rest.len() + 2);
        if k == 0 {
            assert(text =~= own);
        } else {
            assert(text =~= seq![0x2cu8] + own);
            assert(text.skip(1) =~= own);
        }
        assert(text.len() > 1);
        assert(text != seq![0x7du8]);
        assert(parts.skip(k as int) =~= seq![(name, value)] + parts.skip((k + 1) as int));
    }
}

/// An object of texts is read as its members, in their order.
pub proof fn members_of_objects_read_back(parts: Seq<(Seq<u8>, Seq<u8>)>)
    ensures
        read_object(seq![0x7bu8] + members_text(parts, parts.len()) + seq![0x7du8]) == Some(parts),
{
    let text = members_text(parts, parts.len());
    let all = seq![0x7bu8] + text + seq![0x7du8];
    lemma_members_from(parts, 0);
    lemma_members_read(parts, 0);
    assert(all.skip(1) =~= text + seq![0x7du8]);
    assert(members_text(parts, 0) + members_from(parts, 0) =~= members_from(parts, 0));
    assert(parts.skip(0) =~= parts);
}

} // verus!
