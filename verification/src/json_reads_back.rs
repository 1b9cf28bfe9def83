//! What a reader of JSON finds in the object of a row group: the names of its columns, and the values
//! of their rows.
use vstd::prelude::*;
use vstd::utf8::encode_utf8;
use crate::columnar_json::{written_column, written_name, written_type};
use crate::decimal::signed_value;
use crate::encoded_column::EncodedColumnView;
use crate::error::Error;
use crate::json_doubles::{double_text, PlanView};
use crate::json_numbers::{
    before_byte, behind_byte, decimals_read_back, integers_read_back, is_negative, lemma_place_of_byte, place_of_byte,
    read_decimal, read_integer, without_minus,
};
use crate::json_strings::{member_text, members_of_objects_read_back, members_text, read_object};
use crate::json_text::{escaped, is_plain, lemma_escaped_add, lemma_escaped_plain, pow10};
use crate::json_writer::{column_json, member, members, object_json, rows_json, value_text};
use crate::row_group_reader::RowGroupReader;
use crate::types::DataType;
use crate::values::ValueView;

verus! {

// ---------------------------------------------------------------- texts with commas between them

/// The texts with commas between them.
pub open spec fn joined_by_commas(texts: Seq<Seq<u8>>) -> Seq<u8>
    decreases texts.len(),
{
    if texts.len() == 0 {
        Seq::empty()
    } else if texts.len() == 1 {
        texts[0]
    } else {
        joined_by_commas(texts.drop_last()) + seq![44u8] + texts.last()
    }
}

/// The parts of a text between its commas.
pub open spec fn cut_at_commas(text: Seq<u8>) -> Seq<Seq<u8>>
    decreases text.len(),
{
    match behind_byte(text, 44) {
        None => seq![text],
        Some(rest) => if rest.len() < text.len() {
            seq![before_byte(text, 44)] + cut_at_commas(rest)
        } else {
            seq![text]
        },
    }
}

pub open spec fn has_no_comma(text: Seq<u8>) -> bool {
    forall|i: int| 0 <= i < text.len() ==> #[trigger] text[i] != 44
}

proof fn lemma_cut_behind(text: Seq<u8>, last: Seq<u8>)
    requires
        has_no_comma(last),
    ensures
        cut_at_commas(text + seq![44u8] + last) == cut_at_commas(text).push(last),
    decreases text.len(),
{
    let all = text + seq![44u8] + last;
    let at = place_of_byte(text, 44);
    lemma_found_byte(text, 44);
    if at < text.len() {
        let rest = text.skip(at + 1);
        assert forall|i: int| 0 <= i < at implies #[trigger] all[i] != 44 by {
            assert(all[i] == text[i]);
        }
        assert(all[at] == text[at]);
        lemma_place_of_byte(all, 44, at);
        assert(all.skip(at + 1) =~= rest + seq![44u8] + last);
        assert(all.take(at) =~= text.take(at));
        lemma_cut_behind(rest, last);
        assert(cut_at_commas(all) =~= seq![text.take(at)] + cut_at_commas(rest).push(last));
        assert(cut_at_commas(all) =~= cut_at_commas(text).push(last));
    } else {
        let n = text.len() as int;
        assert forall|i: int| 0 <= i < n implies #[trigger] all[i] != 44 by {
            assert(all[i] == text[i]);
        }
        assert(all[n] == 44);
        lemma_place_of_byte(all, 44, n);
        assert(all.take(n) =~= text);
        assert(all.skip(n + 1) =~= last);
        lemma_place_of_byte(last, 44, last.len() as int);
        assert(cut_at_commas(last) =~= seq![last]);
        assert(cut_at_commas(text) =~= seq![text]);
        assert(cut_at_commas(all) =~= seq![text] + seq![last]);
        assert(cut_at_commas(all) =~= cut_at_commas(text).push(last));
    }
}

proof fn lemma_found_byte(text: Seq<u8>, byte: u8)
    ensures
        0 <= place_of_byte(text, byte) <= text.len(),
        forall|i: int| 0 <= i < place_of_byte(text, byte) ==> #[trigger] text[i] != byte,
        place_of_byte(text, byte) < text.len() ==> text[place_of_byte(text, byte)] == byte,
    decreases text.len(),
{
    if text.len() > 0 && text[0] != byte {
        let rest = text.skip(1);
        lemma_found_byte(rest, byte);
        assert forall|i: int| 0 <= i < place_of_byte(text, byte) implies #[trigger] text[i] != byte by {
            if i > 0 {
                assert(rest[i - 1] != byte);
            }
        }
        if place_of_byte(rest, byte) < rest.len() {
            assert(rest[place_of_byte(rest, byte)] == byte);
        }
    }
}

/// Texts without commas are found again between the commas.
pub proof fn commas_tell_texts_apart(texts: Seq<Seq<u8>>)
    requires
        texts.len() > 0,
        forall|i: int| 0 <= i < texts.len() ==> has_no_comma(#[trigger] texts[i]),
    ensures
        cut_at_commas(joined_by_commas(texts)) == texts,
    decreases texts.len(),
{
    let last = texts.last();
    assert(has_no_comma(texts[texts.len() - 1]));
    if texts.len() == 1 {
        lemma_place_of_byte(last, 44, last.len() as int);
        assert(cut_at_commas(last) =~= texts);
    } else {
        let front = texts.drop_last();
        assert forall|i: int| 0 <= i < front.len() implies has_no_comma(#[trigger] front[i]) by {
            assert(has_no_comma(texts[i]));
        }
        commas_tell_texts_apart(front);
        lemma_cut_behind(joined_by_commas(front), last);
        assert(front.push(last) =~= texts);
    }
}

// ---------------------------------------------------------------- values

/// The text is read as a decimal of a column of type `dt`.
pub open spec fn tells_decimal(dt: DataType, x: int, text: Seq<u8>) -> bool {
    dt matches DataType::Decimal128(_, scale) && read_decimal(text) == (if scale >= 0 {
        Some((x, scale as nat))
    } else {
        Some((x * pow10((-scale) as nat), 0nat))
    })
}

/// The text is read as the value of a column of type `dt`: an integer or a decimal as the number that
/// it is, a text as itself, a floating-point number as the text that the plan has for it, and nothing
/// as nothing.
pub open spec fn tells(dt: DataType, v: ValueView, plan: PlanView, text: Seq<u8>) -> bool {
    match v {
        ValueView::Null => text.len() == 0,
        ValueView::TinyInt(x) => read_integer(text) == Some(x as int),
        ValueView::SmallInt(x) => read_integer(text) == Some(x as int),
        ValueView::Integer(x) => read_integer(text) == Some(x as int),
        ValueView::BigInt(x) => read_integer(text) == Some(x as int),
        ValueView::DecimalCompact(x) => tells_decimal(dt, x as int, text),
        ValueView::DecimalLarge(bytes) => tells_decimal(dt, signed_value(bytes), text),
        ValueView::Double(bits) => double_text(bits, plan) == Ok::<Seq<u8>, Error>(text),
        ValueView::String(bytes) => text == bytes,
        _ => false,
    }
}

/// The bytes stand for themselves between quotes, and none is a comma.
pub open spec fn is_simple(text: Seq<u8>) -> bool {
    forall|i: int| 0 <= i < text.len() ==> is_plain(#[trigger] text[i]) && text[i] != 44
}

/// The texts of floating-point numbers stand for themselves between quotes and commas.
pub open spec fn has_simple_doubles(plan: PlanView) -> bool {
    forall|bits: u64| (#[trigger] double_text(bits, plan)) matches Ok(text) ==> is_simple(text)
}

proof fn lemma_simple_part(text: Seq<u8>, part: Seq<u8>)
    requires
        text.len() == 1 + part.len(),
        text.skip(1) == part,
        is_plain(text[0]),
        text[0] != 44,
        is_simple(part),
    ensures
        is_simple(text),
{
    assert forall|i: int| 0 <= i < text.len() implies is_plain(#[trigger] text[i]) && text[i] != 44 by {
        if i > 0 {
            assert(part[i - 1] == text[i]);
            assert(is_plain(part[i - 1]));
        }
    }
}

/// The text of a number is simple.
proof fn lemma_numbers_are_simple(text: Seq<u8>)
    requires
        read_decimal(text) is Some || read_integer(text) is Some,
    ensures
        is_simple(text),
{
    let all = without_minus(text);
    lemma_found_byte(all, 46);
    let at = place_of_byte(all, 46);
    assert forall|i: int| 0 <= i < all.len() implies is_plain(#[trigger] all[i]) && all[i] != 44 by {
        if read_integer(text) is Some {
            assert(48 <= all[i] <= 57);
        } else if i < at {
            assert(all.take(at)[i] == all[i]);
            assert(48 <= all.take(at)[i] <= 57);
        } else if i > at {
            let fraction = all.skip(at + 1);
            assert(fraction[i - at - 1] == all[i]);
            assert(48 <= fraction[i - at - 1] <= 57);
        }
    }
    if is_negative(text) {
        lemma_simple_part(text, all);
    }
}

/// What stands between the quotes for a value, before it is escaped.
spec fn plain_text(dt: DataType, v: ValueView, plan: PlanView) -> Seq<u8> {
    match v {
        ValueView::String(bytes) => bytes,
        _ => value_text(dt, v, plan)->Ok_0,
    }
}

proof fn lemma_plain_text(dt: DataType, v: ValueView, plan: PlanView)
    requires
        value_text(dt, v, plan) is Ok,
        has_simple_doubles(plan),
    ensures
        value_text(dt, v, plan)->Ok_0 == escaped(plain_text(dt, v, plan)),
        tells(dt, v, plan, plain_text(dt, v, plan)),
        !(v is String) ==> is_simple(plain_text(dt, v, plan)),
        v is String ==> dt is Utf8,
{
    let text = plain_text(dt, v, plan);
    match v {
        ValueView::Null => {
            assert(escaped(text) =~= text);
        },
        ValueView::TinyInt(x) => {
            integers_read_back(x as int);
            lemma_numbers_are_simple(text);
        },
        ValueView::SmallInt(x) => {
            integers_read_back(x as int);
            lemma_numbers_are_simple(text);
        },
        ValueView::Integer(x) => {
            integers_read_back(x as int);
            lemma_numbers_are_simple(text);
        },
        ValueView::BigInt(x) => {
            integers_read_back(x as int);
            lemma_numbers_are_simple(text);
        },
        ValueView::DecimalCompact(x) => {
            decimals_read_back(x as int, dt->Decimal128_1 as int);
            lemma_numbers_are_simple(text);
        },
        ValueView::DecimalLarge(bytes) => {
            decimals_read_back(signed_value(bytes), dt->Decimal128_1 as int);
            lemma_numbers_are_simple(text);
        },
        ValueView::Double(bits) => {
            assert(double_text(bits, plan) is Ok);
        },
        _ => {},
    }
    if !(v is String) {
        assert forall|i: int| 0 <= i < text.len() implies is_plain(#[trigger] text[i]) by {}
        lemma_escaped_plain(text);
    }
}

/// The text that is written of a value is read as the value, once its escapes are undone.
pub proof fn values_are_told_by_their_texts(dt: DataType, v: ValueView, plan: PlanView)
    requires
        value_text(dt, v, plan) is Ok,
        has_simple_doubles(plan),
    ensures
        exists|text: Seq<u8>| #[trigger] tells(dt, v, plan, text) && value_text(dt, v, plan) == Ok::<Seq<u8>, Error>(escaped(text)),
{
    lemma_plain_text(dt, v, plan);
}

/// Integers of every width have a text, and it is read as the integer.
pub proof fn integer_values_read_back(v: ValueView, plan: PlanView)
    ensures
        v matches ValueView::TinyInt(x) ==> (value_text(DataType::Int8, v, plan) matches Ok(text) && read_integer(text) == Some(x as int)),
        v matches ValueView::SmallInt(x) ==> (value_text(DataType::Int16, v, plan) matches Ok(text) && read_integer(text) == Some(x as int)),
        v matches ValueView::Integer(x) ==> (value_text(DataType::Int32, v, plan) matches Ok(text) && read_integer(text) == Some(x as int)),
        v matches ValueView::BigInt(x) ==> (value_text(DataType::Int64, v, plan) matches Ok(text) && read_integer(text) == Some(x as int)),
{
    match v {
        ValueView::TinyInt(x) => integers_read_back(x as int),
        ValueView::SmallInt(x) => integers_read_back(x as int),
        ValueView::Integer(x) => integers_read_back(x as int),
        ValueView::BigInt(x) => integers_read_back(x as int),
        _ => {},
    }
}

// ---------------------------------------------------------------- columns

/// What stands between the quotes for a column, before it is escaped.
spec fn plain_texts(dt: DataType, c: EncodedColumnView, plan: PlanView, n: nat) -> Seq<Seq<u8>> {
    Seq::new(n, |r: int| plain_text(dt, c.value_at(r)->Ok_0, plan))
}

proof fn lemma_rows_told(dt: DataType, c: EncodedColumnView, plan: PlanView, n: nat)
    requires
        rows_json(dt, c, plan, n) is Ok,
        has_simple_doubles(plan),
    ensures
        rows_json(dt, c, plan, n)->Ok_0 == escaped(joined_by_commas(plain_texts(dt, c, plan, n))),
        forall|r: int|
            0 <= r < n ==> (#[trigger] c.value_at(r)) is Ok && tells(dt, c.value_at(r)->Ok_0, plan, plain_texts(dt, c, plan, n)[r]),
        !(dt is Utf8) ==> forall|r: int| 0 <= r < n ==> has_no_comma(#[trigger] plain_texts(dt, c, plan, n)[r]),
    decreases n,
{
    let texts = plain_texts(dt, c, plan, n);
    if n == 0 {
        assert(escaped(joined_by_commas(texts)) =~= Seq::empty());
    } else {
        let front = plain_texts(dt, c, plan, (n - 1) as nat);
        lemma_rows_told(dt, c, plan, (n - 1) as nat);
        assert(texts.drop_last() =~= front);
        let v = c.value_at(n - 1)->Ok_0;
        lemma_plain_text(dt, v, plan);
        let last = plain_text(dt, v, plan);
        assert(texts[n - 1] == last);
        let before = joined_by_commas(front);
        let own = rows_json(dt, c, plan, n)->Ok_0;
        if n == 1 {
            assert(front =~= Seq::<Seq<u8>>::empty());
            assert(joined_by_commas(front) =~= Seq::<u8>::empty());
            assert(own =~= escaped(last));
        } else {
            lemma_escaped_add(before, seq![44u8]);
            lemma_escaped_add(before + seq![44u8], last);
            assert(seq![44u8].drop_last() =~= Seq::<u8>::empty());
            assert(escaped(seq![44u8].drop_last()) =~= Seq::<u8>::empty());
            assert(escaped(seq![44u8]) =~= seq![44u8]);
            assert(own =~= escaped(before + seq![44u8] + last));
        }
        assert forall|r: int| 0 <= r < n implies (#[trigger] c.value_at(r)) is Ok && tells(dt, c.value_at(r)->Ok_0, plan, texts[r]) by {
            if r < n - 1 {
                assert(texts[r] == front[r]);
            }
        }
        if !(dt is Utf8) {
            assert forall|r: int| 0 <= r < n implies has_no_comma(#[trigger] texts[r]) by {
                if r < n - 1 {
                    assert(texts[r] == front[r]);
                }
            }
        }
    }
}

/// The text has the values of the rows of a column with commas between them. Where the values are no
/// texts, there is one part for each row between the commas.
pub open spec fn tells_column(dt: DataType, c: EncodedColumnView, plan: PlanView, texts: Seq<Seq<u8>>, text: Seq<u8>) -> bool {
    &&& texts.len() == c.rows
    &&& text == joined_by_commas(texts)
    &&& !(dt is Utf8) && c.rows > 0 ==> cut_at_commas(text) == texts
    &&& forall|r: int| 0 <= r < c.rows ==> ((#[trigger] c.value_at(r)) matches Ok(v) && tells(dt, v, plan, texts[r]))
}

/// The text has the values of the rows of a column, in their order.
pub open spec fn tells_rows(dt: DataType, c: EncodedColumnView, plan: PlanView, text: Seq<u8>) -> bool {
    exists|texts: Seq<Seq<u8>>| #[trigger] tells_column(dt, c, plan, texts, text)
}

/// What stands between the quotes for a column, before it is escaped.
spec fn plain_column(dt: DataType, c: EncodedColumnView, plan: PlanView) -> Seq<u8> {
    joined_by_commas(plain_texts(dt, c, plan, c.rows))
}

proof fn lemma_plain_column(dt: DataType, c: EncodedColumnView, plan: PlanView)
    requires
        column_json(dt, c, plan) is Ok,
        has_simple_doubles(plan),
    ensures
        tells_rows(dt, c, plan, plain_column(dt, c, plan)),
        column_json(dt, c, plan) == Ok::<Seq<u8>, Error>(escaped(plain_column(dt, c, plan))),
{
    let texts = plain_texts(dt, c, plan, c.rows);
    lemma_rows_told(dt, c, plan, c.rows);
    if !(dt is Utf8) && c.rows > 0 {
        commas_tell_texts_apart(texts);
    }
    assert(tells_column(dt, c, plan, texts, joined_by_commas(texts)));
}

/// The text of a column is read as the values of its rows.
pub proof fn columns_are_told_by_their_texts(dt: DataType, c: EncodedColumnView, plan: PlanView)
    requires
        column_json(dt, c, plan) is Ok,
        has_simple_doubles(plan),
    ensures
        exists|text: Seq<u8>| #[trigger]
            tells_rows(dt, c, plan, text) && column_json(dt, c, plan) == Ok::<Seq<u8>, Error>(escaped(text)),
{
    lemma_plain_column(dt, c, plan);
}

// ---------------------------------------------------------------- objects

/// What stands between the quotes for column `k`, before it is escaped.
spec fn content(reader: RowGroupReader, plan: PlanView, k: int) -> Seq<u8> {
    plain_column(written_type(reader, k), written_column(reader, k)->Ok_0, plan)
}

/// The columns of the object with their contents.
spec fn contents(reader: RowGroupReader, plan: PlanView, n: nat) -> Seq<(Seq<u8>, Seq<u8>)> {
    Seq::new(n, |k: int| (encode_utf8(written_name(reader, k)), content(reader, plan, k)))
}

proof fn lemma_members_alike(a: Seq<(Seq<u8>, Seq<u8>)>, b: Seq<(Seq<u8>, Seq<u8>)>, n: nat)
    requires
        n <= a.len(),
        n <= b.len(),
        forall|i: int| 0 <= i < n ==> a[i] == #[trigger] b[i],
    ensures
        members_text(a, n) == members_text(b, n),
    decreases n,
{
    if n > 0 {
        lemma_members_alike(a, b, (n - 1) as nat);
        assert(a[n - 1] == b[n - 1]);
    }
}

proof fn lemma_member(name: Seq<char>, value: Seq<u8>, first: bool)
    ensures
        member(name, escaped(value), first) == member_text((encode_utf8(name), value), first),
{
    assert(member(name, escaped(value), first) =~= member_text((encode_utf8(name), value), first));
}

proof fn lemma_members(reader: RowGroupReader, plan: PlanView, n: nat)
    requires
        members(reader, plan, n) is Ok,
        has_simple_doubles(plan),
    ensures
        members(reader, plan, n)->Ok_0 == members_text(contents(reader, plan, n), n),
        forall|k: int|
            0 <= k < n ==> (#[trigger] written_column(reader, k) matches Ok(c) && tells_rows(
                written_type(reader, k),
                c,
                plan,
                content(reader, plan, k),
            )),
    decreases n,
{
    if n > 0 {
        let k = n - 1;
        lemma_members(reader, plan, k as nat);
        lemma_plain_column(written_type(reader, k), written_column(reader, k)->Ok_0, plan);
        lemma_member(written_name(reader, k), content(reader, plan, k), n == 1);
        let (before, all) = (contents(reader, plan, k as nat), contents(reader, plan, n));
        assert forall|i: int| 0 <= i < k implies before[i] == #[trigger] all[i] by {}
        lemma_members_alike(before, all, k as nat);
    }
}

/// The object of a row group is read as its columns: each that is visited once, in order, with its
/// name and the values of its rows.
pub proof fn objects_read_back(reader: RowGroupReader, plan: PlanView)
    requires
        object_json(reader, plan) is Ok,
        has_simple_doubles(plan),
    ensures
        read_object(object_json(reader, plan)->Ok_0) matches Some(found) && found.len() == reader.visited().len() && forall|k: int|
            0 <= k < found.len() ==> {
                let g = reader.visited()[k] as int;
                let column = reader.schema_of().columns@[g];
                &&& (#[trigger] found[k]).0 == encode_utf8(column.name@)
                &&& reader.stored_column(g) matches Ok(c) && tells_rows(column.data_type, c, plan, found[k].1)
            },
{
    let n = reader.visited().len();
    let found = contents(reader, plan, n);
    lemma_members(reader, plan, n);
    members_of_objects_read_back(found);
    assert forall|k: int| 0 <= k < found.len() implies ({
        let g = reader.visited()[k] as int;
        let column = reader.schema_of().columns@[g];
        &&& (#[trigger] found[k]).0 == encode_utf8(column.name@)
        &&& reader.stored_column(g) matches Ok(c) && tells_rows(column.data_type, c, plan, found[k].1)
    }) by {
        assert(written_column(reader, k) is Ok);
    }
}

} // verus!
