//! The text of floating-point numbers in columnar JSON, by the bits of the numbers.
use std::collections::BTreeSet;
use vstd::prelude::*;
use vstd::utf8::{decode_utf8, valid_utf8};
use crate::error::Error;
use crate::json_text::{appends, java_text, separated, write_java_style_double};
use crate::output::OutputFile;

verus! {

broadcast use {vstd::std_specs::btree::group_btree_axioms, vstd::laws_cmp::group_laws_cmp};

/// No more texts than this are asked for.
pub const MAX_DISTINCT_JAVA_DOUBLE_VALUES: usize = 65_536;

/// The bits of the smallest and of the largest magnitude whose shortest text is the one that Java
/// writes.
pub const MIN_EXACT_DOUBLE_BITS: u64 = 0x3eb0_c6f7_a0b5_ed8d;

pub const MAX_EXACT_DOUBLE_BITS: u64 = 0x41cd_cd65_0000_0000;

pub const SIGN_BIT: u64 = 0x8000_0000_0000_0000;

pub const INFINITY_BITS: u64 = 0x7ff0_0000_0000_0000;

/// The bits without the sign.
pub open spec fn magnitude_bits(bits: u64) -> int {
    if bits >= SIGN_BIT {
        bits - SIGN_BIT
    } else {
        bits as int
    }
}

pub open spec fn is_finite(bits: u64) -> bool {
    magnitude_bits(bits) < INFINITY_BITS
}

/// The number is zero, or its shortest text tells how Java writes it.
pub open spec fn is_exact(bits: u64) -> bool {
    magnitude_bits(bits) == 0 || MIN_EXACT_DOUBLE_BITS <= magnitude_bits(bits) <= MAX_EXACT_DOUBLE_BITS
}

fn without_sign(bits: u64) -> (magnitude: u64)
    ensures
        magnitude == magnitude_bits(bits),
{
    if bits >= SIGN_BIT {
        bits - SIGN_BIT
    } else {
        bits
    }
}

/// The number is zero, or its shortest text tells how Java writes it.
pub fn can_format_double_in_rust(bits: u64) -> (exact: bool)
    ensures
        exact == is_exact(bits),
{
    let magnitude: u64 = without_sign(bits);
    magnitude == 0 || (MIN_EXACT_DOUBLE_BITS <= magnitude && magnitude <= MAX_EXACT_DOUBLE_BITS)
}

/// Notes a number whose text has to be asked for. Says no of a number that JSON cannot hold.
pub fn prepare_double_value(bits: u64, java_double_bits: &mut BTreeSet<u64>) -> (result: Result<bool, Error>)
    ensures
        !is_finite(bits) ==> result == Ok::<bool, Error>(false) && final(java_double_bits)@ == old(java_double_bits)@,
        is_finite(bits) && is_exact(bits) ==> result == Ok::<bool, Error>(true) && final(java_double_bits)@ == old(java_double_bits)@,
        is_finite(bits) && !is_exact(bits) && !old(java_double_bits)@.contains(bits) && old(java_double_bits)@.len()
            >= MAX_DISTINCT_JAVA_DOUBLE_VALUES ==> result == Err::<bool, Error>(Error::TooManyJavaDoubles) && final(java_double_bits)@ == old(java_double_bits)@,
        is_finite(bits) && !is_exact(bits) && (old(java_double_bits)@.contains(bits) || old(java_double_bits)@.len()
            < MAX_DISTINCT_JAVA_DOUBLE_VALUES) ==> result == Ok::<bool, Error>(true) && final(java_double_bits)@ == old(java_double_bits)@.insert(bits),
{
    if without_sign(bits) >= INFINITY_BITS {
        return Ok(false);
    }
    if !can_format_double_in_rust(bits) {
        if !java_double_bits.contains(&bits) && java_double_bits.len() >= MAX_DISTINCT_JAVA_DOUBLE_VALUES {
            return Err(Error::TooManyJavaDoubles);
        }
        java_double_bits.insert(bits);
    }
    Ok(true)
}

pub(crate) fn insert_bits(set: &mut BTreeSet<u64>, bits: u64)
    ensures
        final(set)@ == old(set)@.insert(bits),
{
    set.insert(bits);
}

/// Each is less than those behind it.
pub open spec fn ascending(bits: Seq<u64>) -> bool {
    forall|i: int, j: int| 0 <= i < j < bits.len() ==> bits[i] < bits[j]
}

proof fn lemma_ascending(all: Seq<&u64>)
    requires
        vstd::std_specs::btree::increasing_seq(all),
    ensures
        ascending(all.unref()),
{
    assert forall|i: int, j: int| 0 <= i < j < all.len() implies *all[i] < *all[j] by {
        assert(vstd::std_specs::cmp::OrdSpec::cmp_spec(&all[i], &all[j]) is Less);
    }
}

/// The members of a set in ascending order.
pub fn sorted_bits(set: &BTreeSet<u64>) -> (bits: Vec<u64>)
    ensures
        ascending(bits@),
        bits@.to_set() == set@,
{
    let mut bits: Vec<u64> = Vec::new();
    let ghost all = vstd::std_specs::iter::IteratorSpec::remaining(&set.iter());
    for x in it: set.iter()
        invariant
            it.seq() == all,
            bits@ == all.take(it.index() as int).unref(),
    {
        bits.push(*x);
        assert(bits@ =~= all.take(it.index() + 1).unref());
    }
    proof {
        assert(all.take(all.len() as int) =~= all);
        assert(bits@ == all.unref());
        assert(all.unref().to_set() == set@);
        lemma_ascending(all);
    }
    bits
}

// ---------------------------------------------------------------- texts that are handed in

/// The bytes up to `n` at most that are text by themselves.
pub open spec fn text_up_to(bytes: Seq<u8>, n: nat) -> nat
    decreases n,
{
    if n == 0 || valid_utf8(bytes.take(n as int)) {
        n
    } else {
        text_up_to(bytes, (n - 1) as nat)
    }
}

/// How many bytes behind those that are text are wrong, as `Utf8Error::error_len` gives it for the
/// error of `std::str::from_utf8`.
pub uninterp spec fn utf8_error_len(bytes: Seq<u8>) -> Option<usize>;

/// Why bytes are no text: how many of them are, and how many are wrong there.
pub open spec fn utf8_fault(bytes: Seq<u8>) -> (usize, Option<usize>) {
    (text_up_to(bytes, bytes.len()) as usize, utf8_error_len(bytes))
}

/// `std::str::from_utf8`: bytes are text if and only if they are well-formed UTF-8, and the text is
/// the one that they encode. Its error tells the largest number of bytes from the front that are
/// text, and how many bytes are wrong behind them, or that the bytes end within a character, one to
/// three bytes behind those that are text. How many bytes are wrong is a matter of the bytes alone;
/// which number it is is left open.
#[verifier::external_body]
pub(crate) fn utf8_text(bytes: &[u8]) -> (text: Result<&str, (usize, Option<usize>)>)
    ensures
        text is Ok == valid_utf8(bytes@),
        text matches Ok(t) ==> t@ == decode_utf8(bytes@),
        text matches Err(fault) ==> fault.0 == text_up_to(bytes@, bytes@.len()) && fault.1 == utf8_error_len(bytes@),
        text matches Err((valid, None)) ==> valid < bytes@.len() <= valid + 3,
        text matches Err((valid, Some(wrong))) ==> 0 < wrong <= bytes@.len() - valid,
{
    std::str::from_utf8(bytes).map_err(|error| (error.valid_up_to(), error.error_len()))
}

/// Texts by the bits of the numbers.
pub open spec fn text_map(keys: Seq<u64>, texts: Seq<Vec<u8>>) -> Map<u64, Seq<u8>> {
    Map::new(|bits: u64| keys.contains(bits), |bits: u64| texts[keys.index_of(bits)]@)
}

/// The shortest text of each number.
pub open spec fn shortest_map(keys: Seq<u64>, texts: Seq<String>) -> Map<u64, String> {
    Map::new(|bits: u64| keys.contains(bits), |bits: u64| texts[keys.index_of(bits)])
}

/// The texts of numbers: those that were asked for, and the shortest ones.
pub struct PlanView {
    pub java: Map<u64, Seq<u8>>,
    pub shortest: Map<u64, String>,
}

/// The numbers of a row group whose texts have to be handed in.
pub struct EncodedJsonPreflight {
    java_double_bits: Vec<u64>,
    exact_double_bits: Vec<u64>,
}

/// The texts of the numbers of a row group.
pub struct EncodedJsonPlan {
    java_double_bits: Vec<u64>,
    java_double_texts: Vec<Vec<u8>>,
    exact_double_bits: Vec<u64>,
    exact_double_texts: Vec<String>,
}

/// Answer `i` is not the text of the number that was asked for.
pub open spec fn is_bad_answer(bits: Seq<u64>, values: Seq<Vec<u8>>, parsed: Seq<Option<u64>>, i: int) -> bool {
    !valid_utf8(values[i]@) || parsed[i] != Some(bits[i])
}

pub open spec fn first_bad_answer(bits: Seq<u64>, values: Seq<Vec<u8>>, parsed: Seq<Option<u64>>, i: int) -> bool {
    &&& 0 <= i < bits.len()
    &&& is_bad_answer(bits, values, parsed, i)
    &&& forall|j: int| 0 <= j < i ==> !#[trigger] is_bad_answer(bits, values, parsed, j)
}

/// What is said of answer `i`.
pub open spec fn answer_error(bits: Seq<u64>, values: Seq<Vec<u8>>, parsed: Seq<Option<u64>>, i: int, e: Error) -> bool {
    if !valid_utf8(values[i]@) {
        e == (Error::JavaDoubleNotUtf8 { valid_up_to: utf8_fault(values[i]@).0, error_len: utf8_fault(values[i]@).1 })
    } else if parsed[i] is None {
        e matches Error::JavaDoubleInvalid { rendered } && rendered@ == decode_utf8(values[i]@)
    } else {
        e matches Error::JavaDoubleMismatch { rendered, bits: asked } && rendered@ == decode_utf8(values[i]@) && asked == bits[i]
    }
}

impl EncodedJsonPreflight {
    pub closed spec fn java_bits(&self) -> Seq<u64> {
        self.java_double_bits@
    }

    pub closed spec fn exact_bits(&self) -> Seq<u64> {
        self.exact_double_bits@
    }

    pub open spec fn wf(&self) -> bool {
        ascending(self.java_bits()) && ascending(self.exact_bits())
    }

    pub fn new(java_double_bits: Vec<u64>, exact_double_bits: Vec<u64>) -> (preflight: Self)
        requires
            ascending(java_double_bits@),
            ascending(exact_double_bits@),
        ensures
            preflight.wf(),
            preflight.java_bits() == java_double_bits@,
            preflight.exact_bits() == exact_double_bits@,
    {
        EncodedJsonPreflight { java_double_bits, exact_double_bits }
    }

    /// The numbers whose text has to be asked for.
    pub fn java_double_bits(&self) -> (bits: &[u64])
        ensures
            bits@ == self.java_bits(),
    {
        self.java_double_bits.as_slice()
    }

    /// The numbers whose shortest text is needed.
    pub fn exact_double_bits(&self) -> (bits: &[u64])
        ensures
            bits@ == self.exact_bits(),
    {
        self.exact_double_bits.as_slice()
    }

    /// Takes the texts. Each text that was asked for has to be that of the number: `parsed` tells
    /// the bits of the number that it stands for, if it stands for one.
    pub fn complete(self, values: Vec<Vec<u8>>, parsed: &[Option<u64>], exact_double_texts: Vec<String>) -> (result: Result<
        EncodedJsonPlan,
        Error,
    >)
        requires
            self.wf(),
            parsed@.len() == values@.len(),
            exact_double_texts@.len() == self.exact_bits().len(),
        ensures
            values@.len() != self.java_bits().len() ==> result == Err::<EncodedJsonPlan, Error>(
                Error::JavaDoubleCountMismatch { returned: values@.len() as usize, requested: self.java_bits().len() as usize },
            ),
            values@.len() == self.java_bits().len() ==> forall|i: int| #[trigger]
                first_bad_answer(self.java_bits(), values@, parsed@, i) ==> (result matches Err(e) && answer_error(
                    self.java_bits(),
                    values@,
                    parsed@,
                    i,
                    e,
                )),
            values@.len() == self.java_bits().len() && (forall|i: int|
                0 <= i < values@.len() ==> !#[trigger] is_bad_answer(self.java_bits(), values@, parsed@, i)) ==> (result matches Ok(
                plan,
            ) && plan.wf() && plan@ == (PlanView {
                java: text_map(self.java_bits(), values@),
                shortest: shortest_map(self.exact_bits(), exact_double_texts@),
            })),
            result matches Ok(plan) ==> forall|i: int|
                0 <= i < self.java_bits().len() ==> plan@.java.dom().contains(#[trigger] self.java_bits()[i]) && plan@.java[self.java_bits()[i]]
                    == values@[i]@ && parsed@[i] == Some(self.java_bits()[i]),
            result matches Ok(plan) ==> forall|i: int|
                0 <= i < self.exact_bits().len() ==> plan@.shortest.dom().contains(#[trigger] self.exact_bits()[i])
                    && plan@.shortest[self.exact_bits()[i]] == exact_double_texts@[i],
    {
        if values.len() != self.java_double_bits.len() {
            return Err(
                Error::JavaDoubleCountMismatch { returned: values.len(), requested: self.java_double_bits.len() },
            );
        }
        let mut i: usize = 0;
        while i < values.len()
            invariant
                i <= values@.len(),
                values@.len() == self.java_bits().len(),
                parsed@.len() == values@.len(),
                forall|j: int| 0 <= j < i ==> !#[trigger] is_bad_answer(self.java_bits(), values@, parsed@, j),
            decreases values@.len() - i,
        {
            let asked: u64 = self.java_double_bits[i];
            let ghost bad = is_bad_answer(self.java_bits(), values@, parsed@, i as int);
            proof {
                if bad {
                    lemma_first_bad(self.java_bits(), values@, parsed@, i as int);
                }
            }
            let rendered: &str = match utf8_text(values[i].as_slice()) {
                Ok(text) => text,
                Err((valid_up_to, error_len)) => {
                    return Err(Error::JavaDoubleNotUtf8 { valid_up_to, error_len });
                },
            };
            match parsed[i] {
                None => {
                    return Err(Error::JavaDoubleInvalid { rendered: rendered.to_owned() });
                },
                Some(bits) => {
                    if bits != asked {
                        return Err(Error::JavaDoubleMismatch { rendered: rendered.to_owned(), bits: asked });
                    }
                },
            }
            i += 1;
        }
        proof {
            assert forall|j: int| 0 <= j < self.java_bits().len() implies self.java_bits().contains(#[trigger] self.java_bits()[j])
                && self.java_bits().index_of(self.java_bits()[j]) == j && parsed@[j] == Some(self.java_bits()[j]) by {
                lemma_place_among(self.java_bits(), j);
                assert(!is_bad_answer(self.java_bits(), values@, parsed@, j));
            }
            assert forall|j: int| 0 <= j < self.exact_bits().len() implies self.exact_bits().contains(#[trigger] self.exact_bits()[j])
                && self.exact_bits().index_of(self.exact_bits()[j]) == j by {
                lemma_place_among(self.exact_bits(), j);
            }
        }
        Ok(
            EncodedJsonPlan {
                java_double_bits: self.java_double_bits,
                java_double_texts: values,
                exact_double_bits: self.exact_double_bits,
                exact_double_texts,
            },
        )
    }
}

/// The place of a number among ascending ones is where it stands.
proof fn lemma_place_among(keys: Seq<u64>, j: int)
    requires
        ascending(keys),
        0 <= j < keys.len(),
    ensures
        keys.contains(keys[j]),
        keys.index_of(keys[j]) == j,
{
    let at = keys.index_of(keys[j]);
    assert(keys[at] == keys[j]);
    if at < j {
        assert(keys[at] < keys[j]);
    } else if j < at {
        assert(keys[j] < keys[at]);
    }
}

proof fn lemma_first_bad(bits: Seq<u64>, values: Seq<Vec<u8>>, parsed: Seq<Option<u64>>, i: int)
    requires
        0 <= i < bits.len(),
        is_bad_answer(bits, values, parsed, i),
        forall|j: int| 0 <= j < i ==> !#[trigger] is_bad_answer(bits, values, parsed, j),
    ensures
        forall|k: int| #[trigger] first_bad_answer(bits, values, parsed, k) ==> k == i,
{
}

/// The place of a number.
fn find_bits(keys: &Vec<u64>, bits: u64) -> (place: Option<usize>)
    requires
        ascending(keys@),
    ensures
        place is Some == keys@.contains(bits),
        place matches Some(i) ==> i < keys@.len() && keys@[i as int] == bits && keys@.index_of(bits) == i,
{
    let mut low: usize = 0;
    let mut high: usize = keys.len();
    while low < high
        invariant
            low <= high <= keys@.len(),
            ascending(keys@),
            forall|i: int| 0 <= i < low ==> #[trigger] keys@[i] < bits,
            forall|i: int| high <= i < keys@.len() ==> #[trigger] keys@[i] > bits,
        decreases high - low,
    {
        let middle: usize = low + (high - low) / 2;
        let key: u64 = keys[middle];
        if key == bits {
            proof {
                assert(keys@.contains(bits));
                let at = keys@.index_of(bits);
                assert(keys@[at] == bits);
                if at < middle {
                    assert(keys@[at] < keys@[middle as int]);
                } else if middle < at {
                    assert(keys@[middle as int] < keys@[at]);
                }
            }
            return Some(middle);
        }
        if key < bits {
            assert forall|i: int| 0 <= i < middle + 1 implies #[trigger] keys@[i] < bits by {
                if i < middle {
                    assert(keys@[i] < keys@[middle as int]);
                }
            }
            low = middle + 1;
        } else {
            assert forall|i: int| middle <= i < keys@.len() implies #[trigger] keys@[i] > bits by {
                if middle < i {
                    assert(keys@[middle as int] < keys@[i]);
                }
            }
            high = middle;
        }
    }
    None
}

impl View for EncodedJsonPlan {
    type V = PlanView;

    closed spec fn view(&self) -> PlanView {
        PlanView {
            java: text_map(self.java_double_bits@, self.java_double_texts@),
            shortest: shortest_map(self.exact_double_bits@, self.exact_double_texts@),
        }
    }
}

impl EncodedJsonPlan {
    pub closed spec fn wf(&self) -> bool {
        &&& ascending(self.java_double_bits@)
        &&& self.java_double_texts@.len() == self.java_double_bits@.len()
        &&& ascending(self.exact_double_bits@)
        &&& self.exact_double_texts@.len() == self.exact_double_bits@.len()
    }

    /// The text that was asked for.
    pub fn java_double_value(&self, bits: u64) -> (text: Option<&[u8]>)
        requires
            self.wf(),
        ensures
            text is Some == self@.java.dom().contains(bits),
            text matches Some(t) ==> t@ == self@.java[bits],
    {
        match find_bits(&self.java_double_bits, bits) {
            Some(i) => Some(self.java_double_texts[i].as_slice()),
            None => None,
        }
    }

    /// The shortest text of a number.
    pub fn shortest_double_value(&self, bits: u64) -> (text: Option<&String>)
        requires
            self.wf(),
        ensures
            text is Some == self@.shortest.dom().contains(bits),
            text matches Some(t) ==> *t == self@.shortest[bits],
    {
        match find_bits(&self.exact_double_bits, bits) {
            Some(i) => Some(&self.exact_double_texts[i]),
            None => None,
        }
    }
}

impl Default for EncodedJsonPlan {
    fn default() -> (plan: Self)
        ensures
            plan.wf(),
            plan@.java =~= Map::<u64, Seq<u8>>::empty(),
            plan@.shortest =~= Map::<u64, String>::empty(),
    {
        EncodedJsonPlan {
            java_double_bits: Vec::new(),
            java_double_texts: Vec::new(),
            exact_double_bits: Vec::new(),
            exact_double_texts: Vec::new(),
        }
    }
}

// ---------------------------------------------------------------- writing

/// `0.0`
pub open spec fn zero_text() -> Seq<u8> {
    seq![48u8, 46u8, 48u8]
}

/// The text of a number whose shortest text is the one that Java writes, in the form of Java.
pub open spec fn exact_text(bits: u64, plan: PlanView) -> Result<Seq<u8>, Error> {
    if bits == 0 {
        Ok(zero_text())
    } else if bits == SIGN_BIT {
        Ok(seq![45u8] + zero_text())
    } else if plan.shortest.dom().contains(bits) {
        java_text(plan.shortest[bits])
    } else {
        Err(Error::MissingDoubleText { bits })
    }
}

/// The text of a number.
pub open spec fn double_text(bits: u64, plan: PlanView) -> Result<Seq<u8>, Error> {
    if is_exact(bits) {
        exact_text(bits, plan)
    } else if !is_finite(bits) {
        Err(Error::NonFiniteDouble)
    } else if plan.java.dom().contains(bits) {
        Ok(plan.java[bits])
    } else {
        Err(Error::MissingJavaDouble { bits })
    }
}

/// Writes text behind a comma or without one.
pub fn write_separated<W: OutputFile>(output: &mut W, text: &[u8], separator: bool) -> (result: Result<(), Error>)
    ensures
        appends(*old(output), *final(output), result, separated(separator, text@)),
{
    let ghost start = output.written();
    if separator {
        let comma: Vec<u8> = vec![44u8; 1];
        assert(comma@ =~= seq![44u8]);
        match output.write(comma.as_slice()) {
            Ok(_) => {},
            Err(e) => {
                return Err(e);
            },
        }
    }
    match output.write(text) {
        Ok(_) => {},
        Err(e) => {
            return Err(e);
        },
    }
    assert(output.written() =~= start + separated(separator, text@));
    Ok(())
}

/// Writes a number whose shortest text is the one that Java writes.
pub fn write_double<W: OutputFile>(output: &mut W, bits: u64, separator: bool, plan: &EncodedJsonPlan) -> (result: Result<
    (),
    Error,
>)
    requires
        plan.wf(),
    ensures
        match exact_text(bits, plan@) {
            Ok(text) => appends(*old(output), *final(output), result, separated(separator, text)),
            Err(e) => result == Err::<(), Error>(e) && final(output).written() == old(output).written(),
        },
{
    let mut text: Vec<u8> = Vec::new();
    if bits == 0 || bits == SIGN_BIT {
        if bits == SIGN_BIT {
            text.push(45);
        }
        text.push(48);
        text.push(46);
        text.push(48);
        assert(bits == 0 ==> text@ =~= zero_text());
        assert(bits == SIGN_BIT ==> text@ =~= seq![45u8] + zero_text());
        return write_separated(output, text.as_slice(), separator);
    }
    let raw: &String = match plan.shortest_double_value(bits) {
        Some(raw) => raw,
        None => {
            return Err(Error::MissingDoubleText { bits });
        },
    };
    match write_java_style_double(&mut text, raw) {
        Ok(_) => {},
        Err(e) => {
            return Err(e);
        },
    }
    assert(java_text(*raw) matches Ok(t) && text@ =~= t);
    write_separated(output, text.as_slice(), separator)
}

/// Writes a number.
pub fn write_exact_double<W: OutputFile>(output: &mut W, bits: u64, separator: bool, plan: &EncodedJsonPlan) -> (result: Result<
    (),
    Error,
>)
    requires
        plan.wf(),
    ensures
        match double_text(bits, plan@) {
            Ok(text) => appends(*old(output), *final(output), result, separated(separator, text)),
            Err(e) => result == Err::<(), Error>(e) && final(output).written() == old(output).written(),
        },
{
    if can_format_double_in_rust(bits) {
        return write_double(output, bits, separator, plan);
    }
    if without_sign(bits) >= INFINITY_BITS {
        return Err(Error::NonFiniteDouble);
    }
    match plan.java_double_value(bits) {
        Some(rendered) => write_separated(output, rendered, separator),
        None => Err(Error::MissingJavaDouble { bits }),
    }
}

} // verus!
