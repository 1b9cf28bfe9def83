//! Byte pair encoding of column names.
//!
//! A vocabulary is a list of rules; rule `r` replaces a pair of tokens by the token
//! `TOKEN_BASE + r`. Names are ASCII, so bytes below `TOKEN_BASE` stand for themselves.
use vstd::prelude::*;
use std::collections::HashMap;
use crate::incremental_bpe::IncrementalBpe;

verus! {

pub const TOKEN_BASE: u8 = 0x80;
pub const MAX_RULES: usize = 128;
pub const PAIR_TABLE_SIZE: usize = 65_536;
pub const DENSE_PAIR_THRESHOLD: usize = 4_096;
pub const MAX_INCREMENTAL_NAME_LEN: usize = 256;
pub const PACKED_INDEX_LIMIT: usize = 16_777_216;

// ---------------------------------------------------------------- model

/// The bytes of each name.
pub open spec fn contents(names: Seq<&[u8]>) -> Seq<Seq<u8>> {
    Seq::new(names.len(), |i: int| names[i]@)
}

/// The tokens of each sequence.
pub open spec fn token_views(tokens: Seq<Vec<u8>>) -> Seq<Seq<u8>> {
    Seq::new(tokens.len(), |i: int| tokens[i]@)
}

/// The pair that each rule replaces.
pub open spec fn rule_pairs(rules: Seq<[u8; 2]>) -> Seq<(u8, u8)> {
    Seq::new(rules.len(), |i: int| (rules[i]@[0], rules[i]@[1]))
}

pub open spec fn all_ascii(names: Seq<Seq<u8>>) -> bool {
    forall|i: int, j: int|
        0 <= i < names.len() && 0 <= j < names[i].len() ==> #[trigger] names[i][j] < 0x80
}

/// The number of bytes in all sequences together.
pub open spec fn total_len(tokens: Seq<Seq<u8>>) -> nat
    decreases tokens.len(),
{
    if tokens.len() == 0 {
        0
    } else {
        total_len(tokens.drop_last()) + tokens.last().len()
    }
}

pub open spec fn pairs_of(s: Seq<u8>) -> nat {
    if s.len() == 0 {
        0
    } else {
        (s.len() - 1) as nat
    }
}

/// The number of adjacent pairs in all sequences together.
pub open spec fn total_pairs(tokens: Seq<Seq<u8>>) -> nat
    decreases tokens.len(),
{
    if tokens.len() == 0 {
        0
    } else {
        total_pairs(tokens.drop_last()) + pairs_of(tokens.last())
    }
}

/// How often `pair` stands in `s`, counting overlapping places.
pub open spec fn occurrences(s: Seq<u8>, pair: (u8, u8)) -> nat
    decreases s.len(),
{
    if s.len() < 2 {
        0
    } else {
        occurrences(s.drop_last(), pair) + if s[s.len() - 2] == pair.0 && s[s.len() - 1] == pair.1 {
            1nat
        } else {
            0
        }
    }
}

/// How often `pair` stands in all sequences together.
pub open spec fn total_occurrences(tokens: Seq<Seq<u8>>, pair: (u8, u8)) -> nat
    decreases tokens.len(),
{
    if tokens.len() == 0 {
        0
    } else {
        total_occurrences(tokens.drop_last(), pair) + occurrences(tokens.last(), pair)
    }
}

/// A pair as one number, its left token first.
pub open spec fn pair_key(pair: (u8, u8)) -> int {
    pair.0 * 256 + pair.1
}

/// The order in which pairs are preferred: by count, then by key.
pub open spec fn ranked(count: nat, key: int, best_count: nat, best_key: int) -> bool {
    count < best_count || (count == best_count && key <= best_key)
}

/// `pair` occurs, and no other pair is preferred to it.
pub open spec fn is_best(tokens: Seq<Seq<u8>>, pair: (u8, u8)) -> bool {
    &&& total_occurrences(tokens, pair) > 0
    &&& forall|other: (u8, u8)|
        ranked(
            #[trigger] total_occurrences(tokens, other),
            pair_key(other),
            total_occurrences(tokens, pair),
            pair_key(pair),
        )
}

/// What a search for the most frequent pair returns.
pub open spec fn is_most_frequent(tokens: Seq<Seq<u8>>, result: Option<(u8, u8, u32)>) -> bool {
    match result {
        Some((left, right, count)) => is_best(tokens, (left, right)) && count == total_occurrences(
            tokens,
            (left, right),
        ),
        None => forall|pair: (u8, u8)| #[trigger] total_occurrences(tokens, pair) == 0,
    }
}

/// `s` with each occurrence of `pair`, from the left and without overlap, replaced by `token`.
pub open spec fn replaced(s: Seq<u8>, pair: (u8, u8), token: u8) -> Seq<u8>
    decreases s.len(),
{
    if s.len() == 0 {
        s
    } else if s.len() >= 2 && s[0] == pair.0 && s[1] == pair.1 {
        seq![token] + replaced(s.skip(2), pair, token)
    } else {
        seq![s[0]] + replaced(s.skip(1), pair, token)
    }
}

pub open spec fn all_replaced(tokens: Seq<Seq<u8>>, pair: (u8, u8), token: u8) -> Seq<Seq<u8>> {
    Seq::new(tokens.len(), |i: int| replaced(tokens[i], pair, token))
}

/// The pair that the next rule replaces: the preferred one, if it occurs more than once.
pub open spec fn next_rule(tokens: Seq<Seq<u8>>) -> Option<(u8, u8)> {
    if exists|pair: (u8, u8)| #[trigger] is_best(tokens, pair) && total_occurrences(tokens, pair) > 1 {
        Some(choose|pair: (u8, u8)| #[trigger] is_best(tokens, pair) && total_occurrences(tokens, pair) > 1)
    } else {
        None
    }
}

/// The rules that are learned from `tokens` when `known` rules are there already, and the tokens
/// that are left when all of them have been applied.
pub open spec fn learned(tokens: Seq<Seq<u8>>, known: nat) -> (Seq<(u8, u8)>, Seq<Seq<u8>>)
    decreases 128 - known,
{
    if known >= 128 {
        (Seq::empty(), tokens)
    } else {
        match next_rule(tokens) {
            None => (Seq::empty(), tokens),
            Some(pair) => {
                let rest = learned(all_replaced(tokens, pair, (0x80 + known) as u8), known + 1);
                (seq![pair] + rest.0, rest.1)
            },
        }
    }
}

/// No pair stands more often than a number of 32 bits can count.
pub open spec fn counts_fit(tokens: Seq<Seq<u8>>) -> bool {
    forall|pair: (u8, u8)| #[trigger] total_occurrences(tokens, pair) <= u32::MAX
}

/// The pairs can be counted before each rule that is learned.
pub open spec fn can_be_counted(tokens: Seq<Seq<u8>>, known: nat) -> bool
    decreases 128 - known,
{
    known >= 128 || (counts_fit(tokens) && match next_rule(tokens) {
        None => true,
        Some(pair) => can_be_counted(all_replaced(tokens, pair, (0x80 + known) as u8), known + 1),
    })
}

/// `s` after `rules` have been applied in order; the first of them makes the token
/// `TOKEN_BASE + first`.
pub open spec fn encoded_from(s: Seq<u8>, rules: Seq<(u8, u8)>, first: nat) -> Seq<u8>
    decreases rules.len(),
{
    if rules.len() == 0 {
        s
    } else {
        encoded_from(replaced(s, rules[0], (0x80 + first) as u8), rules.skip(1), first + 1)
    }
}

/// `token` expands to bytes in at most `fuel` levels of rules.
pub open spec fn expands_within(token: u8, rules: Seq<(u8, u8)>, fuel: nat) -> bool
    decreases fuel,
{
    token < 0x80 || (fuel > 0 && token - 0x80 < rules.len() && expands_within(
        rules[token - 0x80].0,
        rules,
        (fuel - 1) as nat,
    ) && expands_within(rules[token - 0x80].1, rules, (fuel - 1) as nat))
}

pub open spec fn expansion_within(token: u8, rules: Seq<(u8, u8)>, fuel: nat) -> Seq<u8>
    decreases fuel,
{
    if token < 0x80 || fuel == 0 {
        seq![token]
    } else {
        expansion_within(rules[token - 0x80].0, rules, (fuel - 1) as nat) + expansion_within(
            rules[token - 0x80].1,
            rules,
            (fuel - 1) as nat,
        )
    }
}

/// `token` is a byte, or its rule leads to bytes without naming a rule that is not there and
/// without coming back to itself.
pub open spec fn expandable(token: u8, rules: Seq<(u8, u8)>) -> bool {
    exists|fuel: nat| #[trigger] expands_within(token, rules, fuel)
}

/// The bytes that `token` stands for.
pub open spec fn expansion(token: u8, rules: Seq<(u8, u8)>) -> Seq<u8> {
    expansion_within(token, rules, choose|fuel: nat| #[trigger] expands_within(token, rules, fuel))
}

/// The bytes that the tokens of `encoded` stand for.
pub open spec fn decoded(encoded: Seq<u8>, rules: Seq<(u8, u8)>) -> Seq<u8>
    decreases encoded.len(),
{
    if encoded.len() == 0 {
        Seq::empty()
    } else {
        expansion(encoded[0], rules) + decoded(encoded.skip(1), rules)
    }
}

/// Each rule speaks only of bytes and of tokens that earlier rules make.
pub open spec fn well_founded(rules: Seq<(u8, u8)>) -> bool {
    &&& rules.len() <= 128
    &&& forall|r: int|
        0 <= r < rules.len() ==> (#[trigger] rules[r]).0 < 0x80 + r && rules[r].1 < 0x80 + r
}

// ---------------------------------------------------------------- lemmas on counting

pub proof fn lemma_occurrences_bound(s: Seq<u8>, pair: (u8, u8))
    ensures
        occurrences(s, pair) <= pairs_of(s),
    decreases s.len(),
{
    if s.len() >= 2 {
        lemma_occurrences_bound(s.drop_last(), pair);
    }
}

pub proof fn lemma_total_bound(tokens: Seq<Seq<u8>>, pair: (u8, u8))
    ensures
        total_occurrences(tokens, pair) <= total_pairs(tokens),
    decreases tokens.len(),
{
    if tokens.len() > 0 {
        lemma_total_bound(tokens.drop_last(), pair);
        lemma_occurrences_bound(tokens.last(), pair);
    }
}

/// Cutting a sequence cuts no occurrence but the one that spans the cut.
pub proof fn lemma_occurrences_concat(a: Seq<u8>, b: Seq<u8>, pair: (u8, u8))
    ensures
        occurrences(a + b, pair) == occurrences(a, pair) + occurrences(b, pair) + if a.len() > 0
            && b.len() > 0 && a.last() == pair.0 && b[0] == pair.1 {
            1nat
        } else {
            0
        },
    decreases b.len(),
{
    if b.len() == 0 {
        assert(a + b =~= a);
    } else if b.len() == 1 {
        let s = a + b;
        assert(s.drop_last() =~= a);
        if a.len() > 0 {
            assert(s[s.len() - 2] == a.last());
        }
    } else {
        let s = a + b;
        assert(s.drop_last() =~= a + b.drop_last());
        lemma_occurrences_concat(a, b.drop_last(), pair);
    }
}

/// The count up to the first `n` tokens of sequence `i`.
pub open spec fn counted(tokens: Seq<Seq<u8>>, i: int, n: int, pair: (u8, u8)) -> nat {
    total_occurrences(tokens.take(i), pair) + if n <= tokens[i].len() {
        occurrences(tokens[i].take(n), pair)
    } else {
        0
    }
}

proof fn lemma_total_take_mono(tokens: Seq<Seq<u8>>, i: int, pair: (u8, u8))
    requires
        0 <= i <= tokens.len(),
    ensures
        total_occurrences(tokens.take(i), pair) <= total_occurrences(tokens, pair),
    decreases tokens.len() - i,
{
    if i == tokens.len() {
        assert(tokens.take(i) =~= tokens);
    } else {
        lemma_total_take_mono(tokens, i + 1, pair);
        assert(tokens.take(i + 1).drop_last() =~= tokens.take(i));
    }
}

pub proof fn lemma_counted_step(tokens: Seq<Seq<u8>>, i: int, n: int, pair: (u8, u8))
    requires
        0 <= i < tokens.len(),
        1 <= n < tokens[i].len(),
    ensures
        counted(tokens, i, n + 1, pair) == counted(tokens, i, n, pair) + if tokens[i][n - 1]
            == pair.0 && tokens[i][n] == pair.1 {
            1nat
        } else {
            0
        },
{
    assert(tokens[i].take(n + 1).drop_last() =~= tokens[i].take(n));
}

pub proof fn lemma_counted_full(tokens: Seq<Seq<u8>>, i: int, n: int, pair: (u8, u8))
    requires
        0 <= i < tokens.len(),
        n >= 1,
        n >= tokens[i].len(),
        n == tokens[i].len() || n == 1,
    ensures
        tokens[i].len() > 0 ==> counted(tokens, i, n, pair) == total_occurrences(tokens.take(i + 1), pair),
        tokens[i].len() == 0 ==> total_occurrences(tokens.take(i), pair) == total_occurrences(tokens.take(i + 1), pair),
{
    assert(tokens.take(i + 1).drop_last() =~= tokens.take(i));
    assert(tokens.take(i + 1).last() == tokens[i]);
    if tokens[i].len() > 0 {
        assert(tokens[i].take(n) =~= tokens[i]);
    }
}

proof fn lemma_occurrences_take_mono(s: Seq<u8>, n: int, pair: (u8, u8))
    requires
        0 <= n <= s.len(),
    ensures
        occurrences(s.take(n), pair) <= occurrences(s, pair),
    decreases s.len() - n,
{
    if n == s.len() {
        assert(s.take(n) =~= s);
    } else {
        lemma_occurrences_take_mono(s, n + 1, pair);
        assert(s.take(n + 1).drop_last() =~= s.take(n));
    }
}

pub proof fn lemma_counted_bound(tokens: Seq<Seq<u8>>, i: int, n: int, pair: (u8, u8))
    requires
        0 <= i < tokens.len(),
        0 <= n <= tokens[i].len(),
    ensures
        counted(tokens, i, n, pair) <= total_occurrences(tokens, pair),
{
    lemma_occurrences_take_mono(tokens[i], n, pair);
    lemma_total_take_mono(tokens, i + 1, pair);
    assert(tokens.take(i + 1).drop_last() =~= tokens.take(i));
}

/// There is at most one preferred pair.
pub proof fn lemma_best_is_unique(tokens: Seq<Seq<u8>>, a: (u8, u8), b: (u8, u8))
    requires
        is_best(tokens, a),
        is_best(tokens, b),
    ensures
        a == b,
{
    assert(ranked(total_occurrences(tokens, a), pair_key(a), total_occurrences(tokens, b), pair_key(b)));
    assert(ranked(total_occurrences(tokens, b), pair_key(b), total_occurrences(tokens, a), pair_key(a)));
}

pub proof fn lemma_next_rule(tokens: Seq<Seq<u8>>, result: Option<(u8, u8, u32)>)
    requires
        is_most_frequent(tokens, result),
    ensures
        next_rule(tokens) == (match result {
            Some((left, right, count)) => if count > 1 {
                Some((left, right))
            } else {
                None
            },
            None => None,
        }),
{
    if exists|pair: (u8, u8)| #[trigger] is_best(tokens, pair) && total_occurrences(tokens, pair) > 1 {
        let chosen = choose|pair: (u8, u8)| #[trigger] is_best(tokens, pair) && total_occurrences(tokens, pair) > 1;
        match result {
            Some((left, right, count)) => {
                lemma_best_is_unique(tokens, chosen, (left, right));
            },
            None => {
                assert(total_occurrences(tokens, chosen) == 0);
            },
        }
    }
}

// ---------------------------------------------------------------- lemmas on replacement

pub proof fn lemma_replaced_len(s: Seq<u8>, pair: (u8, u8), token: u8)
    ensures
        replaced(s, pair, token).len() <= s.len(),
        s.len() > 0 ==> replaced(s, pair, token).len() > 0,
    decreases s.len(),
{
    if s.len() == 0 {
    } else if s.len() >= 2 && s[0] == pair.0 && s[1] == pair.1 {
        lemma_replaced_len(s.skip(2), pair, token);
    } else {
        lemma_replaced_len(s.skip(1), pair, token);
    }
}

pub proof fn lemma_all_replaced_pairs(tokens: Seq<Seq<u8>>, pair: (u8, u8), token: u8)
    ensures
        total_pairs(all_replaced(tokens, pair, token)) <= total_pairs(tokens),
    decreases tokens.len(),
{
    if tokens.len() > 0 {
        lemma_all_replaced_pairs(tokens.drop_last(), pair, token);
        assert(all_replaced(tokens, pair, token).drop_last() =~= all_replaced(tokens.drop_last(), pair, token));
        lemma_replaced_len(tokens.last(), pair, token);
    }
}

/// The tokens of the result are tokens of `s`, or the new one.
pub proof fn lemma_replaced_bound(s: Seq<u8>, pair: (u8, u8), token: u8, bound: int)
    requires
        forall|j: int| 0 <= j < s.len() ==> s[j] < bound,
        token < bound,
    ensures
        forall|j: int| 0 <= j < replaced(s, pair, token).len() ==> replaced(s, pair, token)[j] < bound,
    decreases s.len(),
{
    if s.len() == 0 {
    } else if s.len() >= 2 && s[0] == pair.0 && s[1] == pair.1 {
        lemma_replaced_bound(s.skip(2), pair, token, bound);
        let rest = replaced(s.skip(2), pair, token);
        assert forall|j: int| 0 <= j < replaced(s, pair, token).len() implies replaced(s, pair, token)[j] < bound by {
            assert(j > 0 ==> replaced(s, pair, token)[j] == rest[j - 1]);
        }
    } else {
        lemma_replaced_bound(s.skip(1), pair, token, bound);
        let rest = replaced(s.skip(1), pair, token);
        assert forall|j: int| 0 <= j < replaced(s, pair, token).len() implies replaced(s, pair, token)[j] < bound by {
            assert(j > 0 ==> replaced(s, pair, token)[j] == rest[j - 1]);
        }
    }
}

/// A sequence without the pair stays as it is.
pub proof fn lemma_nothing_to_replace(s: Seq<u8>, pair: (u8, u8), token: u8)
    requires
        forall|k: int| 0 <= k < s.len() - 1 ==> !(#[trigger] s[k] == pair.0 && s[k + 1] == pair.1),
    ensures
        replaced(s, pair, token) == s,
    decreases s.len(),
{
    if s.len() > 0 {
        let rest = s.skip(1);
        if s.len() >= 2 {
            assert(!(s[0] == pair.0 && s[1] == pair.1));
        }
        assert forall|k: int| 0 <= k < rest.len() - 1 implies !(#[trigger] rest[k] == pair.0 && rest[k + 1] == pair.1) by {
            assert(rest[k] == s[k + 1]);
            assert(rest[k + 1] == s[k + 1 + 1]);
        }
        lemma_nothing_to_replace(rest, pair, token);
        assert(seq![s[0]] + rest =~= s);
    }
}

/// Replacing one occurrence first does not change what replacing all of them gives, as long as
/// it cannot overlap an occurrence to its left.
pub proof fn lemma_replace_one_first(a: Seq<u8>, b: Seq<u8>, pair: (u8, u8), token: u8)
    requires
        token != pair.0,
        token != pair.1,
        pair.0 == pair.1 ==> forall|k: int| 0 <= k < a.len() ==> !(#[trigger] a[k] == pair.0 && (k + 1 < a.len() ==> a[k + 1] == pair.1)),
    ensures
        replaced(a + seq![pair.0, pair.1] + b, pair, token) == replaced(a + seq![token] + b, pair, token),
    decreases a.len(),
{
    let s = a + seq![pair.0, pair.1] + b;
    let u = a + seq![token] + b;
    if a.len() == 0 {
        assert(s.skip(2) =~= b);
        assert(u.skip(1) =~= b);
        assert(u[0] == token);
        assert(s[0] == pair.0 && s[1] == pair.1);
    } else {
        let step: int = if a.len() >= 2 && a[0] == pair.0 && a[1] == pair.1 { 2 } else { 1 };
        if step == 1 {
            assert(!(s[0] == pair.0 && s[1] == pair.1)) by {
                if a.len() == 1 && pair.0 == pair.1 {
                    assert(!(a[0] == pair.0 && (1 < a.len() ==> a[1] == pair.1)));
                }
            }
            if u.len() >= 2 {
                assert(!(u[0] == pair.0 && u[1] == pair.1));
            }
        } else {
            assert(s[0] == pair.0 && s[1] == pair.1);
            assert(u[0] == pair.0 && u[1] == pair.1);
        }
        let rest = a.skip(step);
        assert forall|k: int| pair.0 == pair.1 && 0 <= k < rest.len() implies !(#[trigger] rest[k] == pair.0 && (k + 1 < rest.len() ==> rest[k + 1] == pair.1)) by {
            let m = k + step;
            assert(rest[k] == a[m]);
            assert(!(a[m] == pair.0 && (m + 1 < a.len() ==> a[m + 1] == pair.1)));
        }
        lemma_replace_one_first(rest, b, pair, token);
        assert(s.skip(step) =~= rest + seq![pair.0, pair.1] + b);
        assert(u.skip(step) =~= rest + seq![token] + b);
    }
}

// ---------------------------------------------------------------- executable functions

pub fn is_ascii_only(names: &[&[u8]]) -> (result: bool)
    ensures
        result == all_ascii(contents(names@)),
{
    let mut i: usize = 0;
    while i < names.len()
        invariant
            i <= names.len(),
            forall|k: int, j: int|
                0 <= k < i && 0 <= j < contents(names@)[k].len() ==> #[trigger] contents(names@)[k][j] < 0x80,
        decreases names.len() - i,
    {
        let name: &[u8] = names[i];
        let mut j: usize = 0;
        while j < name.len()
            invariant
                i < names.len(),
                name@ == contents(names@)[i as int],
                j <= name.len(),
                forall|k: int| 0 <= k < j ==> name@[k] < 0x80,
            decreases name.len() - j,
        {
            let b: u8 = name[j];
            assert((b & 0x80 == 0) == (b < 0x80)) by (bit_vector);
            if b & 0x80 != 0 {
                assert(contents(names@)[i as int][j as int] >= 0x80);
                return false;
            }
            j += 1;
        }
        i += 1;
    }
    true
}

/// The rules that the names teach.
pub fn build_vocabulary(names: &[&[u8]]) -> (rules: Vec<[u8; 2]>)
    requires
        can_be_counted(contents(names@), 0),
    ensures
        rule_pairs(rules@) == learned(contents(names@), 0).0,
{
    build_vocabulary_and_encode(names).0
}

/// The rules that the names teach, and the names encoded with them.
pub fn build_vocabulary_and_encode(names: &[&[u8]]) -> (result: (Vec<[u8; 2]>, Vec<Vec<u8>>))
    requires
        can_be_counted(contents(names@), 0),
    ensures
        rule_pairs(result.0@) == learned(contents(names@), 0).0,
        token_views(result.1@) == learned(contents(names@), 0).1,
        token_views(result.1@) == all_encoded(contents(names@), rule_pairs(result.0@), 0),
{
    let result: (Vec<[u8; 2]>, Vec<Vec<u8>>) = if should_use_incremental(names) {
        IncrementalBpe::new(names).build()
    } else {
        build_vocabulary_and_encode_rescan(names)
    };
    proof {
        lemma_learned_is_encoded(contents(names@));
    }
    result
}

/// The names are in reach of the incremental construction, and large enough to be worth it.
pub open spec fn incremental_pays(names: Seq<Seq<u8>>) -> bool {
    &&& incremental_fits(names)
    &&& total_pairs(names) >= DENSE_PAIR_THRESHOLD
}

/// The incremental construction can hold the names in its packed nodes.
pub open spec fn incremental_fits(names: Seq<Seq<u8>>) -> bool {
    &&& all_ascii(names)
    &&& total_len(names) < PACKED_INDEX_LIMIT
    &&& forall|i: int| 0 <= i < names.len() ==> (#[trigger] names[i]).len() <= MAX_INCREMENTAL_NAME_LEN
}

pub proof fn lemma_total_pairs_le_len(tokens: Seq<Seq<u8>>)
    ensures
        total_pairs(tokens) <= total_len(tokens),
    decreases tokens.len(),
{
    if tokens.len() > 0 {
        lemma_total_pairs_le_len(tokens.drop_last());
    }
}

pub proof fn lemma_total_len_take(tokens: Seq<Seq<u8>>, i: int)
    requires
        0 <= i <= tokens.len(),
    ensures
        total_len(tokens.take(i)) <= total_len(tokens),
        i < tokens.len() ==> total_len(tokens.take(i + 1)) == total_len(tokens.take(i)) + tokens[i].len(),
        i < tokens.len() ==> total_pairs(tokens.take(i + 1)) == total_pairs(tokens.take(i)) + pairs_of(tokens[i]),
    decreases tokens.len() - i,
{
    if i == tokens.len() {
        assert(tokens.take(i) =~= tokens);
    } else {
        lemma_total_len_take(tokens, i + 1);
        assert(tokens.take(i + 1).drop_last() =~= tokens.take(i));
        assert(tokens.take(i + 1).last() == tokens[i]);
    }
}

pub fn should_use_incremental(names: &[&[u8]]) -> (result: bool)
    ensures
        result == incremental_pays(contents(names@)),
{
    let ghost all = contents(names@);
    let mut bytes: usize = 0;
    let mut pairs: usize = 0;
    let mut i: usize = 0;
    while i < names.len()
        invariant
            i <= names.len(),
            all == contents(names@),
            bytes == total_len(all.take(i as int)),
            pairs == total_pairs(all.take(i as int)),
            bytes < PACKED_INDEX_LIMIT,
            forall|k: int| 0 <= k < i ==> (#[trigger] all[k]).len() <= MAX_INCREMENTAL_NAME_LEN,
        decreases names.len() - i,
    {
        proof {
            lemma_total_len_take(all, i as int);
            lemma_total_len_take(all, i + 1);
            lemma_total_pairs_le_len(all.take(i + 1));
        }
        let name: &[u8] = names[i];
        assert(name@ == all[i as int]);
        if name.len() > MAX_INCREMENTAL_NAME_LEN || bytes + name.len() >= PACKED_INDEX_LIMIT {
            return false;
        }
        bytes += name.len();
        pairs += name.len().saturating_sub(1);
        i += 1;
    }
    assert(all.take(i as int) =~= all);
    pairs >= DENSE_PAIR_THRESHOLD && is_ascii_only(names)
}

/// Builds the vocabulary by counting all pairs anew before each rule.
pub fn build_vocabulary_and_encode_rescan(names: &[&[u8]]) -> (result: (Vec<[u8; 2]>, Vec<Vec<u8>>))
    requires
        can_be_counted(contents(names@), 0),
    ensures
        rule_pairs(result.0@) == learned(contents(names@), 0).0,
        token_views(result.1@) == learned(contents(names@), 0).1,
{
    let ghost start = contents(names@);
    let mut tokens: Vec<Vec<u8>> = Vec::new();
    let mut pairs: usize = 0;
    let mut i: usize = 0;
    while i < names.len()
        invariant
            i <= names.len(),
            start == contents(names@),
            token_views(tokens@) == start.take(i as int),
        decreases names.len() - i,
    {
        let name: Vec<u8> = vstd::slice::slice_to_vec(names[i]);
        pairs = pairs.saturating_add(name.len().saturating_sub(1));
        let ghost before = token_views(tokens@);
        assert(before.len() == i);
        tokens.push(name);
        i += 1;
        assert(token_views(tokens@) =~= before.push(start[i - 1]));
        assert(start.take(i as int) =~= start.take(i - 1).push(start[i - 1]));
        assert(token_views(tokens@) =~= start.take(i as int));
    }
    assert(start.take(i as int) =~= start);

    let mut rules: Vec<[u8; 2]> = Vec::new();
    let use_dense_counter = pairs >= DENSE_PAIR_THRESHOLD;
    let mut pair_counts: Vec<u32> = if use_dense_counter {
        vec![0u32; PAIR_TABLE_SIZE]
    } else {
        Vec::new()
    };
    let mut touched_pairs: Vec<u16> = Vec::new();
    let mut learning = true;
    assert(rule_pairs(rules@) =~= Seq::<(u8, u8)>::empty());
    while learning && rules.len() < MAX_RULES
        invariant
            rules.len() <= MAX_RULES,
            can_be_counted(token_views(tokens@), rules.len() as nat),
            learned(start, 0).0 == rule_pairs(rules@) + learned(token_views(tokens@), rules.len() as nat).0,
            learned(start, 0).1 == learned(token_views(tokens@), rules.len() as nat).1,
            !learning ==> learned(token_views(tokens@), rules.len() as nat) == (Seq::<(u8, u8)>::empty(), token_views(tokens@)),
            use_dense_counter ==> pair_counts.len() == PAIR_TABLE_SIZE,
            use_dense_counter ==> touched_covers(pair_counts@, touched_pairs@),
        decreases (MAX_RULES - rules.len()) + (if learning { 1int } else { 0int }),
    {
        let ghost before = token_views(tokens@);
        let best: Option<(u8, u8, u32)> = if use_dense_counter {
            most_frequent_pair_dense(&tokens, &mut pair_counts, &mut touched_pairs)
        } else {
            most_frequent_pair_hashmap(&tokens)
        };
        proof {
            lemma_next_rule(before, best);
        }
        match best {
            Some((left, right, count)) => {
                if count > 1 {
                    let new_token: u8 = TOKEN_BASE + rules.len() as u8;
                    let ghost old_rules = rule_pairs(rules@);
                    let rule: [u8; 2] = [left, right];
                    rules.push(rule);
                    let mut i: usize = 0;
                    while i < tokens.len()
                        invariant
                            i <= tokens.len(),
                            tokens.len() == before.len(),
                            forall|k: int| 0 <= k < i ==> (#[trigger] tokens@[k])@ == replaced(before[k], (left, right), new_token),
                            forall|k: int| i <= k < tokens.len() ==> (#[trigger] tokens@[k])@ == before[k],
                        decreases tokens.len() - i,
                    {
                        replace_pair(&mut tokens[i], left, right, new_token);
                        i += 1;
                    }
                    proof {
                        let after = token_views(tokens@);
                        assert(after =~= all_replaced(before, (left, right), new_token));
                        assert(rule_pairs(rules@) =~= old_rules + seq![(left, right)]);
                        let rest = learned(after, rules.len() as nat).0;
                        assert(old_rules + (seq![(left, right)] + rest) =~= rule_pairs(rules@) + rest);
                    }
                } else {
                    learning = false;
                }
            },
            None => {
                learning = false;
            },
        }
    }
    proof {
        let rest = learned(token_views(tokens@), rules.len() as nat);
        assert(rest == (Seq::<(u8, u8)>::empty(), token_views(tokens@)));
        assert(rule_pairs(rules@) + rest.0 =~= rule_pairs(rules@));
    }
    (rules, tokens)
}

/// Names with no more pairs than a number of 32 bits can count can be learned from.
pub proof fn few_pairs_can_be_counted(tokens: Seq<Seq<u8>>, known: nat)
    requires
        total_pairs(tokens) <= u32::MAX,
    ensures
        can_be_counted(tokens, known),
    decreases 128 - known,
{
    if known < 128 {
        assert forall|pair: (u8, u8)| #[trigger] total_occurrences(tokens, pair) <= u32::MAX by {
            lemma_total_bound(tokens, pair);
        }
        if let Some(pair) = next_rule(tokens) {
            let token = (0x80 + known) as u8;
            lemma_all_replaced_pairs(tokens, pair, token);
            few_pairs_can_be_counted(all_replaced(tokens, pair, token), known + 1);
        }
    }
}

/// Every pair with a count is listed, so clearing the listed ones clears the table.
pub open spec fn touched_covers(pair_counts: Seq<u32>, touched_pairs: Seq<u16>) -> bool {
    forall|p: int|
        0 <= p < pair_counts.len() && #[trigger] pair_counts[p] != 0 ==> touched_pairs.contains(p as u16)
}

/// The listed pairs are those with a count, each of them once.
pub open spec fn touched_once(pair_counts: Seq<u32>, touched_pairs: Seq<u16>) -> bool {
    &&& touched_covers(pair_counts, touched_pairs)
    &&& touched_pairs.no_duplicates()
    &&& forall|k: int| 0 <= k < touched_pairs.len() ==> pair_counts[#[trigger] touched_pairs[k] as int] != 0
}

/// Counts with a table that has one entry for each possible pair.
pub fn most_frequent_pair_dense(
    tokens: &[Vec<u8>],
    pair_counts: &mut Vec<u32>,
    touched_pairs: &mut Vec<u16>,
) -> (result: Option<(u8, u8, u32)>)
    requires
        old(pair_counts).len() == PAIR_TABLE_SIZE,
        touched_covers(old(pair_counts)@, old(touched_pairs)@),
        counts_fit(token_views(tokens@)),
    ensures
        is_most_frequent(token_views(tokens@), result),
        final(pair_counts).len() == PAIR_TABLE_SIZE,
        touched_once(final(pair_counts)@, final(touched_pairs)@),
        forall|pair: (u8, u8)|
            final(pair_counts)@[pair_key(pair)] == #[trigger] total_occurrences(token_views(tokens@), pair),
{
    let mut t: usize = 0;
    while t < touched_pairs.len()
        invariant
            t <= touched_pairs.len(),
            pair_counts.len() == PAIR_TABLE_SIZE,
            forall|p: int|
                0 <= p < pair_counts.len() && #[trigger] pair_counts[p] != 0 ==> exists|k: int|
                    t <= k < touched_pairs.len() && #[trigger] touched_pairs[k] == p as u16,
        decreases touched_pairs.len() - t,
    {
        let p: usize = touched_pairs[t] as usize;
        pair_counts.set(p, 0);
        t += 1;
    }
    touched_pairs.clear();
    assert forall|p: int| 0 <= p < pair_counts.len() implies pair_counts[p] == 0 by {};

    let ghost all = token_views(tokens@);
    let mut best_pair: usize = 0;
    let mut best_count: u32 = 0;
    let mut i: usize = 0;
    assert(all.take(0) =~= Seq::<Seq<u8>>::empty());
    while i < tokens.len()
        invariant
            i <= tokens.len(),
            all == token_views(tokens@),
            counts_fit(all),
            pair_counts.len() == PAIR_TABLE_SIZE,
            touched_once(pair_counts@, touched_pairs@),
            best_pair < PAIR_TABLE_SIZE,
            forall|pair: (u8, u8)|
                pair_counts@[pair_key(pair)] == #[trigger] total_occurrences(all.take(i as int), pair),
            forall|pair: (u8, u8)|
                #[trigger] total_occurrences(all.take(i as int), pair) > 0 ==> ranked(
                    total_occurrences(all.take(i as int), pair),
                    pair_key(pair),
                    best_count as nat,
                    best_pair as int,
                ),
            best_count > 0 ==> pair_counts@[best_pair as int] == best_count,
        decreases tokens.len() - i,
    {
        let seq: &Vec<u8> = &tokens[i];
        let mut n: usize = 1;
        assert(seq@ == all[i as int]);
        assert forall|pair: (u8, u8)| #[trigger] counted(all, i as int, 1, pair) == total_occurrences(all.take(i as int), pair) by {}
        while n < seq.len()
            invariant
                i < tokens.len(),
                all == token_views(tokens@),
                seq@ == all[i as int],
                1 <= n,
                n <= seq.len() || n == 1,
                counts_fit(all),
                pair_counts.len() == PAIR_TABLE_SIZE,
                touched_once(pair_counts@, touched_pairs@),
                best_pair < PAIR_TABLE_SIZE,
                forall|pair: (u8, u8)|
                    pair_counts@[pair_key(pair)] == #[trigger] counted(all, i as int, n as int, pair),
                forall|pair: (u8, u8)|
                    #[trigger] counted(all, i as int, n as int, pair) > 0 ==> ranked(
                        counted(all, i as int, n as int, pair),
                        pair_key(pair),
                        best_count as nat,
                        best_pair as int,
                    ),
                best_count > 0 ==> pair_counts@[best_pair as int] == best_count,
            decreases seq.len() - n,
        {
            let ghost here = (seq@[n - 1], seq@[n as int]);
            let pair: usize = (seq[n - 1] as usize) * 256 + seq[n] as usize;
            proof {
                assert forall|p: (u8, u8)| #[trigger] counted(all, i as int, n + 1, p) == counted(all, i as int, n as int, p) + if p == here { 1nat } else { 0 } by {
                    lemma_counted_step(all, i as int, n as int, p);
                }
                lemma_counted_bound(all, i as int, n + 1, here);
                assert(total_occurrences(all, here) <= u32::MAX);
                assert(pair_key(here) == pair);
                assert(pair_counts@[pair_key(here)] == counted(all, i as int, n as int, here));
            }
            let ghost counts_before = pair_counts@;
            let ghost touched_before = touched_pairs@;
            if pair_counts[pair] == 0 {
                touched_pairs.push(pair as u16);
                assert(touched_pairs@[touched_before.len() as int] == pair as u16);
            }
            let count: u32 = pair_counts[pair] + 1;
            pair_counts.set(pair, count);
            proof {
                assert forall|p: int| 0 <= p < pair_counts.len() && #[trigger] pair_counts[p] != 0 implies touched_pairs@.contains(p as u16) by {
                    if p != pair {
                        assert(counts_before[p] != 0);
                        let k = choose|k: int| 0 <= k < touched_before.len() && touched_before[k] == p as u16;
                        assert(touched_pairs@[k] == p as u16);
                    } else if counts_before[p] != 0 {
                        let k = choose|k: int| 0 <= k < touched_before.len() && touched_before[k] == p as u16;
                        assert(touched_pairs@[k] == p as u16);
                    }
                }
                assert forall|k: int| 0 <= k < touched_pairs.len() implies pair_counts@[#[trigger] touched_pairs@[k] as int] != 0 by {
                    if k < touched_before.len() {
                        assert(counts_before[touched_before[k] as int] != 0);
                    }
                }
                assert(touched_pairs@.no_duplicates()) by {
                    if counts_before[pair as int] == 0 {
                        assert forall|k: int| 0 <= k < touched_before.len() implies #[trigger] touched_before[k] != pair as u16 by {
                            assert(counts_before[touched_before[k] as int] != 0);
                        }
                    }
                }
            }
            if count > best_count || (count == best_count && pair > best_pair) {
                best_pair = pair;
                best_count = count;
            }
            n += 1;
        }
        proof {
            assert forall|pair: (u8, u8)| #[trigger] total_occurrences(all.take(i + 1), pair) == counted(all, i as int, n as int, pair) by {
                lemma_counted_full(all, i as int, n as int, pair);
            }
        }
        i += 1;
    }
    assert(all.take(i as int) =~= all);
    if best_count != 0 {
        let left: u8 = (best_pair / 256) as u8;
        let right: u8 = (best_pair % 256) as u8;
        assert(pair_key((left, right)) == best_pair);
        Some((left, right, best_count))
    } else {
        None
    }
}

/// Counts with a map that holds the pairs that occur.
pub fn most_frequent_pair_hashmap(tokens: &[Vec<u8>]) -> (result: Option<(u8, u8, u32)>)
    requires
        counts_fit(token_views(tokens@)),
    ensures
        is_most_frequent(token_views(tokens@), result),
{
    broadcast use vstd::std_specs::hash::group_hash_axioms;

    let ghost all = token_views(tokens@);
    let mut pair_counts: HashMap<u16, u32> = HashMap::new();
    let mut best_pair: u16 = 0;
    let mut best_count: u32 = 0;
    let mut i: usize = 0;
    assert(all.take(0) =~= Seq::<Seq<u8>>::empty());
    while i < tokens.len()
        invariant
            i <= tokens.len(),
            all == token_views(tokens@),
            counts_fit(all),
            forall|pair: (u8, u8)|
                map_count(pair_counts@, pair) == #[trigger] total_occurrences(all.take(i as int), pair),
            forall|pair: (u8, u8)|
                #[trigger] total_occurrences(all.take(i as int), pair) > 0 ==> ranked(
                    total_occurrences(all.take(i as int), pair),
                    pair_key(pair),
                    best_count as nat,
                    best_pair as int,
                ),
            best_count > 0 ==> pair_counts@.dom().contains(best_pair) && pair_counts@[best_pair] == best_count,
        decreases tokens.len() - i,
    {
        let seq: &Vec<u8> = &tokens[i];
        let mut n: usize = 1;
        assert(seq@ == all[i as int]);
        assert forall|pair: (u8, u8)| #[trigger] counted(all, i as int, 1, pair) == total_occurrences(all.take(i as int), pair) by {}
        while n < seq.len()
            invariant
                i < tokens.len(),
                all == token_views(tokens@),
                seq@ == all[i as int],
                1 <= n,
                n <= seq.len() || n == 1,
                counts_fit(all),
                forall|pair: (u8, u8)|
                    map_count(pair_counts@, pair) == #[trigger] counted(all, i as int, n as int, pair),
                forall|pair: (u8, u8)|
                    #[trigger] counted(all, i as int, n as int, pair) > 0 ==> ranked(
                        counted(all, i as int, n as int, pair),
                        pair_key(pair),
                        best_count as nat,
                        best_pair as int,
                    ),
                best_count > 0 ==> pair_counts@.dom().contains(best_pair) && pair_counts@[best_pair] == best_count,
            decreases seq.len() - n,
        {
            let ghost here = (seq@[n - 1], seq@[n as int]);
            let pair: u16 = (seq[n - 1] as u16) * 256 + seq[n] as u16;
            proof {
                assert forall|p: (u8, u8)| #[trigger] counted(all, i as int, n + 1, p) == counted(all, i as int, n as int, p) + if p == here { 1nat } else { 0 } by {
                    lemma_counted_step(all, i as int, n as int, p);
                }
                lemma_counted_bound(all, i as int, n + 1, here);
                assert(total_occurrences(all, here) <= u32::MAX);
                assert(pair_key(here) == pair);
                assert(map_count(pair_counts@, here) == counted(all, i as int, n as int, here));
            }
            let known: u32 = match pair_counts.get(&pair) {
                Some(count) => *count,
                None => 0,
            };
            let count: u32 = known + 1;
            pair_counts.insert(pair, count);
            if count > best_count || (count == best_count && pair > best_pair) {
                best_pair = pair;
                best_count = count;
            }
            n += 1;
        }
        proof {
            assert forall|pair: (u8, u8)| #[trigger] total_occurrences(all.take(i + 1), pair) == counted(all, i as int, n as int, pair) by {
                lemma_counted_full(all, i as int, n as int, pair);
            }
        }
        i += 1;
    }
    assert(all.take(i as int) =~= all);
    if best_count != 0 {
        let left: u8 = (best_pair / 256) as u8;
        let right: u8 = (best_pair % 256) as u8;
        assert(pair_key((left, right)) == best_pair);
        Some((left, right, best_count))
    } else {
        None
    }
}

/// The count that a map holds for a pair; a pair that is not in it has none.
pub open spec fn map_count(pair_counts: Map<u16, u32>, pair: (u8, u8)) -> nat {
    if pair_counts.dom().contains(pair_key(pair) as u16) {
        pair_counts[pair_key(pair) as u16] as nat
    } else {
        0
    }
}

/// Replaces the occurrences of a pair in place.
pub fn replace_pair(seq: &mut Vec<u8>, left: u8, right: u8, new_token: u8)
    ensures
        final(seq)@ == replaced(old(seq)@, (left, right), new_token),
{
    let ghost start = seq@;
    let ghost pair = (left, right);
    let mut i: usize = 0;
    let mut out: usize = 0;
    assert(start.skip(0) =~= start);
    assert(seq@.take(0) + replaced(start, pair, new_token) =~= replaced(start, pair, new_token));
    while i < seq.len()
        invariant
            pair == (left, right),
            seq.len() == start.len(),
            out <= i <= seq.len(),
            forall|k: int| i <= k < seq.len() ==> seq@[k] == start[k],
            seq@.take(out as int) + replaced(start.skip(i as int), pair, new_token) == replaced(start, pair, new_token),
        decreases seq.len() - i,
    {
        let ghost done = seq@.take(out as int);
        let ghost rest = start.skip(i as int);
        if i + 1 < seq.len() && seq[i] == left && seq[i + 1] == right {
            seq.set(out, new_token);
            proof {
                assert(rest.skip(2) =~= start.skip(i + 2));
                assert(seq@.take(out + 1) =~= done + seq![new_token]);
                assert(done + (seq![new_token] + replaced(start.skip(i + 2), pair, new_token)) =~= seq@.take(out + 1) + replaced(start.skip(i + 2), pair, new_token));
            }
            i += 2;
        } else {
            let token: u8 = seq[i];
            seq.set(out, token);
            proof {
                assert(rest.skip(1) =~= start.skip(i + 1));
                assert(seq@.take(out + 1) =~= done + seq![token]);
                assert(done + (seq![token] + replaced(start.skip(i + 1), pair, new_token)) =~= seq@.take(out + 1) + replaced(start.skip(i + 1), pair, new_token));
            }
            i += 1;
        }
        out += 1;
    }
    seq.truncate(out);
    assert(replaced(start.skip(i as int), pair, new_token) =~= Seq::<u8>::empty());
    assert(seq@ =~= replaced(start, pair, new_token));
}

/// Applies the rules to a name, in order.
pub fn encode(name: &[u8], rules: &[[u8; 2]]) -> (tokens: Vec<u8>)
    requires
        rules.len() <= MAX_RULES,
    ensures
        tokens@ == encoded_from(name@, rule_pairs(rules@), 0),
{
    let ghost pairs = rule_pairs(rules@);
    let mut tokens: Vec<u8> = vstd::slice::slice_to_vec(name);
    let mut r: usize = 0;
    assert(pairs.skip(0) =~= pairs);
    while r < rules.len()
        invariant
            r <= rules.len() <= MAX_RULES,
            pairs == rule_pairs(rules@),
            encoded_from(tokens@, pairs.skip(r as int), r as nat) == encoded_from(name@, pairs, 0),
        decreases rules.len() - r,
    {
        let left: u8 = rules[r][0];
        let right: u8 = rules[r][1];
        let new_token: u8 = TOKEN_BASE + r as u8;
        assert(pairs.skip(r as int)[0] == (left, right));
        assert(pairs.skip(r as int).skip(1) =~= pairs.skip(r + 1));
        replace_pair(&mut tokens, left, right, new_token);
        r += 1;
    }
    tokens
}

pub proof fn lemma_fuel_is_irrelevant(token: u8, rules: Seq<(u8, u8)>, f: nat, g: nat)
    requires
        expands_within(token, rules, f),
        expands_within(token, rules, g),
    ensures
        expansion_within(token, rules, f) == expansion_within(token, rules, g),
    decreases f,
{
    if token >= 0x80 {
        let rule = rules[token - 0x80];
        lemma_fuel_is_irrelevant(rule.0, rules, (f - 1) as nat, (g - 1) as nat);
        lemma_fuel_is_irrelevant(rule.1, rules, (f - 1) as nat, (g - 1) as nat);
    }
}

/// A byte expands to itself, another token to what the two sides of its rule expand to.
pub proof fn lemma_expansion_unfolds(token: u8, rules: Seq<(u8, u8)>)
    requires
        expandable(token, rules),
    ensures
        token < 0x80 ==> expansion(token, rules) == seq![token],
        token >= 0x80 ==> {
            &&& token - 0x80 < rules.len()
            &&& expandable(rules[token - 0x80].0, rules)
            &&& expandable(rules[token - 0x80].1, rules)
            &&& expansion(token, rules) == expansion(rules[token - 0x80].0, rules) + expansion(rules[token - 0x80].1, rules)
        },
{
    let fuel = choose|fuel: nat| #[trigger] expands_within(token, rules, fuel);
    if token >= 0x80 {
        let less = (fuel - 1) as nat;
        let rule = rules[token - 0x80];
        assert(expands_within(rule.0, rules, less));
        assert(expands_within(rule.1, rules, less));
        lemma_fuel_is_irrelevant(rule.0, rules, less, choose|fuel: nat| #[trigger] expands_within(rule.0, rules, fuel));
        lemma_fuel_is_irrelevant(rule.1, rules, less, choose|fuel: nat| #[trigger] expands_within(rule.1, rules, fuel));
    }
}

/// Turns tokens back into bytes.
pub fn decode(encoded: &[u8], rules: &[[u8; 2]]) -> (out: Vec<u8>)
    requires
        forall|i: int| 0 <= i < encoded.len() ==> expandable(#[trigger] encoded@[i], rule_pairs(rules@)),
    ensures
        out@ == decoded(encoded@, rule_pairs(rules@)),
{
    let ghost pairs = rule_pairs(rules@);
    let mut out: Vec<u8> = Vec::new();
    let mut i: usize = 0;
    assert(encoded@.skip(0) =~= encoded@);
    assert(out@ + decoded(encoded@, pairs) =~= decoded(encoded@, pairs));
    while i < encoded.len()
        invariant
            i <= encoded.len(),
            pairs == rule_pairs(rules@),
            forall|i: int| 0 <= i < encoded.len() ==> expandable(#[trigger] encoded@[i], pairs),
            out@ + decoded(encoded@.skip(i as int), pairs) == decoded(encoded@, pairs),
        decreases encoded.len() - i,
    {
        let token: u8 = encoded[i];
        let ghost before = out@;
        let ghost fuel = choose|fuel: nat| #[trigger] expands_within(token, pairs, fuel);
        assert(expandable(encoded@[i as int], pairs));
        expand(token, rules, &mut out, Ghost(fuel));
        proof {
            assert(encoded@.skip(i as int).skip(1) =~= encoded@.skip(i + 1));
            assert(before + (expansion(token, pairs) + decoded(encoded@.skip(i + 1), pairs)) =~= out@ + decoded(encoded@.skip(i + 1), pairs));
        }
        i += 1;
    }
    assert(out@ + decoded(encoded@.skip(i as int), pairs) =~= out@);
    out
}

fn expand(token: u8, rules: &[[u8; 2]], out: &mut Vec<u8>, Ghost(fuel): Ghost<nat>)
    requires
        expands_within(token, rule_pairs(rules@), fuel),
    ensures
        final(out)@ == old(out)@ + expansion_within(token, rule_pairs(rules@), fuel),
    decreases fuel,
{
    if token < TOKEN_BASE {
        out.push(token);
        assert(out@ =~= old(out)@ + seq![token]);
    } else {
        let idx: usize = (token - TOKEN_BASE) as usize;
        let ghost start = out@;
        expand(rules[idx][0], rules, out, Ghost((fuel - 1) as nat));
        expand(rules[idx][1], rules, out, Ghost((fuel - 1) as nat));
        assert(out@ =~= start + expansion_within(token, rule_pairs(rules@), fuel));
    }
}

// ---------------------------------------------------------------- laws

pub proof fn lemma_well_founded_expands(token: u8, rules: Seq<(u8, u8)>, fuel: nat)
    requires
        well_founded(rules),
        token < 0x80 + rules.len(),
        token < 0x80 + fuel,
    ensures
        expands_within(token, rules, fuel),
        expandable(token, rules),
    decreases fuel,
{
    if token >= 0x80 {
        lemma_well_founded_expands(rules[token - 0x80].0, rules, (fuel - 1) as nat);
        lemma_well_founded_expands(rules[token - 0x80].1, rules, (fuel - 1) as nat);
    }
    assert(expands_within(token, rules, fuel));
}

proof fn lemma_replacing_keeps_the_text(s: Seq<u8>, pair: (u8, u8), token: u8, rules: Seq<(u8, u8)>)
    requires
        0x80 <= token,
        token - 0x80 < rules.len(),
        rules[token - 0x80] == pair,
        expandable(token, rules),
    ensures
        decoded(replaced(s, pair, token), rules) == decoded(s, rules),
    decreases s.len(),
{
    if s.len() == 0 {
    } else if s.len() >= 2 && s[0] == pair.0 && s[1] == pair.1 {
        let rest = s.skip(2);
        lemma_replacing_keeps_the_text(rest, pair, token, rules);
        lemma_expansion_unfolds(token, rules);
        let r = replaced(s, pair, token);
        assert(r.skip(1) =~= replaced(rest, pair, token));
        assert(s.skip(1).skip(1) =~= rest);
        assert(s.skip(1)[0] == pair.1);
        assert(r[0] == token);
        assert(decoded(s.skip(1), rules) == expansion(pair.1, rules) + decoded(rest, rules));
        assert((expansion(pair.0, rules) + expansion(pair.1, rules)) + decoded(rest, rules)
            =~= expansion(pair.0, rules) + (expansion(pair.1, rules) + decoded(rest, rules)));
    } else {
        lemma_replacing_keeps_the_text(s.skip(1), pair, token, rules);
        let r = replaced(s, pair, token);
        assert(r.skip(1) =~= replaced(s.skip(1), pair, token));
        assert(r[0] == s[0]);
    }
}

proof fn lemma_encoded_from_keeps_the_text(s: Seq<u8>, rules: Seq<(u8, u8)>, first: nat)
    requires
        well_founded(rules),
        first <= rules.len(),
        forall|j: int| 0 <= j < s.len() ==> s[j] < 0x80 + first,
    ensures
        decoded(encoded_from(s, rules.skip(first as int), first), rules) == decoded(s, rules),
        forall|j: int| 0 <= j < encoded_from(s, rules.skip(first as int), first).len() ==> #[trigger] encoded_from(
            s,
            rules.skip(first as int),
            first,
        )[j] < 0x80 + rules.len(),
        encoded_from(s, rules.skip(first as int), first).len() <= s.len(),
    decreases rules.len() - first,
{
    let rest = rules.skip(first as int);
    if first < rules.len() {
        let token = (0x80 + first) as u8;
        let next = replaced(s, rest[0], token);
        lemma_replaced_bound(s, rest[0], token, 0x80 + first as int + 1);
        lemma_replaced_len(s, rest[0], token);
        lemma_well_founded_expands(token, rules, first + 1);
        lemma_replacing_keeps_the_text(s, rest[0], token, rules);
        assert(rest.skip(1) =~= rules.skip(first as int + 1));
        lemma_encoded_from_keeps_the_text(next, rules, first + 1);
    }
}

pub proof fn lemma_ascii_decodes_to_itself(s: Seq<u8>, rules: Seq<(u8, u8)>)
    requires
        forall|j: int| 0 <= j < s.len() ==> s[j] < 0x80,
    ensures
        decoded(s, rules) == s,
    decreases s.len(),
{
    if s.len() > 0 {
        assert(expands_within(s[0], rules, 0));
        lemma_expansion_unfolds(s[0], rules);
        lemma_ascii_decodes_to_itself(s.skip(1), rules);
        assert(seq![s[0]] + s.skip(1) =~= s);
    }
}

/// Decoding an encoded ASCII name gives the name back, every token of an encoded name can be
/// decoded, and the encoded name is no longer than the name.
pub proof fn decode_undoes_encode(name: Seq<u8>, rules: Seq<(u8, u8)>)
    requires
        well_founded(rules),
        forall|j: int| 0 <= j < name.len() ==> name[j] < 0x80,
    ensures
        decoded(encoded_from(name, rules, 0), rules) == name,
        forall|j: int| 0 <= j < encoded_from(name, rules, 0).len() ==> expandable(#[trigger] encoded_from(name, rules, 0)[j], rules),
        encoded_from(name, rules, 0).len() <= name.len(),
{
    assert(rules.skip(0) =~= rules);
    lemma_encoded_from_keeps_the_text(name, rules, 0);
    lemma_ascii_decodes_to_itself(name, rules);
    assert forall|j: int| 0 <= j < encoded_from(name, rules, 0).len() implies expandable(#[trigger] encoded_from(name, rules, 0)[j], rules) by {
        lemma_well_founded_expands(encoded_from(name, rules, 0)[j], rules, rules.len());
    }
}

proof fn lemma_occurring_tokens(s: Seq<u8>, pair: (u8, u8), bound: int)
    requires
        occurrences(s, pair) > 0,
        forall|j: int| 0 <= j < s.len() ==> s[j] < bound,
    ensures
        pair.0 < bound,
        pair.1 < bound,
    decreases s.len(),
{
    if occurrences(s.drop_last(), pair) > 0 {
        lemma_occurring_tokens(s.drop_last(), pair, bound);
    }
}

pub proof fn lemma_total_occurring_tokens(tokens: Seq<Seq<u8>>, pair: (u8, u8), bound: int)
    requires
        total_occurrences(tokens, pair) > 0,
        forall|i: int, j: int| 0 <= i < tokens.len() && 0 <= j < tokens[i].len() ==> #[trigger] tokens[i][j] < bound,
    ensures
        pair.0 < bound,
        pair.1 < bound,
    decreases tokens.len(),
{
    let last = tokens.last();
    if occurrences(last, pair) > 0 {
        assert forall|j: int| 0 <= j < last.len() implies last[j] < bound by {
            assert(tokens[tokens.len() - 1][j] < bound);
        }
        lemma_occurring_tokens(last, pair, bound);
    } else {
        let front = tokens.drop_last();
        assert forall|i: int, j: int| 0 <= i < front.len() && 0 <= j < front[i].len() implies #[trigger] front[i][j] < bound by {
            assert(tokens[i][j] < bound);
        }
        lemma_total_occurring_tokens(front, pair, bound);
    }
}

proof fn lemma_learned_from(tokens: Seq<Seq<u8>>, known: nat)
    requires
        known <= 128,
        forall|i: int, j: int| 0 <= i < tokens.len() && 0 <= j < tokens[i].len() ==> #[trigger] tokens[i][j] < 0x80 + known,
    ensures
        learned(tokens, known).0.len() <= 128 - known,
        forall|r: int|
            0 <= r < learned(tokens, known).0.len() ==> (#[trigger] learned(tokens, known).0[r]).0 < 0x80 + known + r
                && learned(tokens, known).0[r].1 < 0x80 + known + r,
    decreases 128 - known,
{
    if known < 128 {
        if let Some(pair) = next_rule(tokens) {
            lemma_total_occurring_tokens(tokens, pair, 0x80 + known as int);
            let token = (0x80 + known) as u8;
            let next = all_replaced(tokens, pair, token);
            assert forall|i: int, j: int| 0 <= i < next.len() && 0 <= j < next[i].len() implies #[trigger] next[i][j] < 0x80 + known + 1 by {
                assert forall|k: int| 0 <= k < tokens[i].len() implies tokens[i][k] < 0x80 + known + 1 by {
                    assert(tokens[i][k] < 0x80 + known);
                }
                lemma_replaced_bound(tokens[i], pair, token, 0x80 + known as int + 1);
            }
            lemma_learned_from(next, known + 1);
            let rest = learned(next, known + 1).0;
            assert forall|r: int| 0 <= r < learned(tokens, known).0.len() implies (#[trigger] learned(tokens, known).0[r]).0 < 0x80 + known + r
                && learned(tokens, known).0[r].1 < 0x80 + known + r by {
                if r > 0 {
                    assert(learned(tokens, known).0[r] == rest[r - 1]);
                }
            }
        }
    }
}

/// The rules learned from ASCII names can be decoded: at most 128 of them, each made of bytes and
/// of tokens of earlier rules.
pub proof fn learned_rules_are_well_founded(names: Seq<Seq<u8>>)
    requires
        all_ascii(names),
    ensures
        well_founded(learned(names, 0).0),
{
    lemma_learned_from(names, 0);
}

proof fn lemma_learned_encodes(tokens: Seq<Seq<u8>>, known: nat, i: int)
    requires
        0 <= i < tokens.len(),
    ensures
        learned(tokens, known).1.len() == tokens.len(),
        learned(tokens, known).1[i] == encoded_from(tokens[i], learned(tokens, known).0, known),
    decreases 128 - known,
{
    if known < 128 {
        if let Some(pair) = next_rule(tokens) {
            let next = all_replaced(tokens, pair, (0x80 + known) as u8);
            lemma_learned_encodes(next, known + 1, i);
            assert(learned(tokens, known).0.skip(1) =~= learned(next, known + 1).0);
        }
    }
}

/// The encoded names that come with a vocabulary are what encoding each name with it gives.
pub proof fn learned_tokens_are_the_encoded_names(names: Seq<Seq<u8>>, i: int)
    requires
        0 <= i < names.len(),
    ensures
        learned(names, 0).1.len() == names.len(),
        learned(names, 0).1[i] == encoded_from(names[i], learned(names, 0).0, 0),
{
    lemma_learned_encodes(names, 0, i);
}

/// A name that took part in building the vocabulary is read back from its encoded form.
pub proof fn learned_names_are_decoded(names: Seq<Seq<u8>>, i: int)
    requires
        all_ascii(names),
        0 <= i < names.len(),
    ensures
        decoded(learned(names, 0).1[i], learned(names, 0).0) == names[i],
        learned(names, 0).1[i].len() <= names[i].len(),
{
    learned_rules_are_well_founded(names);
    learned_tokens_are_the_encoded_names(names, i);
    assert forall|j: int| 0 <= j < names[i].len() implies names[i][j] < 0x80 by {}
    decode_undoes_encode(names[i], learned(names, 0).0);
}

/// Each name with the rules applied to it in order.
pub open spec fn all_encoded(names: Seq<Seq<u8>>, rules: Seq<(u8, u8)>, first: nat) -> Seq<Seq<u8>> {
    Seq::new(names.len(), |i: int| encoded_from(names[i], rules, first))
}

proof fn lemma_learned_is_encoded(names: Seq<Seq<u8>>)
    ensures
        learned(names, 0).1 == all_encoded(names, learned(names, 0).0, 0),
{
    let (rules, tokens) = learned(names, 0);
    lemma_learned_len(names, 0);
    assert forall|i: int| 0 <= i < names.len() implies tokens[i] == #[trigger] all_encoded(names, rules, 0)[i] by {
        lemma_learned_encodes(names, 0, i);
    }
    assert(tokens =~= all_encoded(names, rules, 0));
}

proof fn lemma_rule_is_next(tokens: Seq<Seq<u8>>, known: nat, r: int)
    requires
        0 <= r < learned(tokens, known).0.len(),
    ensures
        next_rule(all_encoded(tokens, learned(tokens, known).0.take(r), known)) == Some(learned(tokens, known).0[r]),
    decreases r,
{
    let rules = learned(tokens, known).0;
    let pair = next_rule(tokens)->0;
    if r == 0 {
        assert(all_encoded(tokens, rules.take(0), known) =~= tokens);
    } else {
        let next = all_replaced(tokens, pair, (0x80 + known) as u8);
        let rest = learned(next, known + 1).0;
        lemma_rule_is_next(next, known + 1, r - 1);
        assert(rules.take(r).skip(1) =~= rest.take(r - 1));
        assert(all_encoded(tokens, rules.take(r), known) =~= all_encoded(next, rest.take(r - 1), known + 1));
    }
}

/// Each rule replaces the pair that stands most often in the names as the rules before it leave
/// them, the one with the largest key where several do; it stands there at least twice.
pub proof fn each_rule_is_the_best_pair(names: Seq<Seq<u8>>, r: int)
    requires
        0 <= r < learned(names, 0).0.len(),
    ensures
        is_best(all_encoded(names, learned(names, 0).0.take(r), 0), learned(names, 0).0[r]),
        total_occurrences(all_encoded(names, learned(names, 0).0.take(r), 0), learned(names, 0).0[r]) >= 2,
        ({
            let tokens = all_encoded(names, learned(names, 0).0.take(r), 0);
            let pair = learned(names, 0).0[r];
            forall|other: (u8, u8)| #[trigger]
                total_occurrences(tokens, other) < total_occurrences(tokens, pair) || (total_occurrences(tokens, other)
                    == total_occurrences(tokens, pair) && (other.0 < pair.0 || (other.0 == pair.0 && other.1 <= pair.1)))
        }),
{
    lemma_rule_is_next(names, 0, r);
    best_pairs_are_the_most_frequent(all_encoded(names, learned(names, 0).0.take(r), 0), learned(names, 0).0[r]);
}

/// The preferred pair stands at least as often as any other; of those that stand as often its left
/// token is the largest, and then its right token.
pub proof fn best_pairs_are_the_most_frequent(tokens: Seq<Seq<u8>>, pair: (u8, u8))
    requires
        is_best(tokens, pair),
    ensures
        total_occurrences(tokens, pair) > 0,
        forall|other: (u8, u8)| #[trigger]
            total_occurrences(tokens, other) < total_occurrences(tokens, pair) || (total_occurrences(tokens, other)
                == total_occurrences(tokens, pair) && (other.0 < pair.0 || (other.0 == pair.0 && other.1 <= pair.1))),
{
}

/// The places where a pair stands.
pub open spec fn places_of(s: Seq<u8>, pair: (u8, u8)) -> Set<int> {
    Set::new(|i: int| 0 <= i < s.len() - 1 && s[i] == pair.0 && s[i + 1] == pair.1)
}

/// A pair occurs as often as there are places where it stands.
pub proof fn occurrences_are_the_places(s: Seq<u8>, pair: (u8, u8))
    ensures
        places_of(s, pair).finite(),
        occurrences(s, pair) == places_of(s, pair).len(),
    decreases s.len(),
{
    if s.len() < 2 {
        assert(places_of(s, pair) =~= Set::<int>::empty());
    } else {
        let before = s.drop_last();
        occurrences_are_the_places(before, pair);
        let last: int = s.len() - 2;
        if s[last] == pair.0 && s[last + 1] == pair.1 {
            assert(places_of(s, pair) =~= places_of(before, pair).insert(last));
            assert(!places_of(before, pair).contains(last));
        } else {
            assert(places_of(s, pair) =~= places_of(before, pair));
        }
    }
}

/// The occurrences in several sequences are those in each of them, added up.
pub proof fn occurrences_add_up(a: Seq<Seq<u8>>, s: Seq<u8>, b: Seq<Seq<u8>>, pair: (u8, u8))
    ensures
        total_occurrences(Seq::<Seq<u8>>::empty(), pair) == 0,
        total_occurrences(a + seq![s] + b, pair) == total_occurrences(a, pair) + occurrences(s, pair) + total_occurrences(b, pair),
    decreases b.len(),
{
    let all = a + seq![s] + b;
    if b.len() == 0 {
        assert(all.drop_last() =~= a);
        assert(all.last() == s);
    } else {
        occurrences_add_up(a, s, b.drop_last(), pair);
        assert(all.drop_last() =~= a + seq![s] + b.drop_last());
        assert(all.last() == b.last());
    }
}

/// Where a pair is replaced by a token of its own, it occurs no more.
pub proof fn replacing_leaves_no_occurrence(s: Seq<u8>, pair: (u8, u8), token: u8)
    requires
        token != pair.0,
        token != pair.1,
    ensures
        forall|i: int| 0 <= i < replaced(s, pair, token).len() - 1 ==> !(#[trigger] replaced(s, pair, token)[i] == pair.0
            && replaced(s, pair, token)[i + 1] == pair.1),
        replaced(s, pair, token).len() > 0 <==> s.len() > 0,
        s.len() > 0 ==> replaced(s, pair, token)[0] == s[0] || replaced(s, pair, token)[0] == token,
    decreases s.len(),
{
    let result = replaced(s, pair, token);
    if s.len() > 0 {
        let found = s.len() >= 2 && s[0] == pair.0 && s[1] == pair.1;
        let step: int = if found { 2 } else { 1 };
        let rest = s.skip(step);
        replacing_leaves_no_occurrence(rest, pair, token);
        let tail = replaced(rest, pair, token);
        assert(result =~= seq![if found { token } else { s[0] }] + tail);
        assert forall|i: int| 0 <= i < result.len() - 1 implies !(#[trigger] result[i] == pair.0 && result[i + 1] == pair.1) by {
            if i > 0 {
                assert(result[i] == tail[i - 1]);
                assert(result[i + 1] == tail[i]);
            } else {
                assert(result[1] == tail[0]);
                assert(rest.len() > 0);
                assert(rest[0] == s[step]);
            }
        }
    }
}

/// Replacing goes from the left: what stands before the first occurrence stays, the occurrence becomes
/// the token, and the rest is replaced on its own.
pub proof fn the_first_occurrence_is_replaced_first(a: Seq<u8>, b: Seq<u8>, pair: (u8, u8), token: u8)
    requires
        forall|i: int| 0 <= i < a.len() ==> !(#[trigger] a[i] == pair.0 && (a + seq![pair.0])[i + 1] == pair.1),
    ensures
        replaced(a + seq![pair.0, pair.1] + b, pair, token) == a + seq![token] + replaced(b, pair, token),
    decreases a.len(),
{
    let s = a + seq![pair.0, pair.1] + b;
    if a.len() == 0 {
        assert(s.skip(2) =~= b);
        assert(a + seq![token] + replaced(b, pair, token) =~= seq![token] + replaced(b, pair, token));
    } else {
        let rest = a.skip(1);
        assert(!(a[0] == pair.0 && (a + seq![pair.0])[1] == pair.1));
        assert(s[0] == a[0]);
        assert(s[1] == (a + seq![pair.0])[1]);
        assert forall|i: int| 0 <= i < rest.len() implies !(#[trigger] rest[i] == pair.0 && (rest + seq![pair.0])[i + 1] == pair.1) by {
            assert(rest[i] == a[i + 1]);
            assert((rest + seq![pair.0])[i + 1] == (a + seq![pair.0])[i + 2]);
        }
        the_first_occurrence_is_replaced_first(rest, b, pair, token);
        assert(s.skip(1) =~= rest + seq![pair.0, pair.1] + b);
        assert(seq![a[0]] + (rest + seq![token] + replaced(b, pair, token)) =~= a + seq![token] + replaced(b, pair, token));
    }
}

proof fn lemma_best_below(tokens: Seq<Seq<u8>>, n: int) -> (best: (u8, u8))
    requires
        0 < n <= 65_536,
    ensures
        pair_key(best) < n,
        forall|other: (u8, u8)|
            pair_key(other) < n ==> ranked(
                #[trigger] total_occurrences(tokens, other),
                pair_key(other),
                total_occurrences(tokens, best),
                pair_key(best),
            ),
    decreases n,
{
    let here = (((n - 1) / 256) as u8, ((n - 1) % 256) as u8);
    assert(pair_key(here) == n - 1);
    assert forall|other: (u8, u8)| pair_key(other) == n - 1 implies other == here by {}
    if n == 1 {
        here
    } else {
        let before = lemma_best_below(tokens, n - 1);
        if total_occurrences(tokens, before) > total_occurrences(tokens, here) {
            before
        } else {
            here
        }
    }
}

proof fn lemma_learned_stops(tokens: Seq<Seq<u8>>, known: nat)
    requires
        known <= 128,
    ensures
        known + learned(tokens, known).0.len() <= 128,
        known + learned(tokens, known).0.len() < 128 ==> next_rule(learned(tokens, known).1) is None,
    decreases 128 - known,
{
    if known < 128 {
        if let Some(pair) = next_rule(tokens) {
            lemma_learned_stops(all_replaced(tokens, pair, (0x80 + known) as u8), known + 1);
        }
    }
}

/// Learning stops at the largest number of rules, or when no pair stands more than once in the
/// names with all the rules applied.
pub proof fn learning_stops_when_no_pair_repeats(names: Seq<Seq<u8>>)
    ensures
        learned(names, 0).0.len() <= MAX_RULES,
        learned(names, 0).0.len() < MAX_RULES ==> forall|pair: (u8, u8)|
            #[trigger] total_occurrences(all_encoded(names, learned(names, 0).0, 0), pair) <= 1,
{
    lemma_learned_stops(names, 0);
    let (rules, tokens) = learned(names, 0);
    if rules.len() < MAX_RULES {
        lemma_learned_is_encoded(names);
        let best = lemma_best_below(tokens, 65_536);
        assert forall|pair: (u8, u8)| #[trigger] total_occurrences(tokens, pair) <= 1 by {
            if total_occurrences(tokens, pair) > 1 {
                assert(is_best(tokens, best));
            }
        }
    }
}

proof fn lemma_learned_len(tokens: Seq<Seq<u8>>, known: nat)
    ensures
        learned(tokens, known).1.len() == tokens.len(),
    decreases 128 - known,
{
    if known < 128 {
        if let Some(pair) = next_rule(tokens) {
            lemma_learned_len(all_replaced(tokens, pair, (0x80 + known) as u8), known + 1);
        }
    }
}

} // verus!
