//! Building a vocabulary without rescanning all names before each rule.
//!
//! The tokens of each name are the nodes of a doubly linked list. For each pair the places where
//! it was seen are kept, so that a rule touches only the places that it may change.
use vstd::prelude::*;
use crate::bpe::{
    all_ascii, all_replaced, contents, counted, incremental_fits, is_most_frequent, learned, lemma_counted_bound,
    lemma_counted_full, lemma_counted_step, lemma_next_rule, lemma_nothing_to_replace, lemma_occurrences_concat,
    lemma_replace_one_first, lemma_replaced_bound, lemma_total_bound, lemma_total_len_take,
    lemma_total_occurring_tokens, lemma_total_pairs_le_len, occurrences, pair_key, pairs_of, ranked, replaced,
    rule_pairs, token_views, total_len, total_occurrences, total_pairs,
};
use crate::bpe::{MAX_INCREMENTAL_NAME_LEN, MAX_RULES, PACKED_INDEX_LIMIT, PAIR_TABLE_SIZE, TOKEN_BASE};

verus! {

pub const NO_NODE: u32 = 0xffff_ffff;
pub const NO_PAIR_SLOT: u32 = 0xffff_ffff;

/// One token of a name with its neighbours, in four bytes: the distance to the node before it, the
/// distance to the node after it, the token, and the token of the node after it. A distance of
/// zero says that there is no such node.
#[derive(Clone, Copy)]
pub struct TokenNode(u32);

impl TokenNode {
    pub closed spec fn prev_gap(self) -> u8 {
        (self.0 & 0xff) as u8
    }

    pub closed spec fn next_gap(self) -> u8 {
        ((self.0 >> 8) & 0xff) as u8
    }

    pub closed spec fn tok(self) -> u8 {
        ((self.0 >> 16) & 0xff) as u8
    }

    pub closed spec fn right_tok(self) -> u8 {
        ((self.0 >> 24) & 0xff) as u8
    }

    fn new(prev: u32, token: u8) -> (node: Self)
        ensures
            node.prev_gap() == (if prev != NO_NODE {
                1u8
            } else {
                0
            }),
            node.next_gap() == 0,
            node.tok() == token,
            node.right_tok() == 0,
    {
        let prev_gap: u8 = if prev != NO_NODE {
            1
        } else {
            0
        };
        let packed: u32 = (token as u32) << 16 | prev_gap as u32;
        assert((packed & 0xff) as u8 == prev_gap && ((packed >> 8) & 0xff) as u8 == 0 && ((packed >> 16) & 0xff) as u8
            == token && ((packed >> 24) & 0xff) as u8 == 0) by (bit_vector)
            requires
                packed == (token as u32) << 16 | prev_gap as u32,
        ;
        TokenNode(packed)
    }

    fn prev(self, index: u32) -> (prev: u32)
        requires
            self.prev_gap() <= index,
        ensures
            prev == (if self.prev_gap() == 0 {
                NO_NODE
            } else {
                (index - self.prev_gap()) as u32
            }),
    {
        let gap: u8 = (self.0 & 0xff) as u8;
        if gap == 0 {
            NO_NODE
        } else {
            index - gap as u32
        }
    }

    fn set_prev(&mut self, index: u32, prev: u32)
        requires
            prev != NO_NODE ==> prev < index && index - prev <= 255,
        ensures
            final(self).prev_gap() == (if prev == NO_NODE {
                0
            } else {
                index - prev
            }),
            final(self).next_gap() == old(self).next_gap(),
            final(self).tok() == old(self).tok(),
            final(self).right_tok() == old(self).right_tok(),
    {
        let gap: u8 = if prev == NO_NODE {
            0
        } else {
            (index - prev) as u8
        };
        let before: u32 = self.0;
        let packed: u32 = (before & 0xffff_ff00) | gap as u32;
        assert((packed & 0xff) as u8 == gap && ((packed >> 8) & 0xff) as u8 == ((before >> 8) & 0xff) as u8 && ((packed
            >> 16) & 0xff) as u8 == ((before >> 16) & 0xff) as u8 && ((packed >> 24) & 0xff) as u8 == ((before >> 24)
            & 0xff) as u8) by (bit_vector)
            requires
                packed == (before & 0xffff_ff00) | gap as u32,
        ;
        self.0 = packed;
    }

    fn token(self) -> (token: u8)
        ensures
            token == self.tok(),
    {
        ((self.0 >> 16) & 0xff) as u8
    }

    fn set_token(&mut self, token: u8)
        ensures
            final(self).tok() == token,
            final(self).prev_gap() == old(self).prev_gap(),
            final(self).next_gap() == old(self).next_gap(),
            final(self).right_tok() == old(self).right_tok(),
    {
        let before: u32 = self.0;
        let packed: u32 = (before & 0xff00_ffff) | (token as u32) << 16;
        assert((packed & 0xff) as u8 == (before & 0xff) as u8 && ((packed >> 8) & 0xff) as u8 == ((before >> 8) & 0xff) as u8
            && ((packed >> 16) & 0xff) as u8 == token && ((packed >> 24) & 0xff) as u8 == ((before >> 24) & 0xff) as u8)
            by (bit_vector)
            requires
                packed == (before & 0xff00_ffff) | (token as u32) << 16,
        ;
        self.0 = packed;
    }

    fn next(self, index: u32) -> (next: u32)
        requires
            index + self.next_gap() < NO_NODE,
        ensures
            next == (if self.next_gap() == 0 {
                NO_NODE
            } else {
                (index + self.next_gap()) as u32
            }),
    {
        let gap: u8 = ((self.0 >> 8) & 0xff) as u8;
        if gap == 0 {
            NO_NODE
        } else {
            index + gap as u32
        }
    }

    fn set_next(&mut self, index: u32, next: u32, right_token: u8)
        requires
            next != NO_NODE ==> index < next && next - index <= 255,
        ensures
            final(self).next_gap() == (if next == NO_NODE {
                0
            } else {
                next - index
            }),
            final(self).right_tok() == right_token,
            final(self).prev_gap() == old(self).prev_gap(),
            final(self).tok() == old(self).tok(),
    {
        let gap: u8 = if next == NO_NODE {
            0
        } else {
            (next - index) as u8
        };
        let before: u32 = self.0;
        let packed: u32 = (before & 0x00ff_00ff) | (gap as u32) << 8 | (right_token as u32) << 24;
        assert((packed & 0xff) as u8 == (before & 0xff) as u8 && ((packed >> 8) & 0xff) as u8 == gap && ((packed >> 16)
            & 0xff) as u8 == ((before >> 16) & 0xff) as u8 && ((packed >> 24) & 0xff) as u8 == right_token)
            by (bit_vector)
            requires
                packed == (before & 0x00ff_00ff) | (gap as u32) << 8 | (right_token as u32) << 24,
        ;
        self.0 = packed;
    }

    fn right_token(self) -> (token: u8)
        ensures
            token == self.right_tok(),
    {
        ((self.0 >> 24) & 0xff) as u8
    }
}

/// A list of node indexes below `PACKED_INDEX_LIMIT`, three bytes each, least significant first.
pub struct PackedOccurrences(Vec<u8>);

impl PackedOccurrences {
    pub closed spec fn wf(self) -> bool {
        self.0.len() % 3 == 0
    }

    fn new() -> (list: Self)
        ensures
            list.wf(),
            list@ == Seq::<u32>::empty(),
    {
        let list = PackedOccurrences(Vec::new());
        assert(list@ =~= Seq::<u32>::empty());
        list
    }

    fn push(&mut self, index: u32)
        requires
            old(self).wf(),
            index < PACKED_INDEX_LIMIT,
        ensures
            final(self).wf(),
            final(self)@ == old(self)@.push(index),
    {
        self.0.push((index % 256) as u8);
        self.0.push((index / 256 % 256) as u8);
        self.0.push((index / 65_536) as u8);
        assert(self@ =~= old(self)@.push(index));
    }

    fn len(&self) -> (len: usize)
        ensures
            len == self@.len(),
    {
        self.0.len() / 3
    }

    fn get(&self, entry: usize) -> (index: u32)
        requires
            entry < self@.len(),
        ensures
            index == self@[entry as int],
    {
        self.0[3 * entry] as u32 + 256 * (self.0[3 * entry + 1] as u32) + 65_536 * (self.0[3 * entry + 2] as u32)
    }
}

impl View for PackedOccurrences {
    type V = Seq<u32>;

    closed spec fn view(&self) -> Seq<u32> {
        Seq::new(
            (self.0.len() / 3) as nat,
            |e: int| (self.0@[3 * e] + 256 * self.0@[3 * e + 1] + 65_536 * self.0@[3 * e + 2]) as u32,
        )
    }
}

/// `slice::sort_unstable` puts the values in ascending order; each stays as often as it was there.
#[verifier::external_body]
fn sort_ascending(values: &mut Vec<u32>)
    ensures
        forall|i: int, j: int| 0 <= i < j < final(values).len() ==> final(values)@[i] <= final(values)@[j],
        final(values)@.to_multiset() == old(values)@.to_multiset(),
{
    values.sort_unstable();
}

// ---------------------------------------------------------------- model of the linked lists

/// `k` is a place in list `j`.
pub open spec fn in_list(live: Seq<Seq<int>>, j: int, k: int) -> bool {
    0 <= j < live.len() && 0 <= k < live[j].len()
}

/// The node at place `k` of list `j` is linked to its neighbours.
pub open spec fn linked(nodes: Seq<TokenNode>, live: Seq<Seq<int>>, j: int, k: int) -> bool {
    let i = live[j][k];
    &&& 0 <= i < nodes.len()
    &&& nodes[i].prev_gap() == if k > 0 {
        i - live[j][k - 1]
    } else {
        0
    }
    &&& nodes[i].next_gap() == if k + 1 < live[j].len() {
        live[j][k + 1] - i
    } else {
        0
    }
    &&& k + 1 < live[j].len() ==> nodes[i].right_tok() == nodes[live[j][k + 1]].tok()
}

pub open spec fn ordered(live: Seq<Seq<int>>) -> bool {
    &&& forall|j: int, a: int, b: int|
        in_list(live, j, a) && in_list(live, j, b) && a < b ==> #[trigger] live[j][a] < #[trigger] live[j][b]
            <= live[j][a] + 255
    &&& forall|j: int, l: int, a: int, b: int|
        #![trigger live[j][a], live[l][b]]
        in_list(live, j, a) && in_list(live, l, b) && j < l ==> live[j][a] < live[l][b]
}

/// Node `i` stands in a list and has a node after it.
pub open spec fn has_edge(live: Seq<Seq<int>>, i: int) -> bool {
    exists|j: int, k: int| #[trigger] edge_at(live, j, k) && live[j][k] == i
}

pub open spec fn edge_at(live: Seq<Seq<int>>, j: int, k: int) -> bool {
    in_list(live, j, k) && k + 1 < live[j].len()
}

pub open spec fn links(nodes: Seq<TokenNode>, live: Seq<Seq<int>>) -> bool {
    &&& nodes.len() < PACKED_INDEX_LIMIT
    &&& ordered(live)
    &&& forall|j: int, k: int| in_list(live, j, k) ==> #[trigger] linked(nodes, live, j, k)
    &&& forall|i: int| 0 <= i < nodes.len() && (#[trigger] nodes[i]).next_gap() != 0 ==> has_edge(live, i)
}

pub open spec fn list_tokens(nodes: Seq<TokenNode>, live: Seq<Seq<int>>) -> Seq<Seq<u8>> {
    Seq::new(live.len(), |j: int| Seq::new(live[j].len(), |k: int| nodes[live[j][k]].tok()))
}

/// The key of the pair that starts at place `k` of list `j`.
pub open spec fn edge_key(nodes: Seq<TokenNode>, live: Seq<Seq<int>>, j: int, k: int) -> int {
    pair_key((nodes[live[j][k]].tok(), nodes[live[j][k + 1]].tok()))
}

/// Pairs have distinct slots, and the lists of places hold only nodes.
pub open spec fn slots_ok(
    slots: Seq<u32>,
    known: Seq<u16>,
    lists: Seq<PackedOccurrences>,
    counts: Seq<u32>,
    nodes: int,
) -> bool {
    &&& slots.len() == PAIR_TABLE_SIZE
    &&& counts.len() == PAIR_TABLE_SIZE
    &&& lists.len() == known.len()
    &&& forall|p: int|
        0 <= p < PAIR_TABLE_SIZE && #[trigger] slots[p] != NO_PAIR_SLOT ==> slots[p] < known.len() && known[slots[p] as int] == p
    &&& forall|s: int| 0 <= s < known.len() ==> slots[(#[trigger] known[s]) as int] == s
    &&& forall|p: int| 0 <= p < PAIR_TABLE_SIZE && #[trigger] counts[p] > 0 ==> slots[p] != NO_PAIR_SLOT
    &&& forall|s: int| 0 <= s < lists.len() ==> (#[trigger] lists[s]).wf()
    &&& forall|s: int, e: int| 0 <= s < lists.len() && 0 <= e < lists[s]@.len() ==> #[trigger] lists[s]@[e] < nodes
}

/// The list of the pair with key `p` holds node `i`.
pub open spec fn listed(slots: Seq<u32>, lists: Seq<PackedOccurrences>, p: int, i: int) -> bool {
    slots[p] != NO_PAIR_SLOT && lists[slots[p] as int]@.contains(i as u32)
}

/// Every pair that stands in a list is noted with its place; for the pair `hole` the place is in
/// `rest` instead.
pub open spec fn edges_listed(
    nodes: Seq<TokenNode>,
    live: Seq<Seq<int>>,
    slots: Seq<u32>,
    lists: Seq<PackedOccurrences>,
    hole: int,
    rest: Seq<u32>,
) -> bool {
    forall|j: int, k: int| #[trigger]
        edge_at(live, j, k) ==> if edge_key(nodes, live, j, k) == hole {
            rest.contains(live[j][k] as u32)
        } else {
            listed(slots, lists, edge_key(nodes, live, j, k), live[j][k])
        }
}

pub open spec fn counts_match(counts: Seq<u32>, tokens: Seq<Seq<u8>>) -> bool {
    forall|pair: (u8, u8)| counts[pair_key(pair)] == #[trigger] total_occurrences(tokens, pair)
}

pub open spec fn tokens_below(tokens: Seq<Seq<u8>>, bound: int) -> bool {
    forall|j: int, k: int| 0 <= j < tokens.len() && 0 <= k < tokens[j].len() ==> #[trigger] tokens[j][k] < bound
}

// ---------------------------------------------------------------- lemmas

pub open spec fn one_if(b: bool) -> nat {
    if b {
        1
    } else {
        0
    }
}

/// How many of the pairs around place `k` of `s`, the one that starts there first, are `pair`.
pub open spec fn lost(s: Seq<u8>, k: int, pair: (u8, u8)) -> nat {
    one_if(k > 0 && (s[k - 1], s[k]) == pair) + one_if((s[k], s[k + 1]) == pair) + one_if(
        k + 2 < s.len() && (s[k + 1], s[k + 2]) == pair,
    )
}

/// How many of the pairs around place `k` are `pair` once the pair there has become `token`.
pub open spec fn gained(s: Seq<u8>, k: int, token: u8, pair: (u8, u8)) -> nat {
    one_if(k > 0 && (s[k - 1], token) == pair) + one_if(k + 2 < s.len() && (token, s[k + 2]) == pair)
}

pub open spec fn merged(s: Seq<u8>, k: int, token: u8) -> Seq<u8> {
    s.take(k) + seq![token] + s.skip(k + 2)
}

proof fn lemma_merged_count(s: Seq<u8>, k: int, token: u8, pair: (u8, u8))
    requires
        0 <= k,
        k + 1 < s.len(),
    ensures
        occurrences(merged(s, k, token), pair) + lost(s, k, pair) == occurrences(s, pair) + gained(s, k, token, pair),
        lost(s, k, pair) <= occurrences(s, pair),
{
    let a = s.take(k);
    let m = seq![s[k], s[k + 1]];
    let t = seq![token];
    let b = s.skip(k + 2);
    assert(s =~= a + (m + b));
    assert(merged(s, k, token) =~= a + (t + b));
    lemma_occurrences_concat(a, m + b, pair);
    lemma_occurrences_concat(m, b, pair);
    lemma_occurrences_concat(a, t + b, pair);
    lemma_occurrences_concat(t, b, pair);
    assert(m.drop_last() =~= seq![s[k]]);
    assert(occurrences(m, pair) == occurrences(m.drop_last(), pair) + one_if((s[k], s[k + 1]) == pair));
    assert(occurrences(m.drop_last(), pair) == 0);
    assert(occurrences(t, pair) == 0);
    if a.len() > 0 {
        assert(a.last() == s[k - 1]);
    }
    if b.len() > 0 {
        assert(b[0] == s[k + 2]);
    }
    assert(m.last() == s[k + 1]);
    assert((m + b)[0] == s[k]);
    assert((t + b)[0] == token);
}

proof fn lemma_total_update(tokens: Seq<Seq<u8>>, j: int, s: Seq<u8>, pair: (u8, u8))
    requires
        0 <= j < tokens.len(),
    ensures
        total_occurrences(tokens.update(j, s), pair) + occurrences(tokens[j], pair) == total_occurrences(tokens, pair)
            + occurrences(s, pair),
        occurrences(tokens[j], pair) <= total_occurrences(tokens, pair),
    decreases tokens.len(),
{
    let after = tokens.update(j, s);
    if j == tokens.len() - 1 {
        assert(after.drop_last() =~= tokens.drop_last());
    } else {
        assert(after.drop_last() =~= tokens.drop_last().update(j, s));
        lemma_total_update(tokens.drop_last(), j, s, pair);
    }
}

proof fn lemma_total_merged(tokens: Seq<Seq<u8>>, j: int, k: int, token: u8, pair: (u8, u8))
    requires
        0 <= j < tokens.len(),
        0 <= k,
        k + 1 < tokens[j].len(),
    ensures
        total_occurrences(tokens.update(j, merged(tokens[j], k, token)), pair) + lost(tokens[j], k, pair)
            == total_occurrences(tokens, pair) + gained(tokens[j], k, token, pair),
        lost(tokens[j], k, pair) <= total_occurrences(tokens, pair),
{
    lemma_merged_count(tokens[j], k, token, pair);
    lemma_total_update(tokens, j, merged(tokens[j], k, token), pair);
}

proof fn lemma_known_bound(slots: Seq<u32>, known: Seq<u16>)
    requires
        slots.len() == PAIR_TABLE_SIZE,
        forall|s: int| 0 <= s < known.len() ==> slots[(#[trigger] known[s]) as int] == s,
    ensures
        known.len() <= PAIR_TABLE_SIZE,
{
    let keys = Seq::new(known.len(), |s: int| known[s] as int);
    assert(keys.no_duplicates()) by {
        assert forall|a: int, b: int| 0 <= a < keys.len() && 0 <= b < keys.len() && a != b implies keys[a] != keys[b] by {
            assert(slots[known[a] as int] == a);
            assert(slots[known[b] as int] == b);
        }
    }
    keys.unique_seq_to_set();
    let all = vstd::set_lib::set_int_range(0, PAIR_TABLE_SIZE as int);
    vstd::set_lib::lemma_int_range(0, PAIR_TABLE_SIZE as int);
    assert(keys.to_set().subset_of(all));
    vstd::set_lib::lemma_len_subset(keys.to_set(), all);
}

/// The lists after the node behind place `k` of list `j` has been taken out.
pub open spec fn without_next(live: Seq<Seq<int>>, j: int, k: int) -> Seq<Seq<int>> {
    live.update(j, live[j].remove(k + 1))
}

/// The nodes after the pair at place `k` of list `j` has become `token`.
pub open spec fn merged_nodes(
    nodes: Seq<TokenNode>,
    after: Seq<TokenNode>,
    live: Seq<Seq<int>>,
    j: int,
    k: int,
    token: u8,
) -> bool {
    let left = live[j][k];
    let right = live[j][k + 1];
    let more = k + 2 < live[j].len();
    &&& after.len() == nodes.len()
    &&& after[left].tok() == token
    &&& after[left].prev_gap() == nodes[left].prev_gap()
    &&& after[left].next_gap() == if more {
        live[j][k + 2] - left
    } else {
        0
    }
    &&& more ==> after[left].right_tok() == nodes[live[j][k + 2]].tok()
    &&& after[right].next_gap() == 0
    &&& more ==> {
        let next = live[j][k + 2];
        &&& after[next].tok() == nodes[next].tok()
        &&& after[next].prev_gap() == next - left
        &&& after[next].next_gap() == nodes[next].next_gap()
        &&& after[next].right_tok() == nodes[next].right_tok()
    }
    &&& k > 0 ==> {
        let prev = live[j][k - 1];
        &&& after[prev].tok() == nodes[prev].tok()
        &&& after[prev].prev_gap() == nodes[prev].prev_gap()
        &&& after[prev].next_gap() == nodes[prev].next_gap()
        &&& after[prev].right_tok() == token
    }
    &&& forall|i: int|
        0 <= i < nodes.len() && i != left && i != right && !(more && i == live[j][k + 2]) && !(k > 0 && i == live[j][k - 1])
            ==> #[trigger] after[i] == nodes[i]
}

/// Place `m` of a list, seen before the place after `k` was taken out.
pub open spec fn place_before(m: int, k: int) -> int {
    if m <= k {
        m
    } else {
        m + 1
    }
}

proof fn lemma_without_next(live: Seq<Seq<int>>, j: int, k: int)
    requires
        edge_at(live, j, k),
    ensures
        without_next(live, j, k).len() == live.len(),
        without_next(live, j, k)[j].len() == live[j].len() - 1,
        forall|m: int| 0 <= m < live[j].len() - 1 ==> #[trigger] without_next(live, j, k)[j][m] == live[j][place_before(m, k)],
        forall|l: int| 0 <= l < live.len() && l != j ==> #[trigger] without_next(live, j, k)[l] == live[l],
{
}

proof fn lemma_ordered_after(live: Seq<Seq<int>>, j: int, k: int)
    requires
        ordered(live),
        edge_at(live, j, k),
    ensures
        ordered(without_next(live, j, k)),
{
    let after = without_next(live, j, k);
    lemma_without_next(live, j, k);
    assert forall|l: int, a: int, b: int| in_list(after, l, a) && in_list(after, l, b) && a < b implies #[trigger] after[l][a]
        < #[trigger] after[l][b] <= after[l][a] + 255 by {
        let x = if l == j { place_before(a, k) } else { a };
        let y = if l == j { place_before(b, k) } else { b };
        assert(in_list(live, l, x) && in_list(live, l, y));
        assert(after[l][a] == live[l][x]);
        assert(after[l][b] == live[l][y]);
    }
    assert forall|l: int, m: int, a: int, b: int|
        #![trigger after[l][a], after[m][b]]
        in_list(after, l, a) && in_list(after, m, b) && l < m implies after[l][a] < after[m][b] by {
        let x = if l == j { place_before(a, k) } else { a };
        let y = if m == j { place_before(b, k) } else { b };
        assert(in_list(live, l, x) && in_list(live, m, y));
        assert(after[l][a] == live[l][x]);
        assert(after[m][b] == live[m][y]);
    }
}

/// Two places of the lists that hold the same node are the same place.
proof fn lemma_place_is_unique(live: Seq<Seq<int>>, j: int, a: int, l: int, b: int)
    requires
        ordered(live),
        in_list(live, j, a),
        in_list(live, l, b),
        live[j][a] == live[l][b],
    ensures
        j == l,
        a == b,
{
}

proof fn lemma_node_tokens_after(
    nodes: Seq<TokenNode>,
    after: Seq<TokenNode>,
    live: Seq<Seq<int>>,
    j: int,
    k: int,
    token: u8,
    l: int,
    m: int,
)
    requires
        links(nodes, live),
        edge_at(live, j, k),
        merged_nodes(nodes, after, live, j, k, token),
        in_list(live, l, m),
        !(l == j && m == k + 1),
    ensures
        0 <= live[l][m] < nodes.len(),
        after[live[l][m]].tok() == if l == j && m == k {
            token
        } else {
            nodes[live[l][m]].tok()
        },
        !(l == j && (m == k || m == k + 2 || m == k - 1)) ==> after[live[l][m]] == nodes[live[l][m]],
{
    let i = live[l][m];
    assert(linked(nodes, live, l, m));
    assert(in_list(live, j, k) && in_list(live, j, k + 1));
    if i == live[j][k] {
        lemma_place_is_unique(live, l, m, j, k);
    }
    if i == live[j][k + 1] {
        lemma_place_is_unique(live, l, m, j, k + 1);
    }
    if k + 2 < live[j].len() && i == live[j][k + 2] {
        lemma_place_is_unique(live, l, m, j, k + 2);
    }
    if k > 0 && i == live[j][k - 1] {
        lemma_place_is_unique(live, l, m, j, k - 1);
    }
}

proof fn lemma_linked_after(
    nodes: Seq<TokenNode>,
    after: Seq<TokenNode>,
    live: Seq<Seq<int>>,
    j: int,
    k: int,
    token: u8,
    l: int,
    m: int,
)
    requires
        links(nodes, live),
        edge_at(live, j, k),
        merged_nodes(nodes, after, live, j, k, token),
        in_list(without_next(live, j, k), l, m),
    ensures
        linked(after, without_next(live, j, k), l, m),
{
    let rest = without_next(live, j, k);
    lemma_without_next(live, j, k);
    let x = if l == j { place_before(m, k) } else { m };
    assert(in_list(live, l, x));
    assert(rest[l][m] == live[l][x]);
    assert(linked(nodes, live, l, x));
    lemma_node_tokens_after(nodes, after, live, j, k, token, l, x);
    if m + 1 < rest[l].len() {
        let y = if l == j { place_before(m + 1, k) } else { m + 1 };
        assert(in_list(live, l, y));
        assert(rest[l][m + 1] == live[l][y]);
        assert(linked(nodes, live, l, y));
        lemma_node_tokens_after(nodes, after, live, j, k, token, l, y);
    }
    if m > 0 {
        let z = if l == j { place_before(m - 1, k) } else { m - 1 };
        assert(in_list(live, l, z));
        assert(rest[l][m - 1] == live[l][z]);
    }
}

proof fn lemma_links_after(
    nodes: Seq<TokenNode>,
    after: Seq<TokenNode>,
    live: Seq<Seq<int>>,
    j: int,
    k: int,
    token: u8,
)
    requires
        links(nodes, live),
        edge_at(live, j, k),
        merged_nodes(nodes, after, live, j, k, token),
    ensures
        links(after, without_next(live, j, k)),
        list_tokens(after, without_next(live, j, k)) == list_tokens(nodes, live).update(
            j,
            merged(list_tokens(nodes, live)[j], k, token),
        ),
{
    let rest = without_next(live, j, k);
    lemma_without_next(live, j, k);
    lemma_ordered_after(live, j, k);
    assert forall|l: int, m: int| in_list(rest, l, m) implies #[trigger] linked(after, rest, l, m) by {
        lemma_linked_after(nodes, after, live, j, k, token, l, m);
    }
    assert forall|i: int| 0 <= i < after.len() && (#[trigger] after[i]).next_gap() != 0 implies has_edge(rest, i) by {
        if i == live[j][k] {
            assert(edge_at(rest, j, k));
            assert(rest[j][k] == live[j][place_before(k, k)]);
        } else {
            assert(nodes[i].next_gap() != 0) by {
                if k > 0 && i == live[j][k - 1] {
                } else if k + 2 < live[j].len() && i == live[j][k + 2] {
                } else {
                    assert(after[i] == nodes[i]);
                }
            }
            let (l, m) = choose|l: int, m: int| #[trigger] edge_at(live, l, m) && live[l][m] == i;
            if l != j {
                assert(edge_at(rest, l, m) && rest[l][m] == i);
            } else {
                assert(m != k && m != k + 1);
                let n = if m < k { m } else { m - 1 };
                assert(place_before(n, k) == m);
                assert(rest[j][n] == live[j][place_before(n, k)]);
                assert(edge_at(rest, l, n) && rest[l][n] == i);
            }
        }
    }
    let before = list_tokens(nodes, live);
    let goal = before.update(j, merged(before[j], k, token));
    let got = list_tokens(after, rest);
    assert(got.len() == goal.len());
    assert forall|l: int| 0 <= l < got.len() implies got[l] == goal[l] by {
        assert(got[l].len() == goal[l].len());
        assert forall|m: int| 0 <= m < got[l].len() implies got[l][m] == goal[l][m] by {
            let x = if l == j { place_before(m, k) } else { m };
            assert(in_list(live, l, x));
            assert(rest[l][m] == live[l][x]);
            lemma_node_tokens_after(nodes, after, live, j, k, token, l, x);
        }
        assert(got[l] =~= goal[l]);
    }
    assert(got =~= goal);
}

/// The pairs that the merge leaves alone are still listed, and the new ones are.
proof fn lemma_edges_after(
    nodes: Seq<TokenNode>,
    after: Seq<TokenNode>,
    live: Seq<Seq<int>>,
    j: int,
    k: int,
    token: u8,
    slots: Seq<u32>,
    lists: Seq<PackedOccurrences>,
    new_slots: Seq<u32>,
    new_lists: Seq<PackedOccurrences>,
    hole: int,
    rest: Seq<u32>,
)
    requires
        links(nodes, live),
        edge_at(live, j, k),
        merged_nodes(nodes, after, live, j, k, token),
        edges_listed(nodes, live, slots, lists, hole, rest),
        forall|p: int, i: int| 0 <= p < PAIR_TABLE_SIZE && listed(slots, lists, p, i) ==> #[trigger] listed(new_slots, new_lists, p, i),
        k > 0 ==> {
            let p = pair_key((nodes[live[j][k - 1]].tok(), token));
            p != hole && listed(new_slots, new_lists, p, live[j][k - 1])
        },
        k + 2 < live[j].len() ==> {
            let p = pair_key((token, nodes[live[j][k + 2]].tok()));
            p != hole && listed(new_slots, new_lists, p, live[j][k])
        },
    ensures
        edges_listed(after, without_next(live, j, k), new_slots, new_lists, hole, rest),
{
    let fewer = without_next(live, j, k);
    lemma_without_next(live, j, k);
    assert forall|l: int, m: int| #[trigger] edge_at(fewer, l, m) implies if edge_key(after, fewer, l, m) == hole {
        rest.contains(fewer[l][m] as u32)
    } else {
        listed(new_slots, new_lists, edge_key(after, fewer, l, m), fewer[l][m])
    } by {
        let x = if l == j { place_before(m, k) } else { m };
        let y = if l == j { place_before(m + 1, k) } else { m + 1 };
        assert(in_list(live, l, x) && in_list(live, l, y));
        assert(fewer[l][m] == live[l][x]);
        assert(fewer[l][m + 1] == live[l][y]);
        lemma_node_tokens_after(nodes, after, live, j, k, token, l, x);
        lemma_node_tokens_after(nodes, after, live, j, k, token, l, y);
        if l == j && (m == k || m + 1 == k) {
        } else {
            assert(y == x + 1);
            assert(edge_at(live, l, x));
            assert(edge_key(after, fewer, l, m) == edge_key(nodes, live, l, x));
        }
    }
}

/// What the search for the most frequent pair returns, with the pair as two tokens.
pub open spec fn as_pair(result: Option<(u16, u32)>) -> Option<(u8, u8, u32)> {
    match result {
        Some((pair, count)) => Some(((pair / 256) as u8, (pair % 256) as u8, count)),
        None => None,
    }
}

proof fn lemma_total_pairs_update(tokens: Seq<Seq<u8>>, j: int, s: Seq<u8>)
    requires
        0 <= j < tokens.len(),
    ensures
        total_pairs(tokens.update(j, s)) + pairs_of(tokens[j]) == total_pairs(tokens) + pairs_of(s),
    decreases tokens.len(),
{
    let after = tokens.update(j, s);
    if j == tokens.len() - 1 {
        assert(after.drop_last() =~= tokens.drop_last());
    } else {
        assert(after.drop_last() =~= tokens.drop_last().update(j, s));
        lemma_total_pairs_update(tokens.drop_last(), j, s);
    }
}

/// The index of the first node of name `j`.
pub open spec fn base(names: Seq<Seq<u8>>, j: int) -> int {
    total_len(names.take(j)) as int
}

/// The lists before any rule: each name's nodes one after another.
pub open spec fn first_lists(names: Seq<Seq<u8>>) -> Seq<Seq<int>> {
    Seq::new(names.len(), |j: int| Seq::new(names[j].len(), |k: int| base(names, j) + k))
}

/// Node `x` is byte `place.1` of name `place.0`, linked to the nodes of that name that are there.
pub open spec fn node_is(nodes: Seq<TokenNode>, names: Seq<Seq<u8>>, x: int, place: (int, int)) -> bool {
    let j = place.0;
    let k = place.1;
    let more = k + 1 < names[j].len() && x + 1 < nodes.len();
    &&& 0 <= j < names.len()
    &&& 0 <= k < names[j].len()
    &&& x == base(names, j) + k
    &&& nodes[x].tok() == names[j][k]
    &&& nodes[x].prev_gap() == if k > 0 {
        1int
    } else {
        0
    }
    &&& nodes[x].next_gap() == if more {
        1int
    } else {
        0
    }
    &&& more ==> nodes[x].right_tok() == names[j][k + 1]
}

pub open spec fn laid_out(nodes: Seq<TokenNode>, names: Seq<Seq<u8>>, places: Seq<(int, int)>) -> bool {
    &&& places.len() == nodes.len()
    &&& forall|x: int| 0 <= x < nodes.len() ==> #[trigger] node_is(nodes, names, x, places[x])
}

pub open spec fn placed(nodes: int, names: Seq<Seq<u8>>, places: Seq<(int, int)>, j: int, k: int) -> bool {
    &&& base(names, j) + k < nodes
    &&& places[base(names, j) + k] == (j, k)
}

proof fn lemma_base_order(names: Seq<Seq<u8>>, j: int, l: int)
    requires
        0 <= j < l <= names.len(),
    ensures
        base(names, j) + names[j].len() <= base(names, l),
    decreases l - j,
{
    lemma_total_len_take(names, j);
    if j + 1 < l {
        lemma_base_order(names, j + 1, l);
    }
}

proof fn lemma_laid_out_links(nodes: Seq<TokenNode>, names: Seq<Seq<u8>>, places: Seq<(int, int)>)
    requires
        incremental_fits(names),
        nodes.len() == base(names, names.len() as int),
        laid_out(nodes, names, places),
        forall|j: int, k: int|
            0 <= j < names.len() && 0 <= k < names[j].len() ==> placed(nodes.len() as int, names, places, j, k),
    ensures
        links(nodes, first_lists(names)),
        list_tokens(nodes, first_lists(names)) == names,
{
    let live = first_lists(names);
    assert(names.take(names.len() as int) =~= names);
    assert forall|j: int, k: int| in_list(live, j, k) implies #[trigger] linked(nodes, live, j, k) && nodes[live[j][k]].tok()
        == names[j][k] by {
        assert(placed(nodes.len() as int, names, places, j, k));
        let x = base(names, j) + k;
        assert(node_is(nodes, names, x, places[x]));
        if k + 1 < names[j].len() {
            assert(placed(nodes.len() as int, names, places, j, k + 1));
            assert(node_is(nodes, names, x + 1, places[x + 1]));
        }
    }
    assert forall|j: int, a: int, b: int| in_list(live, j, a) && in_list(live, j, b) && a < b implies #[trigger] live[j][a]
        < #[trigger] live[j][b] <= live[j][a] + 255 by {
        assert(names[j].len() <= MAX_INCREMENTAL_NAME_LEN);
    }
    assert forall|j: int, l: int, a: int, b: int|
        #![trigger live[j][a], live[l][b]]
        in_list(live, j, a) && in_list(live, l, b) && j < l implies live[j][a] < live[l][b] by {
        lemma_base_order(names, j, l);
    }
    assert forall|i: int| 0 <= i < nodes.len() && (#[trigger] nodes[i]).next_gap() != 0 implies has_edge(live, i) by {
        let (j, k) = places[i];
        assert(node_is(nodes, names, i, places[i]));
        assert(edge_at(live, j, k) && live[j][k] == i);
    }
    let got = list_tokens(nodes, live);
    assert forall|j: int| 0 <= j < names.len() implies got[j] == names[j] by {
        assert forall|k: int| 0 <= k < names[j].len() implies got[j][k] == names[j][k] by {
            assert(in_list(live, j, k));
            assert(linked(nodes, live, j, k));
        }
        assert(got[j] =~= names[j]);
    }
    assert(got =~= names);
}

// ---------------------------------------------------------------- the construction

pub struct IncrementalBpe {
    nodes: Vec<TokenNode>,
    heads: Vec<u32>,
    pair_counts: Vec<u32>,
    pair_occurrences: Vec<PackedOccurrences>,
    pair_slots: Vec<u32>,
    known_pairs: Vec<u16>,
    live: Ghost<Seq<Seq<int>>>,
}

impl IncrementalBpe {
    /// The tokens of each name.
    pub closed spec fn tokens(self) -> Seq<Seq<u8>> {
        list_tokens(self.nodes@, self.live@)
    }

    closed spec fn tables_ok(self) -> bool {
        slots_ok(
            self.pair_slots@,
            self.known_pairs@,
            self.pair_occurrences@,
            self.pair_counts@,
            self.nodes.len() as int,
        )
    }

    closed spec fn heads_ok(self) -> bool {
        &&& self.heads.len() == self.live@.len()
        &&& forall|j: int|
            0 <= j < self.heads.len() ==> #[trigger] self.heads@[j] == if self.live@[j].len() > 0 {
                self.live@[j][0]
            } else {
                NO_NODE as int
            }
    }

    /// All but the list of places of the pair `hole`, whose remaining places are `rest`.
    closed spec fn wf_but(self, hole: int, rest: Seq<u32>) -> bool {
        &&& links(self.nodes@, self.live@)
        &&& self.tables_ok()
        &&& self.heads_ok()
        &&& counts_match(self.pair_counts@, self.tokens())
        &&& edges_listed(self.nodes@, self.live@, self.pair_slots@, self.pair_occurrences@, hole, rest)
        &&& total_pairs(self.tokens()) <= u32::MAX
    }

    pub closed spec fn wf(self) -> bool {
        self.wf_but(-1, Seq::empty())
    }

    /// Links the names up and notes where each pair stands.
    pub fn new(names: &[&[u8]]) -> (bpe: Self)
        requires
            incremental_fits(contents(names@)),
        ensures
            bpe.wf(),
            bpe.tokens() == contents(names@),
    {
        let ghost all = contents(names@);
        let mut nodes: Vec<TokenNode> = Vec::new();
        let mut heads: Vec<u32> = Vec::new();
        let ghost mut places: Seq<(int, int)> = Seq::empty();
        let mut i: usize = 0;
        while i < names.len()
            invariant
                all == contents(names@),
                incremental_fits(all),
                i <= names.len(),
                heads.len() == i,
                forall|j: int|
                    0 <= j < i ==> #[trigger] heads@[j] == if all[j].len() > 0 {
                        base(all, j)
                    } else {
                        NO_NODE as int
                    },
                nodes.len() == base(all, i as int),
                laid_out(nodes@, all, places),
                forall|j: int, k: int|
                    0 <= j < i && 0 <= k < all[j].len() ==> placed(nodes.len() as int, all, places, j, k),
                forall|x: int| 0 <= x < places.len() ==> (#[trigger] places[x]).0 < i,
            decreases names.len() - i,
        {
            let name: &[u8] = names[i];
            proof {
                assert(name@ == all[i as int]);
                lemma_total_len_take(all, i as int);
                lemma_total_len_take(all, i + 1);
                assert(all[i as int].len() <= MAX_INCREMENTAL_NAME_LEN);
            }
            let head: u32 = if name.len() == 0 {
                NO_NODE
            } else {
                nodes.len() as u32
            };
            heads.push(head);
            let mut prev: u32 = NO_NODE;
            let mut n: usize = 0;
            while n < name.len()
                invariant
                    all == contents(names@),
                    incremental_fits(all),
                    i < names.len(),
                    name@ == all[i as int],
                    n <= name.len(),
                    base(all, i + 1) == base(all, i as int) + name.len(),
                    base(all, i + 1) < PACKED_INDEX_LIMIT,
                    nodes.len() == base(all, i as int) + n,
                    prev == if n > 0 {
                        nodes.len() - 1
                    } else {
                        NO_NODE as int
                    },
                    laid_out(nodes@, all, places),
                    forall|j: int, k: int|
                        (0 <= j < i && 0 <= k < all[j].len()) || (j == i && 0 <= k < n) ==> placed(
                            nodes.len() as int,
                            all,
                            places,
                            j,
                            k,
                        ),
                    forall|x: int| 0 <= x < places.len() ==> (#[trigger] places[x]).0 < i || (places[x].0 == i && places[x].1 < n),
                decreases name.len() - n,
            {
                let token: u8 = name[n];
                let index: u32 = nodes.len() as u32;
                let ghost shorter = nodes@;
                let ghost earlier = places;
                nodes.push(TokenNode::new(prev, token));
                if prev != NO_NODE {
                    nodes[prev as usize].set_next(prev, index, token);
                }
                proof {
                    places = places.push((i as int, n as int));
                    assert forall|x: int| 0 <= x < nodes.len() implies #[trigger] node_is(nodes@, all, x, places[x]) by {
                        if x + 1 < index {
                            assert(node_is(shorter, all, x, earlier[x]));
                            assert(nodes@[x] == shorter[x]);
                        } else if x + 1 == index {
                            assert(node_is(shorter, all, x, earlier[x]));
                            let (j, k) = earlier[x];
                            if n > 0 {
                                assert(placed(shorter.len() as int, all, earlier, i as int, n - 1));
                            } else if k + 1 < all[j].len() {
                                assert(earlier[x].0 < i);
                                assert(placed(shorter.len() as int, all, earlier, j, k + 1));
                            }
                        }
                    }
                    assert forall|j: int, k: int|
                        (0 <= j < i && 0 <= k < all[j].len()) || (j == i && 0 <= k < n + 1) implies placed(
                        nodes.len() as int,
                        all,
                        places,
                        j,
                        k,
                    ) by {
                        if !(j == i && k == n) {
                            assert(placed(shorter.len() as int, all, earlier, j, k));
                        }
                    }
                }
                prev = index;
                n += 1;
            }
            i += 1;
        }
        assert(all.take(i as int) =~= all);
        let mut bpe = IncrementalBpe {
            nodes,
            heads,
            pair_counts: vec![0u32; PAIR_TABLE_SIZE],
            pair_occurrences: Vec::new(),
            pair_slots: vec![NO_PAIR_SLOT; PAIR_TABLE_SIZE],
            known_pairs: Vec::new(),
            live: Ghost(first_lists(all)),
        };
        proof {
            lemma_laid_out_links(bpe.nodes@, all, places);
        }
        assert(bpe.tables_ok());
        let mut i: usize = 0;
        let mut start: usize = 0;
        assert(all.take(0) =~= Seq::<Seq<u8>>::empty());
        while i < names.len()
            invariant
                all == contents(names@),
                i <= names.len(),
                start == base(all, i as int),
                links(bpe.nodes@, bpe.live@),
                bpe.live@ == first_lists(all),
                bpe.tokens() == all,
                bpe.heads_ok(),
                bpe.tables_ok(),
                bpe.nodes.len() == base(all, all.len() as int),
                bpe.nodes.len() < PACKED_INDEX_LIMIT,
                forall|pair: (u8, u8)|
                    bpe.pair_counts@[pair_key(pair)] == #[trigger] total_occurrences(all.take(i as int), pair),
                forall|j: int, k: int|
                    j < i && #[trigger] edge_at(bpe.live@, j, k) ==> listed(
                        bpe.pair_slots@,
                        bpe.pair_occurrences@,
                        pair_key((all[j][k], all[j][k + 1])),
                        bpe.live@[j][k],
                    ),
            decreases names.len() - i,
        {
            let name: &[u8] = names[i];
            proof {
                assert(name@ == all[i as int]);
                lemma_total_len_take(all, i as int);
                lemma_total_len_take(all, i + 1);
                lemma_total_pairs_le_len(all);
                assert(all.take(all.len() as int) =~= all);
                assert forall|pair: (u8, u8)| #[trigger] counted(all, i as int, 1, pair) == total_occurrences(
                    all.take(i as int),
                    pair,
                ) by {}
            }
            let mut n: usize = 1;
            while n < name.len()
                invariant
                    all == contents(names@),
                    i < names.len(),
                    name@ == all[i as int],
                    1 <= n,
                    n <= name.len() || n == 1,
                    start == base(all, i as int),
                    start + name.len() <= base(all, all.len() as int),
                    total_pairs(all) <= base(all, all.len() as int),
                    links(bpe.nodes@, bpe.live@),
                    bpe.live@ == first_lists(all),
                    bpe.tokens() == all,
                    bpe.heads_ok(),
                    bpe.tables_ok(),
                    bpe.nodes.len() == base(all, all.len() as int),
                    bpe.nodes.len() < PACKED_INDEX_LIMIT,
                    forall|pair: (u8, u8)|
                        bpe.pair_counts@[pair_key(pair)] == #[trigger] counted(all, i as int, n as int, pair),
                    forall|j: int, k: int|
                        (j < i || (j == i && k + 1 < n)) && #[trigger] edge_at(bpe.live@, j, k) ==> listed(
                            bpe.pair_slots@,
                            bpe.pair_occurrences@,
                            pair_key((all[j][k], all[j][k + 1])),
                            bpe.live@[j][k],
                        ),
                decreases name.len() - n,
            {
                let ghost here = (name@[n - 1], name@[n as int]);
                let pair: u16 = (name[n - 1] as u16) * 256 + name[n] as u16;
                let left: u32 = (start + n - 1) as u32;
                let ghost before = bpe;
                proof {
                    assert forall|p: (u8, u8)| #[trigger] counted(all, i as int, n + 1, p) == counted(
                        all,
                        i as int,
                        n as int,
                        p,
                    ) + if p == here {
                        1nat
                    } else {
                        0
                    } by {
                        lemma_counted_step(all, i as int, n as int, p);
                    }
                    lemma_counted_bound(all, i as int, n as int, here);
                    lemma_total_bound(all, here);
                    assert(pair_key(here) == pair);
                    assert(bpe.pair_counts@[pair_key(here)] == counted(all, i as int, n as int, here));
                }
                bpe.add_occurrence(pair, left);
                proof {
                    assert forall|j: int, k: int|
                        (j < i || (j == i && k + 1 < n + 1)) && #[trigger] edge_at(bpe.live@, j, k) implies listed(
                        bpe.pair_slots@,
                        bpe.pair_occurrences@,
                        pair_key((all[j][k], all[j][k + 1])),
                        bpe.live@[j][k],
                    ) by {
                        if !(j == i && k + 1 == n) {
                            assert(listed(
                                before.pair_slots@,
                                before.pair_occurrences@,
                                pair_key((all[j][k], all[j][k + 1])),
                                bpe.live@[j][k],
                            ));
                        }
                    }
                }
                n += 1;
            }
            proof {
                assert forall|pair: (u8, u8)| #[trigger] total_occurrences(all.take(i + 1), pair) == counted(
                    all,
                    i as int,
                    n as int,
                    pair,
                ) by {
                    lemma_counted_full(all, i as int, n as int, pair);
                }
            }
            start = start + name.len();
            i += 1;
        }
        proof {
            assert(all.take(i as int) =~= all);
            lemma_total_pairs_le_len(all);
            assert forall|j: int, k: int| #[trigger] edge_at(bpe.live@, j, k) implies listed(
                bpe.pair_slots@,
                bpe.pair_occurrences@,
                edge_key(bpe.nodes@, bpe.live@, j, k),
                bpe.live@[j][k],
            ) && edge_key(bpe.nodes@, bpe.live@, j, k) != -1 by {
                assert(bpe.tokens()[j][k] == all[j][k]);
                assert(bpe.tokens()[j][k + 1] == all[j][k + 1]);
            }
        }
        bpe
    }

    /// Learns the rules, applies them, and reads the tokens of each name off its list.
    pub fn build(self) -> (result: (Vec<[u8; 2]>, Vec<Vec<u8>>))
        requires
            self.wf(),
            all_ascii(self.tokens()),
        ensures
            rule_pairs(result.0@) == learned(self.tokens(), 0).0,
            token_views(result.1@) == learned(self.tokens(), 0).1,
    {
        let mut bpe = self;
        let ghost start = self.tokens();
        let mut rules: Vec<[u8; 2]> = Vec::new();
        let mut learning = true;
        assert(rule_pairs(rules@) =~= Seq::<(u8, u8)>::empty());
        while learning && rules.len() < MAX_RULES
            invariant
                rules.len() <= MAX_RULES,
                bpe.wf(),
                tokens_below(bpe.tokens(), 0x80 + rules.len()),
                learned(start, 0).0 == rule_pairs(rules@) + learned(bpe.tokens(), rules.len() as nat).0,
                learned(start, 0).1 == learned(bpe.tokens(), rules.len() as nat).1,
                !learning ==> learned(bpe.tokens(), rules.len() as nat) == (Seq::<(u8, u8)>::empty(), bpe.tokens()),
            decreases (MAX_RULES - rules.len()) + (if learning { 1int } else { 0int }),
        {
            let best: Option<(u16, u32)> = bpe.most_frequent_pair();
            let ghost before = bpe.tokens();
            proof {
                lemma_next_rule(before, as_pair(best));
            }
            match best {
                Some((pair, count)) => {
                    if count > 1 {
                        let left_token: u8 = (pair / 256) as u8;
                        let right_token: u8 = (pair % 256) as u8;
                        let new_token: u8 = TOKEN_BASE + rules.len() as u8;
                        let ghost old_rules = rule_pairs(rules@);
                        let rule: [u8; 2] = [left_token, right_token];
                        rules.push(rule);
                        proof {
                            lemma_total_occurring_tokens(before, (left_token, right_token), new_token as int);
                        }
                        bpe.replace_pair(pair, new_token);
                        proof {
                            let after = bpe.tokens();
                            assert(rule_pairs(rules@) =~= old_rules + seq![(left_token, right_token)]);
                            let rest = learned(after, rules.len() as nat).0;
                            assert(old_rules + (seq![(left_token, right_token)] + rest) =~= rule_pairs(rules@) + rest);
                            assert forall|j: int, k: int| 0 <= j < after.len() && 0 <= k < after[j].len() implies #[trigger] after[j][k]
                                < 0x80 + rules.len() by {
                                assert forall|m: int| 0 <= m < before[j].len() implies before[j][m] < 0x80 + rules.len() by {
                                    assert(before[j][m] < new_token);
                                }
                                lemma_replaced_bound(before[j], (left_token, right_token), new_token, 0x80 + rules.len() as int);
                            }
                        }
                    } else {
                        learning = false;
                    }
                },
                None => {
                    learning = false;
                },
            }
        }
        proof {
            let rest = learned(bpe.tokens(), rules.len() as nat);
            assert(rest == (Seq::<(u8, u8)>::empty(), bpe.tokens()));
            assert(rule_pairs(rules@) + rest.0 =~= rule_pairs(rules@));
        }
        let mut encoded: Vec<Vec<u8>> = Vec::new();
        let mut j: usize = 0;
        while j < bpe.heads.len()
            invariant
                bpe.wf(),
                j <= bpe.heads.len(),
                encoded.len() == j,
                forall|l: int| 0 <= l < j ==> (#[trigger] encoded@[l])@ == bpe.tokens()[l],
            decreases bpe.heads.len() - j,
        {
            let mut sequence: Vec<u8> = Vec::new();
            let mut current: u32 = bpe.heads[j];
            while current != NO_NODE
                invariant
                    bpe.wf(),
                    j < bpe.heads.len(),
                    sequence.len() <= bpe.live@[j as int].len(),
                    sequence@ == bpe.tokens()[j as int].take(sequence.len() as int),
                    current == if sequence.len() < bpe.live@[j as int].len() {
                        bpe.live@[j as int][sequence.len() as int]
                    } else {
                        NO_NODE as int
                    },
                decreases bpe.live@[j as int].len() - sequence.len(),
            {
                assert(in_list(bpe.live@, j as int, sequence.len() as int)) by {
                    assert(sequence.len() < bpe.live@[j as int].len());
                }
                assert(linked(bpe.nodes@, bpe.live@, j as int, sequence.len() as int));
                proof {
                    if sequence.len() + 1 < bpe.live@[j as int].len() {
                        assert(in_list(bpe.live@, j as int, sequence.len() + 1));
                        assert(linked(bpe.nodes@, bpe.live@, j as int, sequence.len() + 1));
                    }
                }
                let node: TokenNode = bpe.nodes[current as usize];
                let ghost done = sequence@;
                sequence.push(node.token());
                assert(sequence@ =~= bpe.tokens()[j as int].take(sequence.len() as int));
                current = node.next(current);
            }
            proof {
                if sequence.len() < bpe.live@[j as int].len() {
                    assert(in_list(bpe.live@, j as int, sequence.len() as int));
                    assert(linked(bpe.nodes@, bpe.live@, j as int, sequence.len() as int));
                }
            }
            assert(sequence@ =~= bpe.tokens()[j as int]);
            encoded.push(sequence);
            j += 1;
        }
        assert(token_views(encoded@) =~= bpe.tokens());
        (rules, encoded)
    }

    fn most_frequent_pair(&self) -> (result: Option<(u16, u32)>)
        requires
            self.wf(),
        ensures
            is_most_frequent(self.tokens(), as_pair(result)),
            result matches Some((pair, _)) ==> self.pair_slots@[pair as int] != NO_PAIR_SLOT,
    {
        let mut best_pair: u16 = 0;
        let mut best_count: u32 = 0;
        let mut s: usize = 0;
        while s < self.known_pairs.len()
            invariant
                self.wf(),
                s <= self.known_pairs.len(),
                forall|k: int|
                    0 <= k < s ==> self.pair_counts@[(#[trigger] self.known_pairs@[k]) as int] == 0 || ranked(
                        self.pair_counts@[self.known_pairs@[k] as int] as nat,
                        self.known_pairs@[k] as int,
                        best_count as nat,
                        best_pair as int,
                    ),
                best_count > 0 ==> self.pair_counts@[best_pair as int] == best_count,
            decreases self.known_pairs.len() - s,
        {
            let pair: u16 = self.known_pairs[s];
            let count: u32 = self.pair_counts[pair as usize];
            if count > best_count || (count == best_count && pair > best_pair) {
                best_pair = pair;
                best_count = count;
            }
            s += 1;
        }
        let ghost tokens = self.tokens();
        assert forall|pair: (u8, u8)| #[trigger] total_occurrences(tokens, pair) > 0 implies ranked(
            total_occurrences(tokens, pair),
            pair_key(pair),
            best_count as nat,
            best_pair as int,
        ) by {
            let p = pair_key(pair);
            assert(self.pair_counts@[p] == total_occurrences(tokens, pair));
            assert(self.pair_slots@[p] != NO_PAIR_SLOT);
            let slot = self.pair_slots@[p] as int;
            assert(self.known_pairs@[slot] == p);
        }
        if best_count != 0 {
            proof {
                let found = ((best_pair / 256) as u8, (best_pair % 256) as u8);
                assert(pair_key(found) == best_pair);
                assert(self.pair_counts@[pair_key(found)] == total_occurrences(tokens, found));
            }
            Some((best_pair, best_count))
        } else {
            None
        }
    }

    /// The pair that starts at node `left`.
    fn edge_pair(&self, left: u32) -> (result: Option<u16>)
        requires
            links(self.nodes@, self.live@),
            left < self.nodes.len(),
        ensures
            result is Some ==> has_edge(self.live@, left as int),
            forall|j: int, k: int|
                #[trigger] edge_at(self.live@, j, k) && self.live@[j][k] == left ==> result == Some(
                    edge_key(self.nodes@, self.live@, j, k) as u16,
                ),
    {
        let node: TokenNode = self.nodes[left as usize];
        proof {
            assert forall|j: int, k: int| #[trigger] edge_at(self.live@, j, k) && self.live@[j][k] == left implies node.next_gap() > 0
                && node.tok() * 256 + node.right_tok() == edge_key(self.nodes@, self.live@, j, k) by {
                assert(in_list(self.live@, j, k) && in_list(self.live@, j, k + 1));
                assert(linked(self.nodes@, self.live@, j, k));
            }
        }
        if node.next(left) == NO_NODE {
            return None;
        }
        Some((node.token() as u16) * 256 + node.right_token() as u16)
    }

    /// Applies one rule everywhere.
    fn replace_pair(&mut self, pair: u16, new_token: u8)
        requires
            old(self).wf(),
            old(self).pair_slots@[pair as int] != NO_PAIR_SLOT,
            (pair / 256) < new_token,
            (pair % 256) < new_token,
        ensures
            final(self).wf(),
            final(self).tokens() == all_replaced(
                old(self).tokens(),
                ((pair / 256) as u8, (pair % 256) as u8),
                new_token,
            ),
    {
        let left_token: u8 = (pair / 256) as u8;
        let right_token: u8 = (pair % 256) as u8;
        let ghost rule = (left_token, right_token);
        assert(pair_key(rule) == pair);
        let slot: usize = self.pair_slots[pair as usize] as usize;
        let mut taken = PackedOccurrences::new();
        std::mem::swap(&mut taken, &mut self.pair_occurrences[slot]);
        let mut places: Vec<u32> = Vec::new();
        let mut e: usize = 0;
        while e < taken.len()
            invariant
                e <= taken@.len(),
                places@ == taken@.take(e as int),
            decreases taken@.len() - e,
        {
            places.push(taken.get(e));
            e += 1;
            assert(places@ =~= taken@.take(e as int));
        }
        assert(places@ =~= taken@);
        let ghost unsorted = places@;
        // Only a pair of two equal tokens can overlap itself; its places are taken from the left.
        if left_token == right_token {
            sort_ascending(&mut places);
        }
        proof {
            assert forall|x: u32| #[trigger] places@.contains(x) == unsorted.contains(x) by {
                vstd::seq_lib::to_multiset_contains(unsorted, x);
                vstd::seq_lib::to_multiset_contains(places@, x);
            }
            assert forall|d: int| 0 <= d < places.len() implies #[trigger] places@[d] < self.nodes.len() by {
                assert(places@.contains(places@[d]));
                let f = choose|f: int| 0 <= f < unsorted.len() && unsorted[f] == places@[d];
                assert(old(self).pair_occurrences@[slot as int]@[f] < self.nodes.len());
            }
            assert forall|j: int, k: int| #[trigger] edge_at(self.live@, j, k) implies if edge_key(self.nodes@, self.live@, j, k)
                == pair {
                places@.contains(self.live@[j][k] as u32)
            } else {
                listed(
                    self.pair_slots@,
                    self.pair_occurrences@,
                    edge_key(self.nodes@, self.live@, j, k),
                    self.live@[j][k],
                )
            } by {
                let p = edge_key(self.nodes@, self.live@, j, k);
                assert(p != -1);
                assert(listed(old(self).pair_slots@, old(self).pair_occurrences@, p, self.live@[j][k]));
                if p != pair {
                    assert(self.known_pairs@[self.pair_slots@[p] as int] == p);
                    assert(self.known_pairs@[slot as int] == pair);
                }
            }
            assert(places@.skip(0) =~= places@);
            assert forall|s: int, f: int| 0 <= s < self.pair_occurrences.len() && 0 <= f < self.pair_occurrences@[s]@.len() implies #[trigger] self.pair_occurrences@[s]@[f]
                < self.nodes.len() by {
                assert(s != slot);
                assert(old(self).pair_occurrences@[s]@[f] < self.nodes.len());
            }
            assert(self.tables_ok());
        }
        let ghost before = self.tokens();
        let mut e: usize = 0;
        while e < places.len()
            invariant
                e <= places.len(),
                self.wf_but(pair as int, places@.skip(e as int)),
                pair_key(rule) == pair,
                rule.0 < new_token,
                rule.1 < new_token,
                forall|d: int| 0 <= d < places.len() ==> #[trigger] places@[d] < self.nodes.len(),
                rule.0 == rule.1 ==> forall|a: int, b: int| 0 <= a < b < places.len() ==> places@[a] <= places@[b],
                self.tokens().len() == before.len(),
                forall|j: int|
                    0 <= j < before.len() ==> replaced(#[trigger] self.tokens()[j], rule, new_token) == replaced(
                        before[j],
                        rule,
                        new_token,
                    ),
            decreases places.len() - e,
        {
            let left: u32 = places[e];
            let ghost rest = places@.skip(e as int);
            let ghost fewer = places@.skip(e + 1);
            assert(places@[e as int] < self.nodes.len());
            let found: Option<u16> = self.edge_pair(left);
            assert forall|x: u32| x != left && rest.contains(x) implies #[trigger] fewer.contains(x) by {
                let d = choose|d: int| 0 <= d < rest.len() && rest[d] == x;
                assert(fewer[d - 1] == x);
            }
            let hit: bool = match found {
                Some(p) => p == pair,
                None => false,
            };
            if hit {
                let ghost (j, k) = choose|j: int, k: int| #[trigger] edge_at(self.live@, j, k) && self.live@[j][k] == left;
                let ghost tokens = self.tokens();
                let ghost lists_before = self.live@;
                proof {
                    assert(edge_at(self.live@, j, k) && self.live@[j][k] == left);
                    assert(edge_key(self.nodes@, self.live@, j, k) == pair);
                    let s = tokens[j];
                    assert(s[k] == rule.0 && s[k + 1] == rule.1);
                    let a = s.take(k);
                    let b = s.skip(k + 2);
                    assert(s =~= a + seq![rule.0, rule.1] + b);
                    if rule.0 == rule.1 {
                        assert forall|m: int| 0 <= m < a.len() implies !(#[trigger] a[m] == rule.0 && (m + 1 < a.len() ==> a[m + 1]
                            == rule.1)) by {
                            if a[m] == rule.0 && (m + 1 < a.len() ==> a[m + 1] == rule.1) {
                                assert(edge_at(self.live@, j, m));
                                assert(s[m] == rule.0 && s[m + 1] == rule.1);
                                assert(edge_key(self.nodes@, self.live@, j, m) == pair);
                                assert(rest.contains(self.live@[j][m] as u32));
                                let d = choose|d: int| 0 <= d < rest.len() && rest[d] == self.live@[j][m] as u32;
                                assert(places@[e as int] <= places@[e + d]);
                                assert(in_list(self.live@, j, m) && in_list(self.live@, j, k));
                                assert(self.live@[j][m] < self.live@[j][k]);
                                assert(linked(self.nodes@, self.live@, j, m));
                                assert(false);
                            }
                        }
                    }
                    lemma_replace_one_first(a, b, rule, new_token);
                    assert(merged(s, k, new_token) =~= a + seq![new_token] + b);
                }
                self.replace_at(left, pair, new_token, Ghost(j), Ghost(k), Ghost(rest));
                proof {
                    lemma_without_next(lists_before, j, k);
                    assert forall|l: int, m: int| #[trigger] edge_at(self.live@, l, m) && edge_key(self.nodes@, self.live@, l, m)
                        == pair implies self.live@[l][m] != left by {
                        if self.live@[l][m] == left {
                            assert(self.live@[j][k] == lists_before[j][place_before(k, k)]);
                            assert(in_list(self.live@, j, k));
                            lemma_place_is_unique(self.live@, l, m, j, k);
                            assert(self.tokens()[j][k] == new_token);
                        }
                    }
                }
            } else {
                assert forall|l: int, m: int| #[trigger] edge_at(self.live@, l, m) && edge_key(self.nodes@, self.live@, l, m)
                    == pair implies self.live@[l][m] != left by {}
            }
            proof {
                assert forall|l: int, m: int| #[trigger] edge_at(self.live@, l, m) implies if edge_key(
                    self.nodes@,
                    self.live@,
                    l,
                    m,
                ) == pair {
                    fewer.contains(self.live@[l][m] as u32)
                } else {
                    listed(
                        self.pair_slots@,
                        self.pair_occurrences@,
                        edge_key(self.nodes@, self.live@, l, m),
                        self.live@[l][m],
                    )
                } by {
                    if edge_key(self.nodes@, self.live@, l, m) == pair {
                        assert(rest.contains(self.live@[l][m] as u32));
                        assert(linked(self.nodes@, self.live@, l, m));
                        assert(self.live@[l][m] as u32 != left);
                    }
                }
            }
            e += 1;
        }
        proof {
            let rest = places@.skip(e as int);
            let tokens = self.tokens();
            assert forall|j: int, k: int| #[trigger] edge_at(self.live@, j, k) implies edge_key(self.nodes@, self.live@, j, k)
                != pair by {
                if edge_key(self.nodes@, self.live@, j, k) == pair {
                    assert(rest.contains(self.live@[j][k] as u32));
                }
            }
            assert forall|j: int| 0 <= j < tokens.len() implies tokens[j] == replaced(before[j], rule, new_token) by {
                let s = tokens[j];
                assert forall|k: int| 0 <= k < s.len() - 1 implies !(#[trigger] s[k] == rule.0 && s[k + 1] == rule.1) by {
                    assert(edge_at(self.live@, j, k));
                }
                lemma_nothing_to_replace(s, rule, new_token);
                assert(replaced(self.tokens()[j], rule, new_token) == replaced(before[j], rule, new_token));
            }
            assert(tokens =~= all_replaced(before, rule, new_token));
        }
    }

    /// Makes one token of the pair that starts at node `left`, which is place `k` of list `j`.
    #[verifier::rlimit(60)]
    #[verifier::spinoff_prover]
    fn replace_at(
        &mut self,
        left: u32,
        pair: u16,
        new_token: u8,
        Ghost(j): Ghost<int>,
        Ghost(k): Ghost<int>,
        Ghost(rest): Ghost<Seq<u32>>,
    )
        requires
            old(self).wf_but(pair as int, rest),
            edge_at(old(self).live@, j, k),
            old(self).live@[j][k] == left,
            edge_key(old(self).nodes@, old(self).live@, j, k) == pair,
            old(self).tokens()[j][k] != new_token,
            old(self).tokens()[j][k + 1] != new_token,
        ensures
            final(self).wf_but(pair as int, rest),
            final(self).nodes.len() == old(self).nodes.len(),
            final(self).live@ == without_next(old(self).live@, j, k),
            final(self).tokens() == old(self).tokens().update(j, merged(old(self).tokens()[j], k, new_token)),
    {
        let ghost nodes = self.nodes@;
        let ghost live = self.live@;
        let ghost tokens = self.tokens();
        let ghost s = tokens[j];
        let ghost more = k + 2 < live[j].len();
        proof {
            assert(in_list(live, j, k) && in_list(live, j, k + 1));
            assert(linked(nodes, live, j, k));
            assert(linked(nodes, live, j, k + 1));
            if k > 0 {
                assert(in_list(live, j, k - 1));
                assert(linked(nodes, live, j, k - 1));
            }
            if more {
                assert(in_list(live, j, k + 2));
                assert(linked(nodes, live, j, k + 2));
            }
            assert forall|p: (u8, u8)| #[trigger] total_occurrences(tokens, p) >= lost(s, k, p) by {
                lemma_total_merged(tokens, j, k, new_token, p);
            }
        }
        let left_index: usize = left as usize;
        let right: u32 = self.nodes[left_index].next(left);
        let right_index: usize = right as usize;
        assert(right == live[j][k + 1]);
        let prev: u32 = self.nodes[left_index].prev(left);
        let next: u32 = self.nodes[right_index].next(right);
        let left_token: u8 = self.nodes[left_index].token();
        let right_token: u8 = self.nodes[right_index].token();
        assert(k > 0 ==> prev == live[j][k - 1]);
        assert(more ==> next == live[j][k + 2]);
        assert((prev == NO_NODE) == (k == 0));
        assert((next == NO_NODE) == !more);
        let next_token: u8 = if next != NO_NODE {
            self.nodes[next as usize].token()
        } else {
            0
        };
        let prev_token: u8 = if prev != NO_NODE {
            self.nodes[prev as usize].token()
        } else {
            0
        };

        let ghost here = (left_token, right_token);
        let ghost before_pair = (prev_token, left_token);
        let ghost after_pair = (right_token, next_token);
        let ghost counts0 = self.pair_counts@;
        assert(pair_key(here) == pair);
        if prev != NO_NODE {
            let prev_pair: usize = (prev_token as usize) * 256 + left_token as usize;
            assert(pair_key(before_pair) == prev_pair);
            assert(counts0[pair_key(before_pair)] == total_occurrences(tokens, before_pair));
            let count: u32 = self.pair_counts[prev_pair];
            self.pair_counts.set(prev_pair, count - 1);
        }
        let ghost counts1 = self.pair_counts@;
        assert forall|p: (u8, u8)| #[trigger] total_occurrences(tokens, p) == counts1[pair_key(p)] + one_if(
            k > 0 && (s[k - 1], s[k]) == p,
        ) by {
            assert(counts0[pair_key(p)] == total_occurrences(tokens, p));
        }
        assert(total_occurrences(tokens, here) >= lost(s, k, here));
        let count: u32 = self.pair_counts[pair as usize];
        self.pair_counts.set(pair as usize, count - 1);
        let ghost counts2 = self.pair_counts@;
        assert forall|p: (u8, u8)| #[trigger] total_occurrences(tokens, p) == counts2[pair_key(p)] + one_if(
            k > 0 && (s[k - 1], s[k]) == p,
        ) + one_if((s[k], s[k + 1]) == p) by {}
        if next != NO_NODE {
            let next_pair: usize = (right_token as usize) * 256 + next_token as usize;
            assert(pair_key(after_pair) == next_pair);
            assert(total_occurrences(tokens, after_pair) >= lost(s, k, after_pair));
            let count: u32 = self.pair_counts[next_pair];
            self.pair_counts.set(next_pair, count - 1);
        }
        let ghost counts3 = self.pair_counts@;
        assert forall|p: (u8, u8)| #[trigger] total_occurrences(tokens, p) == counts3[pair_key(p)] + lost(s, k, p) by {}
        assert forall|p: int| 0 <= p < PAIR_TABLE_SIZE && #[trigger] counts3[p] > 0 implies self.pair_slots@[p] != NO_PAIR_SLOT by {
            assert(counts0[p] > 0);
        }

        self.nodes[left_index].set_token(new_token);
        self.nodes[left_index].set_next(left, next, next_token);
        self.nodes[right_index].set_prev(right, NO_NODE);
        self.nodes[right_index].set_next(right, NO_NODE, 0);
        if next != NO_NODE {
            self.nodes[next as usize].set_prev(next, left);
        }
        if prev != NO_NODE {
            self.nodes[prev as usize].set_next(prev, left, new_token);
        }
        self.live = Ghost(without_next(live, j, k));
        let ghost changed = self.nodes@;
        let ghost slots0 = self.pair_slots@;
        let ghost lists0 = self.pair_occurrences@;
        proof {
            assert(merged_nodes(nodes, changed, live, j, k, new_token));
            lemma_links_after(nodes, changed, live, j, k, new_token);
            assert(self.tables_ok());
            assert forall|p: (u8, u8)| #[trigger] total_occurrences(self.tokens(), p) == counts3[pair_key(p)] + gained(
                s,
                k,
                new_token,
                p,
            ) by {
                lemma_total_merged(tokens, j, k, new_token, p);
                assert(total_occurrences(tokens, p) == counts3[pair_key(p)] + lost(s, k, p));
            }
            lemma_total_pairs_update(tokens, j, merged(s, k, new_token));
        }
        let ghost after = self.tokens();
        if prev != NO_NODE {
            let new_prev_pair: u16 = (prev_token as u16) * 256 + new_token as u16;
            proof {
                let p = (prev_token, new_token);
                assert(pair_key(p) == new_prev_pair);
                assert(total_occurrences(after, p) == counts3[pair_key(p)] + gained(s, k, new_token, p));
                lemma_total_bound(after, p);
            }
            self.add_occurrence(new_prev_pair, prev);
        }
        let ghost slots1 = self.pair_slots@;
        let ghost lists1 = self.pair_occurrences@;
        let ghost counts4 = self.pair_counts@;
        assert forall|p: (u8, u8)| #[trigger] total_occurrences(after, p) == counts4[pair_key(p)] + one_if(
            more && (new_token, s[k + 2]) == p,
        ) by {}
        if next != NO_NODE {
            let new_next_pair: u16 = (new_token as u16) * 256 + next_token as u16;
            proof {
                let p = (new_token, next_token);
                assert(pair_key(p) == new_next_pair);
                assert(total_occurrences(after, p) == counts4[pair_key(p)] + 1);
                lemma_total_bound(after, p);
            }
            self.add_occurrence(new_next_pair, left);
        }
        proof {
            assert(counts_match(self.pair_counts@, after)) by {
                assert forall|p: (u8, u8)| self.pair_counts@[pair_key(p)] == #[trigger] total_occurrences(after, p) by {}
            }
            assert forall|p: int, i: int| 0 <= p < PAIR_TABLE_SIZE && listed(slots0, lists0, p, i) implies #[trigger] listed(
                self.pair_slots@,
                self.pair_occurrences@,
                p,
                i,
            ) by {
                assert(listed(slots1, lists1, p, i));
            }
            lemma_edges_after(
                nodes,
                changed,
                live,
                j,
                k,
                new_token,
                slots0,
                lists0,
                self.pair_slots@,
                self.pair_occurrences@,
                pair as int,
                rest,
            );
            lemma_without_next(live, j, k);
            assert forall|l: int| 0 <= l < self.heads.len() implies #[trigger] self.heads@[l] == if self.live@[l].len() > 0 {
                self.live@[l][0]
            } else {
                NO_NODE as int
            } by {
                if l == j {
                    assert(self.live@[j][0] == live[j][place_before(0, k)]);
                }
            }
        }
    }

    /// Notes that `pair` stands at node `left`.
    fn add_occurrence(&mut self, pair: u16, left: u32)
        requires
            old(self).tables_ok(),
            left < old(self).nodes.len() < PACKED_INDEX_LIMIT,
            old(self).pair_counts@[pair as int] < u32::MAX,
        ensures
            final(self).tables_ok(),
            final(self).nodes == old(self).nodes,
            final(self).heads == old(self).heads,
            final(self).live == old(self).live,
            final(self).pair_counts@ == old(self).pair_counts@.update(
                pair as int,
                (old(self).pair_counts@[pair as int] + 1) as u32,
            ),
            listed(final(self).pair_slots@, final(self).pair_occurrences@, pair as int, left as int),
            forall|p: int, i: int|
                0 <= p < PAIR_TABLE_SIZE && listed(old(self).pair_slots@, old(self).pair_occurrences@, p, i) ==> #[trigger] listed(
                    final(self).pair_slots@,
                    final(self).pair_occurrences@,
                    p,
                    i,
                ),
    {
        let pair_index: usize = pair as usize;
        let mut slot: u32 = self.pair_slots[pair_index];
        if slot == NO_PAIR_SLOT {
            proof {
                lemma_known_bound(self.pair_slots@, self.known_pairs@);
            }
            slot = self.pair_occurrences.len() as u32;
            self.pair_slots.set(pair_index, slot);
            self.pair_occurrences.push(PackedOccurrences::new());
            self.known_pairs.push(pair);
        }
        let ghost before = *self;
        assert(self.pair_slots@[pair as int] == slot);
        assert(slot < self.pair_occurrences.len());
        assert forall|p: int, i: int|
            0 <= p < PAIR_TABLE_SIZE && listed(old(self).pair_slots@, old(self).pair_occurrences@, p, i) implies #[trigger] listed(
                before.pair_slots@,
                before.pair_occurrences@,
                p,
                i,
            ) by {}
        let count: u32 = self.pair_counts[pair_index] + 1;
        self.pair_counts.set(pair_index, count);
        self.pair_occurrences[slot as usize].push(left);
        proof {
            let lists = self.pair_occurrences@;
            let grown = lists[slot as int]@;
            let shorter = before.pair_occurrences@[slot as int]@;
            assert(grown == shorter.push(left));
            assert(grown[shorter.len() as int] == left);
            assert forall|p: int, i: int|
                0 <= p < PAIR_TABLE_SIZE && listed(before.pair_slots@, before.pair_occurrences@, p, i) implies #[trigger] listed(
                    self.pair_slots@,
                    lists,
                    p,
                    i,
                ) by {
                let s = self.pair_slots@[p] as int;
                if s == slot {
                    let e = choose|e: int| 0 <= e < shorter.len() && shorter[e] == i as u32;
                    assert(grown[e] == i as u32);
                }
            }
            assert forall|s: int, e: int| 0 <= s < lists.len() && 0 <= e < lists[s]@.len() implies #[trigger] lists[s]@[e]
                < self.nodes.len() by {
                if s == slot && e < shorter.len() {
                    assert(before.pair_occurrences@[s]@[e] < self.nodes.len());
                } else if s != slot {
                    assert(before.pair_occurrences@[s]@[e] < self.nodes.len());
                }
            }
        }
    }
}

} // verus!
