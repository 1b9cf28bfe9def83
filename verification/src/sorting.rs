//! Putting things in order by comparing them.
use vstd::prelude::*;

verus! {

/// Things that are told apart by their numbers, and how they compare.
pub trait Comparison {
    /// How many there are.
    spec fn count(&self) -> nat;

    /// Thing `i` may stand in front of thing `j`.
    spec fn at_most(&self, i: int, j: int) -> bool;

    /// Of any two one may stand in front of the other.
    proof fn lemma_total(&self, i: int, j: int)
        ensures
            self.at_most(i, j) || self.at_most(j, i),
    ;

    /// What may stand in front of a thing may stand in front of those behind it.
    proof fn lemma_transitive(&self, i: int, j: int, k: int)
        requires
            self.at_most(i, j),
            self.at_most(j, k),
        ensures
            self.at_most(i, k),
    ;

    fn is_at_most(&self, i: usize, j: usize) -> (result: bool)
        requires
            i < self.count(),
            j < self.count(),
        ensures
            result == self.at_most(i as int, j as int),
    ;
}

/// The numbers below `n`, each once.
pub open spec fn is_order(order: Seq<usize>, n: nat) -> bool {
    &&& order.len() == n
    &&& forall|k: int| 0 <= k < n ==> (#[trigger] order[k]) < n
    &&& forall|i: usize| i < n ==> #[trigger] order.contains(i)
}

/// Thing `i` stands in front of thing `j`; things that compare alike keep their order.
pub open spec fn precedes<C: Comparison>(things: C, i: int, j: int) -> bool {
    things.at_most(i, j) && (things.at_most(j, i) ==> i <= j)
}

/// The things stand in order.
pub open spec fn in_order<C: Comparison>(things: C, order: Seq<usize>) -> bool {
    forall|a: int, b: int| 0 <= a <= b < order.len() ==> precedes(things, #[trigger] order[a] as int, #[trigger] order[b] as int)
}

/// The numbers from `low` on and below `high`, each once.
spec fn is_part(order: Seq<usize>, low: int, high: int) -> bool {
    &&& order.len() == high - low
    &&& forall|k: int| 0 <= k < order.len() ==> low <= (#[trigger] order[k]) < high
    &&& forall|i: usize| low <= i < high ==> #[trigger] order.contains(i)
}

proof fn lemma_precedes<C: Comparison>(things: C, i: int, j: int, k: int)
    requires
        precedes(things, i, j),
        precedes(things, j, k),
    ensures
        precedes(things, i, k),
{
    things.lemma_transitive(i, j, k);
    if things.at_most(k, i) {
        things.lemma_transitive(k, i, j);
        things.lemma_transitive(j, k, i);
    }
}

/// One more thing behind things in order.
proof fn lemma_one_more<C: Comparison>(things: C, order: Seq<usize>, next: usize)
    requires
        in_order(things, order),
        order.len() > 0 ==> precedes(things, order.last() as int, next as int),
    ensures
        in_order(things, order.push(next)),
{
    let after = order.push(next);
    things.lemma_total(next as int, next as int);
    assert forall|a: int, b: int| 0 <= a <= b < after.len() implies precedes(things, #[trigger] after[a] as int, #[trigger] after[b] as int) by {
        if b == order.len() && a < order.len() {
            assert(precedes(things, order[a] as int, order[order.len() - 1] as int));
            lemma_precedes(things, order[a] as int, order.last() as int, next as int);
        }
    }
}

proof fn lemma_still_there(order: Seq<usize>, next: usize)
    ensures
        order.push(next).contains(next),
        forall|i: usize| order.contains(i) ==> #[trigger] order.push(next).contains(i),
{
    assert(order.push(next)[order.len() as int] == next);
    assert forall|i: usize| order.contains(i) implies #[trigger] order.push(next).contains(i) by {
        let k = choose|k: int| 0 <= k < order.len() && order[k] == i;
        assert(order.push(next)[k] == i);
    }
}

/// Two parts in order as one.
fn merged<C: Comparison>(things: &C, left: &Vec<usize>, right: &Vec<usize>, Ghost(low): Ghost<int>, Ghost(middle): Ghost<int>, Ghost(high): Ghost<int>) -> (order:
    Vec<usize>)
    requires
        low <= middle <= high <= things.count(),
        is_part(left@, low, middle),
        is_part(right@, middle, high),
        in_order(*things, left@),
        in_order(*things, right@),
    ensures
        is_part(order@, low, high),
        in_order(*things, order@),
{
    let mut order: Vec<usize> = Vec::new();
    let mut a: usize = 0;
    let mut b: usize = 0;
    while a < left.len() || b < right.len()
        invariant
            low <= middle <= high <= things.count(),
            is_part(left@, low, middle),
            is_part(right@, middle, high),
            in_order(*things, left@),
            in_order(*things, right@),
            a <= left@.len(),
            b <= right@.len(),
            order@.len() == a + b,
            forall|k: int| 0 <= k < order@.len() ==> low <= (#[trigger] order@[k]) < high,
            forall|k: int| 0 <= k < a ==> order@.contains(#[trigger] left@[k]),
            forall|k: int| 0 <= k < b ==> order@.contains(#[trigger] right@[k]),
            in_order(*things, order@),
            order@.len() > 0 && a < left@.len() ==> precedes(*things, order@.last() as int, left@[a as int] as int),
            order@.len() > 0 && b < right@.len() ==> precedes(*things, order@.last() as int, right@[b as int] as int),
        decreases left@.len() - a + right@.len() - b,
    {
        let ghost before = order@;
        let from_left: bool = if a >= left.len() {
            false
        } else if b >= right.len() {
            true
        } else {
            things.is_at_most(left[a], right[b])
        };
        proof {
            if a < left@.len() && b < right@.len() {
                things.lemma_total(left@[a as int] as int, right@[b as int] as int);
            }
        }
        if from_left {
            proof {
                lemma_one_more(*things, before, left@[a as int]);
                lemma_still_there(before, left@[a as int]);
            }
            order.push(left[a]);
            a += 1;
        } else {
            proof {
                lemma_one_more(*things, before, right@[b as int]);
                lemma_still_there(before, right@[b as int]);
            }
            order.push(right[b]);
            b += 1;
        }
    }
    assert forall|i: usize| low <= i < high implies #[trigger] order@.contains(i) by {
        if i < middle {
            assert(left@.contains(i));
        } else {
            assert(right@.contains(i));
        }
    }
    order
}

/// The things from `low` on and below `high` in order.
fn sorted_part<C: Comparison>(things: &C, low: usize, high: usize) -> (order: Vec<usize>)
    requires
        low <= high <= things.count(),
    ensures
        is_part(order@, low as int, high as int),
        in_order(*things, order@),
    decreases high - low,
{
    if high - low < 2 {
        let mut order: Vec<usize> = Vec::new();
        if low < high {
            order.push(low);
            proof {
                things.lemma_total(low as int, low as int);
                assert(order@[0] == low);
            }
        }
        return order;
    }
    let middle: usize = low + (high - low) / 2;
    let left: Vec<usize> = sorted_part(things, low, middle);
    let right: Vec<usize> = sorted_part(things, middle, high);
    merged(things, &left, &right, Ghost(low as int), Ghost(middle as int), Ghost(high as int))
}

/// The numbers of the first `n` things, put in order by halves that are merged.
pub fn sorted<C: Comparison>(things: &C, n: usize) -> (order: Vec<usize>)
    requires
        n <= things.count(),
    ensures
        is_order(order@, n as nat),
        in_order(*things, order@),
{
    sorted_part(things, 0, n)
}

} // verus!
