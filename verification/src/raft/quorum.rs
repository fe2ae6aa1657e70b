//! Counting nodes, and why two majorities share a node.

use vstd::prelude::*;

verus! {

/// Number of nodes before `upto` that are `chosen`.
pub open spec fn count(chosen: spec_fn(int) -> bool, upto: int) -> nat
    decreases upto,
{
    if upto <= 0 {
        0
    } else {
        count(chosen, upto - 1) + if chosen(upto - 1) {
            1nat
        } else {
            0nat
        }
    }
}

/// Whether the chosen nodes are a strict majority of `size` nodes.
pub open spec fn majority(chosen: spec_fn(int) -> bool, size: int) -> bool {
    2 * count(chosen, size) > size
}

/// No more nodes are chosen than there are.
pub proof fn lemma_count_bound(chosen: spec_fn(int) -> bool, upto: int)
    ensures
        count(chosen, upto) <= upto || upto < 0,
        upto <= 0 ==> count(chosen, upto) == 0,
    decreases upto,
{
    if upto > 0 {
        lemma_count_bound(chosen, upto - 1);
    }
}

/// A wider choice counts no fewer nodes.
pub proof fn lemma_count_grows(
    chosen: spec_fn(int) -> bool,
    wider: spec_fn(int) -> bool,
    upto: int,
)
    requires
        forall|node: int| 0 <= node < upto && #[trigger] chosen(node) ==> wider(node),
    ensures
        count(chosen, upto) <= count(wider, upto),
    decreases upto,
{
    if upto > 0 {
        lemma_count_grows(chosen, wider, upto - 1);
    }
}

/// Two choices that together count more nodes than there are share one.
pub proof fn lemma_choices_meet(
    first: spec_fn(int) -> bool,
    second: spec_fn(int) -> bool,
    upto: int,
) -> (node: int)
    requires
        count(first, upto) + count(second, upto) > upto,
        upto >= 0,
    ensures
        0 <= node < upto,
        first(node),
        second(node),
    decreases upto,
{
    if upto <= 0 {
        0
    } else if first(upto - 1) && second(upto - 1) {
        upto - 1
    } else {
        lemma_count_bound(first, upto - 1);
        lemma_count_bound(second, upto - 1);
        lemma_choices_meet(first, second, upto - 1)
    }
}

/// Two majorities share a node.
pub proof fn lemma_majorities_meet(
    first: spec_fn(int) -> bool,
    second: spec_fn(int) -> bool,
    size: int,
) -> (node: int)
    requires
        0 <= size,
        majority(first, size),
        majority(second, size),
    ensures
        0 <= node < size,
        first(node),
        second(node),
{
    lemma_count_bound(first, size);
    lemma_choices_meet(first, second, size)
}

} // verus!
