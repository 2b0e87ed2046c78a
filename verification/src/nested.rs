//! Flattening to a given depth.
//!
//! A sequence whose elements may themselves be sequences, to any depth, is
//! a sequence of `Nested` values. The depth counts the flattening passes that
//! remain: each pass splices the lists among the elements into their place
//! and leaves the plain items where they are. Depth zero changes nothing;
//! where another convention lets depth zero stand for one pass, ask for
//! one more here.

use vstd::prelude::*;
use crate::functions::push_all;
use crate::model::{joined, lemma_joined_push};

verus! {

/// An element of a nested sequence: a plain item, or a sequence of further
/// elements.
#[derive(Debug, PartialEq, Eq)]
pub enum Nested<T> {
    Item(T),
    List(Vec<Nested<T>>),
}

/// `items` after `depth` flattening passes.
pub open spec fn flat_to_depth<T>(items: Seq<Nested<T>>, depth: nat) -> Seq<Nested<T>>
    decreases depth, items.len(),
{
    if items.len() == 0 {
        Seq::empty()
    } else {
        let before = flat_to_depth(items.drop_last(), depth);
        match items.last() {
            Nested::List(inner) => if depth > 0 {
                before + flat_to_depth(inner@, (depth - 1) as nat)
            } else {
                before.push(items.last())
            },
            Nested::Item(_) => before.push(items.last()),
        }
    }
}

/// Flattens `arr` by `depth` levels: a list among the elements is replaced
/// by its own elements, flattened by one level less; a plain item, and at
/// depth zero every element, stays as it is. Order is kept throughout.
pub fn flatten_depth<T>(arr: Vec<Nested<T>>, depth: usize) -> (result: Vec<Nested<T>>)
    ensures
        result@ == flat_to_depth(arr@, depth as nat),
    decreases depth,
{
    let ghost input = arr@;
    let mut result: Vec<Nested<T>> = Vec::new();
    for element in outer: arr.into_iter()
        invariant
            outer.seq() == input,
            result@ == flat_to_depth(input.take(outer.index() as int), depth as nat),
    {
        let ghost k = outer.index() as int;
        let ghost before = result@;
        proof {
            assert(input.take(k + 1).drop_last() =~= input.take(k));
            assert(input.take(k + 1).last() == element);
        }
        match element {
            Nested::List(inner) => {
                if depth > 0 {
                    let flat = flatten_depth(inner, depth - 1);
                    push_all(&mut result, flat);
                } else {
                    result.push(Nested::List(inner));
                }
            },
            Nested::Item(value) => {
                result.push(Nested::Item(value));
            },
        }
    }
    assert(input.take(input.len() as int) =~= input);
    result
}

/// At depth zero nothing is flattened.
pub proof fn law_depth_zero_changes_nothing<T>(items: Seq<Nested<T>>)
    ensures
        flat_to_depth(items, 0) == items,
    decreases items.len(),
{
    if items.len() > 0 {
        law_depth_zero_changes_nothing(items.drop_last());
        assert(items.drop_last().push(items.last()) =~= items);
    }
}

/// Flattening goes element by element: a concatenation is flattened by
/// flattening its two halves.
pub proof fn law_flat_distributes<T>(left: Seq<Nested<T>>, right: Seq<Nested<T>>, depth: nat)
    ensures
        flat_to_depth(left + right, depth) == flat_to_depth(left, depth) + flat_to_depth(
            right,
            depth,
        ),
    decreases right.len(),
{
    if right.len() == 0 {
        assert(left + right =~= left);
        assert(flat_to_depth(left, depth) + flat_to_depth(right, depth) =~= flat_to_depth(
            left,
            depth,
        ));
    } else {
        law_flat_distributes(left, right.drop_last(), depth);
        assert((left + right).drop_last() =~= left + right.drop_last());
        assert((left + right).last() == right.last());
        let a = flat_to_depth(left, depth);
        let b = flat_to_depth(right.drop_last(), depth);
        match right.last() {
            Nested::List(inner) => {
                if depth > 0 {
                    let c = flat_to_depth(inner@, (depth - 1) as nat);
                    assert((a + b) + c =~= a + (b + c));
                } else {
                    assert((a + b).push(right.last()) =~= a + b.push(right.last()));
                }
            },
            Nested::Item(_) => {
                assert((a + b).push(right.last()) =~= a + b.push(right.last()));
            },
        }
    }
}

/// The depth counts passes: flattening by one level more is one pass of
/// depth one, then the flattening of what it gave.
pub proof fn law_depth_counts_passes<T>(items: Seq<Nested<T>>, depth: nat)
    ensures
        flat_to_depth(items, depth + 1) == flat_to_depth(flat_to_depth(items, 1), depth),
    decreases items.len(),
{
    if items.len() > 0 {
        let shorter = items.drop_last();
        law_depth_counts_passes(shorter, depth);
        let once = flat_to_depth(shorter, 1);
        match items.last() {
            Nested::List(inner) => {
                law_depth_zero_changes_nothing(inner@);
                law_flat_distributes(once, inner@, depth);
            },
            Nested::Item(_) => {
                let single = seq![items.last()];
                assert(once.push(items.last()) =~= once + single);
                law_flat_distributes(once, single, depth);
                assert(single.drop_last() =~= Seq::<Nested<T>>::empty());
                assert(flat_to_depth(single.drop_last(), depth) =~= Seq::<Nested<T>>::empty());
                assert(single.last() == items.last());
                assert(flat_to_depth(single, depth) =~= single);
            },
        }
    }
}

/// One pass over a sequence of lists gives what `flatten` gives for them:
/// their elements, one list after the other.
pub proof fn law_depth_one_of_lists_is_joined<T>(lists: Seq<Vec<Nested<T>>>)
    ensures
        flat_to_depth(lists.map_values(|list: Vec<Nested<T>>| Nested::List(list)), 1) == joined(
            lists,
        ),
    decreases lists.len(),
{
    let wrap = |list: Vec<Nested<T>>| Nested::List(list);
    if lists.len() > 0 {
        let shorter = lists.drop_last();
        law_depth_one_of_lists_is_joined(shorter);
        assert(lists.map_values(wrap).drop_last() =~= shorter.map_values(wrap));
        law_depth_zero_changes_nothing(lists.last()@);
        lemma_joined_push(shorter, lists.last());
        assert(shorter.push(lists.last()) =~= lists);
    } else {
        assert(lists.map_values(|part: Vec<Nested<T>>| part@) =~= Seq::<Seq<Nested<T>>>::empty());
    }
}

} // verus!
