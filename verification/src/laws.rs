//! What holds of the primitives in general, proved from the model in which
//! their contracts are written.
//!
//! Where a callback is a mathematical function (`computes`, `decides`,
//! `combines`), the relational contracts collapse to the familiar
//! operations on sequences.

use vstd::prelude::*;
use crate::model::{
    combines, computes, decides, fold_chain, folds_to, joined, judges, kept,
    maps_to, picked, present, reduce_rest, reduce_seed, selects,
};

verus! {

/// Mapping keeps the length of the sequence.
pub proof fn law_map_keeps_length<T, U, F: Fn(T) -> U>(f: F, input: Seq<T>, output: Seq<U>)
    requires
        maps_to(f, input, output),
    ensures
        output.len() == input.len(),
{
}

/// Mapping with a callback that computes `g` gives `g` of every element, at
/// the element's position.
pub proof fn law_map_of_function<T, U, F: Fn(T) -> U>(
    f: F,
    g: spec_fn(T) -> U,
    input: Seq<T>,
    output: Seq<U>,
)
    requires
        computes(f, g),
        maps_to(f, input, output),
    ensures
        output == input.map_values(g),
{
    assert forall|i: int| 0 <= i < input.len() implies output[i] == g(input[i]) by {
        assert(call_ensures(f, (input[i],), output[i]));
    }
    assert(output =~= input.map_values(g));
}

/// Mapping with a callback that hands its argument back gives the sequence
/// back.
pub proof fn law_map_identity<T, F: Fn(T) -> T>(f: F, input: Seq<T>, output: Seq<T>)
    requires
        computes(f, |x: T| x),
        maps_to(f, input, output),
    ensures
        output == input,
{
    law_map_of_function(f, |x: T| x, input, output);
    assert(input.map_values(|x: T| x) =~= input);
}

/// Filtering with a callback that computes `g` keeps exactly the values that
/// `g` makes present, in the order of their elements.
pub proof fn law_filter_of_function<T, U, F: Fn(T) -> Option<U>>(
    f: F,
    g: spec_fn(T) -> Option<U>,
    input: Seq<T>,
    outcomes: Seq<Option<U>>,
)
    requires
        computes(f, g),
        maps_to(f, input, outcomes),
    ensures
        present(outcomes) == input.filter_map(g),
{
    law_map_of_function(f, g, input, outcomes);
    lemma_present_of_map(input, g);
}

/// What a filter keeps is a sub-sequence of the outcomes: the values at the
/// positions where an outcome is present, all of them and no others, in
/// ascending order of position.
pub proof fn law_filter_keeps_order<U>(outcomes: Seq<Option<U>>)
    ensures
        selects(
            picked(outcomes.map_values(|outcome: Option<U>| outcome is Some)),
            outcomes.map_values(|outcome: Option<U>| outcome is Some),
        ),
        present(outcomes) == picked(
            outcomes.map_values(|outcome: Option<U>| outcome is Some),
        ).map_values(|i: int| outcomes[i]->Some_0),
    decreases outcomes.len(),
{
    let some = |outcome: Option<U>| outcome is Some;
    let flags = outcomes.map_values(some);
    law_picked_selects(flags);
    if outcomes.len() > 0 {
        let shorter = outcomes.drop_last();
        law_filter_keeps_order(shorter);
        law_picked_selects(shorter.map_values(some));
        assert(flags.drop_last() =~= shorter.map_values(some));
        let picks = picked(flags);
        let value_at = |i: int| outcomes[i]->Some_0;
        let shorter_at = |i: int| shorter[i]->Some_0;
        assert(picked(flags.drop_last()).map_values(shorter_at) =~= picked(
            flags.drop_last(),
        ).map_values(value_at));
        assert(present(outcomes) =~= picks.map_values(value_at));
    } else {
        assert(present(outcomes) =~= picked(flags).map_values(|i: int| outcomes[i]->Some_0));
    }
}

/// `picked` lists, in ascending order, exactly the positions that hold
/// `true`.
pub proof fn law_picked_selects(verdicts: Seq<bool>)
    ensures
        selects(picked(verdicts), verdicts),
    decreases verdicts.len(),
{
    if verdicts.len() > 0 {
        let shorter = verdicts.drop_last();
        let last = verdicts.len() - 1;
        law_picked_selects(shorter);
        let before = picked(shorter);
        let picks = picked(verdicts);
        assert forall|i: int| 0 <= i < verdicts.len() && #[trigger] verdicts[i] implies picks.contains(
            i,
        ) by {
            if i < last {
                assert(shorter[i]);
                let k = choose|k: int| 0 <= k < before.len() && before[k] == i;
                assert(picks[k] == i);
            } else {
                assert(picks[picks.len() - 1] == i);
            }
        }
        assert forall|k: int| 0 <= k < picks.len() implies verdicts[#[trigger] picks[k]] by {
            if k < before.len() {
                assert(shorter[before[k]]);
            }
        }
    }
}

/// What a predicate filter keeps is a sub-sequence of its input: the
/// elements at the positions whose verdict is `true`, all of them and no
/// others, in ascending order of position.
pub proof fn law_filter_by_keeps_order<T>(input: Seq<T>, verdicts: Seq<bool>)
    requires
        verdicts.len() == input.len(),
    ensures
        selects(picked(verdicts), verdicts),
        kept(input, verdicts) == picked(verdicts).map_values(|i: int| input[i]),
    decreases input.len(),
{
    law_picked_selects(verdicts);
    if input.len() > 0 {
        let shorter = input.drop_last();
        law_filter_by_keeps_order(shorter, verdicts.drop_last());
        law_picked_selects(verdicts.drop_last());
        let before = picked(verdicts.drop_last());
        assert(before.map_values(|i: int| shorter[i]) =~= before.map_values(|i: int| input[i]));
        assert(kept(input, verdicts) =~= picked(verdicts).map_values(|i: int| input[i]));
    } else {
        assert(kept(input, verdicts) =~= picked(verdicts).map_values(|i: int| input[i]));
    }
}

/// Filtering with a predicate that decides `p` keeps exactly the elements
/// that satisfy `p`, in their order; every element kept satisfies `p`.
pub proof fn law_filter_by_of_function<T, F: Fn(&T) -> bool>(
    f: F,
    p: spec_fn(T) -> bool,
    input: Seq<T>,
    verdicts: Seq<bool>,
)
    requires
        decides(f, p),
        judges(f, input, verdicts),
    ensures
        kept(input, verdicts) == input.filter(p),
        forall|k: int| 0 <= k < kept(input, verdicts).len() ==> p(#[trigger] kept(input, verdicts)[k]),
    decreases input.len(),
{
    reveal(Seq::filter);
    if input.len() > 0 {
        let last = input.len() - 1;
        assert(call_ensures(f, (&input[last],), verdicts[last]));
        assert forall|i: int| 0 <= i < last implies call_ensures(
            f,
            (&input.drop_last()[i],),
            #[trigger] verdicts.drop_last()[i],
        ) by {
            assert(call_ensures(f, (&input[i],), verdicts[i]));
        }
        law_filter_by_of_function(f, p, input.drop_last(), verdicts.drop_last());
    }
}

/// Folding with a callback that computes `g` gives the left fold of the
/// sequence under `g`: `g(...g(g(init, x0), x1)..., xn)`.
pub proof fn law_fold_of_function<T, U, F: Fn(U, T) -> U>(
    f: F,
    g: spec_fn(U, T) -> U,
    init: U,
    input: Seq<T>,
    acc: U,
)
    requires
        combines(f, g),
        folds_to(f, init, input, acc),
    ensures
        acc == input.fold_left(init, g),
{
    let accs = choose|accs: Seq<U>| #[trigger] fold_chain(f, init, input, accs) && accs.last() == acc;
    lemma_chain_of_function(f, g, init, input, accs, input.len() as int);
    assert(input.take(input.len() as int) =~= input);
}

/// Folding an empty sequence gives the initial value, whatever the callback.
pub proof fn law_fold_empty<T, U, F: Fn(U, T) -> U>(f: F, init: U, acc: U)
    requires
        folds_to(f, init, Seq::<T>::empty(), acc),
    ensures
        acc == init,
{
}

/// Reducing with an initial value is folding from it; reducing without one
/// is folding the rest of the sequence from its first element.
pub proof fn law_reduce_is_fold<F: Fn(i32, i32) -> i32>(
    f: F,
    input: Seq<i32>,
    initial: Option<i32>,
    acc: i32,
)
    requires
        input.len() > 0 || initial is Some,
    ensures
        initial matches Some(value) ==> (folds_to(
            f,
            reduce_seed(input, initial),
            reduce_rest(input, initial),
            acc,
        ) <==> folds_to(f, value, input, acc)),
        initial is None ==> (folds_to(
            f,
            reduce_seed(input, initial),
            reduce_rest(input, initial),
            acc,
        ) <==> folds_to(f, input.first(), input.drop_first(), acc)),
{
    assert(input.skip(1) =~= input.drop_first());
}

/// Flat-mapping with a callback that computes `g` gives the concatenation of
/// `g` of every element, in order.
pub proof fn law_flat_map_of_function<T, U, F: Fn(T) -> Vec<U>>(
    f: F,
    g: spec_fn(T) -> Vec<U>,
    input: Seq<T>,
    parts: Seq<Vec<U>>,
)
    requires
        computes(f, g),
        maps_to(f, input, parts),
    ensures
        joined(parts) == input.flat_map(|x: T| g(x)@),
{
    law_map_of_function(f, g, input, parts);
    assert(parts.map_values(|part: Vec<U>| part@) =~= input.map_values(|x: T| g(x)@));
}

/// Present values of a mapped sequence are the filter-map of the sequence.
proof fn lemma_present_of_map<T, U>(input: Seq<T>, g: spec_fn(T) -> Option<U>)
    ensures
        present(input.map_values(g)) == input.filter_map(g),
    decreases input.len(),
{
    if input.len() > 0 {
        lemma_present_of_map(input.drop_last(), g);
        assert(input.map_values(g).drop_last() =~= input.drop_last().map_values(g));
    }
}

/// In a chain of a callback that computes `g`, the accumulator after `k`
/// steps is the left fold of the first `k` elements.
proof fn lemma_chain_of_function<T, U, F: Fn(U, T) -> U>(
    f: F,
    g: spec_fn(U, T) -> U,
    init: U,
    input: Seq<T>,
    accs: Seq<U>,
    k: int,
)
    requires
        combines(f, g),
        fold_chain(f, init, input, accs),
        0 <= k <= input.len(),
    ensures
        accs[k] == input.take(k).fold_left(init, g),
    decreases k,
{
    if k > 0 {
        lemma_chain_of_function(f, g, init, input, accs, k - 1);
        assert(input.take(k).drop_last() =~= input.take(k - 1));
        assert(call_ensures(f, (accs[k - 1], input[k - 1]), accs[k]));
    }
}

} // verus!
