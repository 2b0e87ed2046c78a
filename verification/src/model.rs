//! The vocabulary in which the contracts of the primitives are written.
//!
//! A callback is an executable function value, so all that is known of it is
//! its contract: the arguments it accepts and the results it may give. The
//! predicates below lift that contract from one call to a whole sequence.

use vstd::prelude::*;

verus! {

/// `f` may be called on every element of `input`.
pub open spec fn accepts_each<T, U, F: Fn(T) -> U>(f: F, input: Seq<T>) -> bool {
    forall|i: int| 0 <= i < input.len() ==> call_requires(f, (#[trigger] input[i],))
}

/// `output` is, position by position, a result that `f` may give on `input`.
pub open spec fn maps_to<T, U, F: Fn(T) -> U>(f: F, input: Seq<T>, output: Seq<U>) -> bool {
    &&& output.len() == input.len()
    &&& forall|i: int|
        0 <= i < input.len() ==> call_ensures(f, (input[i],), #[trigger] output[i])
}

/// The values that are present in `outcomes`, in their order.
pub open spec fn present<U>(outcomes: Seq<Option<U>>) -> Seq<U> {
    outcomes.filter_map(|outcome: Option<U>| outcome)
}

/// The contents of `parts`, one after the other.
pub open spec fn joined<T>(parts: Seq<Vec<T>>) -> Seq<T> {
    parts.map_values(|part: Vec<T>| part@).flatten()
}

/// Appending one part appends its contents to the concatenation.
pub proof fn lemma_joined_push<T>(parts: Seq<Vec<T>>, part: Vec<T>)
    ensures
        joined(parts.push(part)) == joined(parts) + part@,
{
    let view = |p: Vec<T>| p@;
    assert(parts.push(part).map_values(view) =~= parts.map_values(view).push(part@));
    parts.map_values(view).lemma_flatten_push(part@);
}

/// `accs` is a left-to-right application chain of `f` over `input`: it
/// starts at `init`, and each further accumulator is a result that `f` may
/// give for the accumulator before it and the element at that position.
pub open spec fn fold_chain<T, U, F: Fn(U, T) -> U>(
    f: F,
    init: U,
    input: Seq<T>,
    accs: Seq<U>,
) -> bool {
    &&& accs.len() == input.len() + 1
    &&& accs[0] == init
    &&& forall|i: int|
        #![trigger input[i]]
        #![trigger call_ensures(f, (accs[i], input[i]), accs[i + 1])]
        0 <= i < input.len() ==> call_ensures(f, (accs[i], input[i]), accs[i + 1])
}

/// `acc` closes some application chain of `f` over `input` from `init`.
pub open spec fn folds_to<T, U, F: Fn(U, T) -> U>(f: F, init: U, input: Seq<T>, acc: U) -> bool {
    exists|accs: Seq<U>| #[trigger] fold_chain(f, init, input, accs) && accs.last() == acc
}

/// `f` may be called at every step of a left fold of `input` from `init`,
/// whatever accumulators the steps before it have produced.
pub open spec fn accepts_fold<T, U, F: Fn(U, T) -> U>(f: F, init: U, input: Seq<T>) -> bool {
    forall|k: int, accs: Seq<U>|
        0 <= k < input.len() && #[trigger] fold_chain(f, init, input.take(k), accs)
            ==> call_requires(f, (accs[k], input[k]))
}

/// `f` may be called on a reference to every element of `input`.
pub open spec fn accepts_each_ref<T, R, F: FnMut(&T) -> R>(f: F, input: Seq<T>) -> bool {
    forall|i: int| 0 <= i < input.len() ==> call_requires(f, (&#[trigger] input[i],))
}

/// A call of `f` on a reference to each element of `input` has returned.
pub open spec fn visits_each<T, F: FnMut(&T)>(f: F, input: Seq<T>) -> bool {
    forall|i: int| 0 <= i < input.len() ==> call_ensures(f, (&#[trigger] input[i],), ())
}

/// `verdicts` holds, position by position, an answer that `f` may give on a
/// reference to the element of `input` at that position.
pub open spec fn judges<T, F: Fn(&T) -> bool>(f: F, input: Seq<T>, verdicts: Seq<bool>) -> bool {
    &&& verdicts.len() == input.len()
    &&& forall|i: int|
        0 <= i < input.len() ==> call_ensures(f, (&input[i],), #[trigger] verdicts[i])
}

/// The elements of `input` whose verdict is `true`, in their order.
pub open spec fn kept<T>(input: Seq<T>, verdicts: Seq<bool>) -> Seq<T>
    recommends
        verdicts.len() == input.len(),
    decreases input.len(),
{
    if input.len() == 0 || verdicts.len() == 0 {
        Seq::empty()
    } else if verdicts.last() {
        kept(input.drop_last(), verdicts.drop_last()).push(input.last())
    } else {
        kept(input.drop_last(), verdicts.drop_last())
    }
}

/// Whether a reduction of `input` has anything to start from.
pub open spec fn reducible(input: Seq<i32>, initial: Option<i32>) -> bool {
    input.len() > 0 || initial is Some
}

/// The accumulator that a reduction starts from: the initial value where one
/// is given, else the first element.
pub open spec fn reduce_seed(input: Seq<i32>, initial: Option<i32>) -> i32
    recommends
        reducible(input, initial),
{
    match initial {
        Some(value) => value,
        None => input[0],
    }
}

/// The elements that a reduction folds into its seed: all of them where an
/// initial value is given, else all but the first.
pub open spec fn reduce_rest(input: Seq<i32>, initial: Option<i32>) -> Seq<i32>
    recommends
        reducible(input, initial),
{
    match initial {
        Some(_) => input,
        None => input.skip(1),
    }
}

/// Whatever a call of `f` returns is `g` of its argument.
pub open spec fn computes<T, U, F: Fn(T) -> U>(f: F, g: spec_fn(T) -> U) -> bool {
    forall|x: T, y: U| #[trigger] call_ensures(f, (x,), y) ==> y == g(x)
}

/// Whatever a call of `f` on a reference returns is `g` of the value
/// referred to.
pub open spec fn decides<T, F: Fn(&T) -> bool>(f: F, g: spec_fn(T) -> bool) -> bool {
    forall|x: T, y: bool| #[trigger] call_ensures(f, (&x,), y) ==> y == g(x)
}

/// Whatever a call of `f` returns is `g` of its two arguments.
pub open spec fn combines<T, U, F: Fn(U, T) -> U>(f: F, g: spec_fn(U, T) -> U) -> bool {
    forall|acc: U, x: T, y: U| #[trigger] call_ensures(f, (acc, x), y) ==> y == g(acc, x)
}

/// `picks` lists positions below `len` in strictly ascending order.
pub open spec fn ascending_positions(picks: Seq<int>, len: nat) -> bool {
    &&& forall|k: int| 0 <= k < picks.len() ==> 0 <= #[trigger] picks[k] < len
    &&& forall|j: int, k: int| 0 <= j < k < picks.len() ==> picks[j] < picks[k]
}

/// The positions at which `verdicts` holds `true`, in ascending order.
pub open spec fn picked(verdicts: Seq<bool>) -> Seq<int>
    decreases verdicts.len(),
{
    if verdicts.len() == 0 {
        Seq::empty()
    } else if verdicts.last() {
        picked(verdicts.drop_last()).push(verdicts.len() - 1)
    } else {
        picked(verdicts.drop_last())
    }
}

/// `picks` lists, in ascending order, exactly the positions at which
/// `verdicts` holds `true`.
pub open spec fn selects(picks: Seq<int>, verdicts: Seq<bool>) -> bool {
    &&& ascending_positions(picks, verdicts.len())
    &&& forall|k: int| 0 <= k < picks.len() ==> verdicts[#[trigger] picks[k]]
    &&& forall|i: int| 0 <= i < verdicts.len() && #[trigger] verdicts[i] ==> picks.contains(i)
}

} // verus!
