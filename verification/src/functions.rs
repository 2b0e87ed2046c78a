//! The sequence primitives.

use vstd::prelude::*;
use crate::model::{
    accepts_each, accepts_each_ref, accepts_fold, fold_chain, folds_to, joined, judges, kept,
    lemma_joined_push, maps_to, present, reduce_rest, reduce_seed, reducible, visits_each,
};

verus! {

/// Applies `callback` to every element of `arr`, in order, and collects the
/// results: one result per element, at the element's position.
pub fn map<F, T, U>(arr: Vec<T>, callback: F) -> (result: Vec<U>)
    where F: Fn(T) -> U
    requires
        accepts_each(callback, arr@),
    ensures
        result.len() == arr.len(),
        maps_to(callback, arr@, result@),
{
    let ghost input = arr@;
    let mut result: Vec<U> = Vec::with_capacity(arr.len());
    for element in it: arr.into_iter()
        invariant
            it.seq() == input,
            accepts_each(callback, input),
            maps_to(callback, input.take(it.index() as int), result@),
    {
        let ghost done = result@;
        let value = callback(element);
        proof {
            lemma_map_next(callback, input, it.index() as int, done, value);
        }
        result.push(value);
    }
    assert(input.take(input.len() as int) =~= input);
    result
}

/// Applies `callback` to every element of `arr`, in order, and keeps the
/// values of the results that are present, in the order of their elements.
/// An element whose result is `None` leaves nothing behind.
pub fn filter<F, T, U>(arr: Vec<T>, callback: F) -> (result: Vec<U>)
    where F: Fn(T) -> Option<U>
    requires
        accepts_each(callback, arr@),
    ensures
        exists|outcomes: Seq<Option<U>>|
            #[trigger] maps_to(callback, arr@, outcomes) && result@ == present(outcomes),
{
    let ghost input = arr@;
    let ghost mut outcomes: Seq<Option<U>> = Seq::empty();
    let mut result: Vec<U> = Vec::new();
    for element in it: arr.into_iter()
        invariant
            it.seq() == input,
            accepts_each(callback, input),
            maps_to(callback, input.take(it.index() as int), outcomes),
            result@ == present(outcomes),
    {
        let ghost seen = outcomes;
        let outcome = callback(element);
        proof {
            lemma_map_next(callback, input, it.index() as int, seen, outcome);
            outcomes = seen.push(outcome);
            assert(outcomes.drop_last() =~= seen);
        }
        if let Some(mapped) = outcome {
            result.push(mapped);
            assert(result@ =~= present(seen) + seq![mapped]);
        }
    }
    assert(input.take(input.len() as int) =~= input);
    result
}

/// Keeps the elements of `arr` on which `predicate` answers `true`, as they
/// are and in their order, and drops the others.
pub fn filter_by<F, T>(arr: Vec<T>, predicate: F) -> (result: Vec<T>)
    where F: Fn(&T) -> bool
    requires
        accepts_each_ref(predicate, arr@),
    ensures
        exists|verdicts: Seq<bool>|
            #[trigger] judges(predicate, arr@, verdicts) && result@ == kept(arr@, verdicts),
{
    let ghost input = arr@;
    let ghost mut verdicts: Seq<bool> = Seq::empty();
    let mut result: Vec<T> = Vec::new();
    for element in it: arr.into_iter()
        invariant
            it.seq() == input,
            accepts_each_ref(predicate, input),
            judges(predicate, input.take(it.index() as int), verdicts),
            result@ == kept(input.take(it.index() as int), verdicts),
    {
        let ghost seen = verdicts;
        let ghost k = it.index() as int;
        assert(input[k] == element);
        let verdict = predicate(&element);
        proof {
            lemma_judge_next(predicate, input, k, seen, verdict);
            verdicts = seen.push(verdict);
            assert(verdicts.drop_last() =~= seen);
            assert(input.take(k + 1).drop_last() =~= input.take(k));
        }
        if verdict {
            result.push(element);
        }
    }
    assert(input.take(input.len() as int) =~= input);
    result
}

/// Threads an accumulator through `arr` from the left: it starts as `init`,
/// and each element in turn replaces it by what `callback` gives for the
/// accumulator so far and that element. An empty `arr` gives `init` back.
pub fn fold<F, T, U>(arr: Vec<T>, init: U, callback: F) -> (result: U)
    where F: Fn(U, T) -> U
    requires
        accepts_fold(callback, init, arr@),
    ensures
        folds_to(callback, init, arr@, result),
        arr.len() == 0 ==> result == init,
{
    let ghost input = arr@;
    let ghost mut accs: Seq<U> = seq![init];
    let mut result = init;
    for element in it: arr.into_iter()
        invariant
            it.seq() == input,
            accepts_fold(callback, init, input),
            fold_chain(callback, init, input.take(it.index() as int), accs),
            accs.last() == result,
    {
        let ghost k = it.index() as int;
        result = callback(result, element);
        proof {
            lemma_chain_next(callback, init, input, k, accs, result);
            accs = accs.push(result);
        }
    }
    assert(input.take(input.len() as int) =~= input);
    result
}

/// Why a reduction gave no value.
#[derive(Clone, Copy, Debug, PartialEq, Eq)]
pub enum ReduceError {
    /// The sequence was empty and no initial value was supplied.
    EmptyWithoutInitial,
}

/// Folds `arr` from the left as `fold` does. With an initial value the
/// accumulator starts there and every element is folded in; without one it
/// starts at the first element and folding begins at the second. An empty
/// sequence without an initial value has nothing to start from and is an
/// error; an empty sequence with one gives that value back.
pub fn reduce<F>(arr: Vec<i32>, initial: Option<i32>, callback: F) -> (result: Result<
    i32,
    ReduceError,
>)
    where F: Fn(i32, i32) -> i32
    requires
        reducible(arr@, initial) ==> accepts_fold(
            callback,
            reduce_seed(arr@, initial),
            reduce_rest(arr@, initial),
        ),
    ensures
        result is Ok <==> reducible(arr@, initial),
        result matches Ok(value) ==> folds_to(
            callback,
            reduce_seed(arr@, initial),
            reduce_rest(arr@, initial),
            value,
        ),
        result matches Err(error) ==> error == ReduceError::EmptyWithoutInitial,
        arr.len() == 0 ==> (initial matches Some(value) ==> result == Ok::<i32, ReduceError>(value)),
{
    let count = arr.len();
    if initial.is_none() && count == 0 {
        return Err(ReduceError::EmptyWithoutInitial);
    }
    let ghost seed = reduce_seed(arr@, initial);
    let ghost rest = reduce_rest(arr@, initial);
    let first: usize = if initial.is_none() { 1 } else { 0 };
    let mut acc: i32 = match initial {
        Some(value) => value,
        None => arr[0],
    };
    let ghost mut accs: Seq<i32> = seq![acc];
    let mut index: usize = first;
    while index < count
        invariant
            count == arr.len(),
            first <= index <= count,
            rest.len() == count - first,
            forall|j: int| 0 <= j < rest.len() ==> rest[j] == arr@[j + first],
            accepts_fold(callback, seed, rest),
            fold_chain(callback, seed, rest.take(index - first), accs),
            accs.last() == acc,
        decreases count - index,
    {
        let ghost k = index - first;
        acc = callback(acc, arr[index]);
        proof {
            lemma_chain_next(callback, seed, rest, k, accs, acc);
            accs = accs.push(acc);
        }
        index += 1;
    }
    assert(rest.take(rest.len() as int) =~= rest);
    Ok(acc)
}

/// Concatenates the sub-sequences of `arr`, in order. An empty sub-sequence
/// contributes nothing.
pub fn flatten<T>(arr: Vec<Vec<T>>) -> (result: Vec<T>)
    ensures
        result@ == joined(arr@),
{
    let ghost input = arr@;
    let mut result: Vec<T> = Vec::new();
    for element in outer: arr.into_iter()
        invariant
            outer.seq() == input,
            result@ == joined(input.take(outer.index() as int)),
    {
        let ghost k = outer.index() as int;
        let ghost before = result@;
        let ghost part = element@;
        proof {
            lemma_joined_push(input.take(k), element);
            assert(input.take(k + 1) =~= input.take(k).push(element));
        }
        if !element.is_empty() {
            push_all(&mut result, element);
        } else {
            assert(before + part =~= before);
        }
    }
    assert(input.take(input.len() as int) =~= input);
    result
}

/// Applies `callback` to every element of `arr`, in order, and concatenates
/// the sequences it gives, in that order: what `flatten` makes of what `map`
/// would collect, built in a single pass.
pub fn flat_map<F, T, U>(arr: Vec<T>, callback: F) -> (result: Vec<U>)
    where F: Fn(T) -> Vec<U>
    requires
        accepts_each(callback, arr@),
    ensures
        exists|parts: Seq<Vec<U>>|
            #[trigger] maps_to(callback, arr@, parts) && result@ == joined(parts),
{
    let ghost input = arr@;
    let ghost mut parts: Seq<Vec<U>> = Seq::empty();
    let mut result: Vec<U> = Vec::new();
    for element in outer: arr.into_iter()
        invariant
            outer.seq() == input,
            accepts_each(callback, input),
            maps_to(callback, input.take(outer.index() as int), parts),
            result@ == joined(parts),
    {
        let ghost seen = parts;
        let mapped = callback(element);
        proof {
            lemma_map_next(callback, input, outer.index() as int, seen, mapped);
            lemma_joined_push(seen, mapped);
            parts = seen.push(mapped);
        }
        push_all(&mut result, mapped);
    }
    assert(input.take(input.len() as int) =~= input);
    result
}

/// Calls `callback` on a reference to each element of `arr`, in ascending
/// order of index, once per element. The sequence is not consumed.
pub fn for_each<T, F>(arr: &Vec<T>, callback: F)
    where F: Fn(&T)
    requires
        accepts_each_ref(callback, arr@),
    ensures
        visits_each(callback, arr@),
{
    let count = arr.len();
    let mut index: usize = 0;
    while index < count
        invariant
            count == arr.len(),
            index <= count,
            accepts_each_ref(callback, arr@),
            visits_each(callback, arr@.take(index as int)),
        decreases count - index,
    {
        callback(&arr[index]);
        proof {
            lemma_visit_next(callback, arr@, index as int);
        }
        index += 1;
    }
    assert(arr@.take(count as int) =~= arr@);
}

/// As `for_each`, for a callback that may change what it has captured.
pub fn for_each_mutable<T, F>(arr: &Vec<T>, callback: F)
    where F: FnMut(&T)
    requires
        accepts_each_ref(callback, arr@),
    ensures
        visits_each(callback, arr@),
{
    let mut visit = callback;
    let count = arr.len();
    let mut index: usize = 0;
    while index < count
        invariant
            count == arr.len(),
            index <= count,
            visit == callback,
            accepts_each_ref(callback, arr@),
            visits_each(callback, arr@.take(index as int)),
        decreases count - index,
    {
        visit(&arr[index]);
        proof {
            lemma_visit_next(callback, arr@, index as int);
        }
        index += 1;
    }
    assert(arr@.take(count as int) =~= arr@);
}

/// Moves the elements of `part` to the end of `target`, in their order.
pub(crate) fn push_all<T>(target: &mut Vec<T>, part: Vec<T>)
    ensures
        final(target)@ == old(target)@ + part@,
{
    let ghost before = target@;
    let ghost added = part@;
    for item in it: part.into_iter()
        invariant
            it.seq() == added,
            target@ == before + added.take(it.index() as int),
    {
        target.push(item);
        assert(added.take(it.index() + 1) =~= added.take(it.index() as int).push(item));
    }
    assert(added.take(added.len() as int) =~= added);
}

/// Results for the first `k` elements, extended by a result for the next
/// one, are results for the first `k + 1`.
proof fn lemma_map_next<T, U, F: Fn(T) -> U>(
    f: F,
    input: Seq<T>,
    k: int,
    output: Seq<U>,
    value: U,
)
    requires
        0 <= k < input.len(),
        maps_to(f, input.take(k), output),
        call_ensures(f, (input[k],), value),
    ensures
        maps_to(f, input.take(k + 1), output.push(value)),
{
    let longer = output.push(value);
    assert forall|i: int| 0 <= i < k + 1 implies call_ensures(
        f,
        (input.take(k + 1)[i],),
        #[trigger] longer[i],
    ) by {
        if i < k {
            assert(input.take(k)[i] == input.take(k + 1)[i]);
            assert(call_ensures(f, (input.take(k)[i],), output[i]));
        }
    }
}

/// Verdicts on the first `k` elements, extended by a verdict on the next
/// one, are verdicts on the first `k + 1`.
proof fn lemma_judge_next<T, F: Fn(&T) -> bool>(
    f: F,
    input: Seq<T>,
    k: int,
    verdicts: Seq<bool>,
    verdict: bool,
)
    requires
        0 <= k < input.len(),
        judges(f, input.take(k), verdicts),
        call_ensures(f, (&input[k],), verdict),
    ensures
        judges(f, input.take(k + 1), verdicts.push(verdict)),
{
    let longer = verdicts.push(verdict);
    assert forall|i: int| 0 <= i < k + 1 implies call_ensures(
        f,
        (&input.take(k + 1)[i],),
        #[trigger] longer[i],
    ) by {
        if i < k {
            assert(input.take(k)[i] == input.take(k + 1)[i]);
            assert(call_ensures(f, (&input.take(k)[i],), verdicts[i]));
        }
    }
}

/// A chain over the first `k` elements, extended by one call of `f`, is a
/// chain over the first `k + 1`.
proof fn lemma_chain_next<T, U, F: Fn(U, T) -> U>(
    f: F,
    init: U,
    input: Seq<T>,
    k: int,
    accs: Seq<U>,
    next: U,
)
    requires
        0 <= k < input.len(),
        fold_chain(f, init, input.take(k), accs),
        call_ensures(f, (accs.last(), input[k]), next),
    ensures
        fold_chain(f, init, input.take(k + 1), accs.push(next)),
{
    let longer = accs.push(next);
    assert forall|i: int| 0 <= i < k + 1 implies #[trigger] call_ensures(
        f,
        (longer[i], input.take(k + 1)[i]),
        longer[i + 1],
    ) by {
        if i < k {
            assert(input.take(k)[i] == input.take(k + 1)[i]);
            assert(call_ensures(f, (accs[i], input.take(k)[i]), accs[i + 1]));
        }
    }
}

/// One more visit extends the visited prefix by one element.
proof fn lemma_visit_next<T, F: FnMut(&T)>(f: F, input: Seq<T>, k: int)
    requires
        0 <= k < input.len(),
        visits_each(f, input.take(k)),
        call_ensures(f, (&input[k],), ()),
    ensures
        visits_each(f, input.take(k + 1)),
{
    assert forall|i: int| 0 <= i < k + 1 implies #[trigger] call_ensures(
        f,
        (&input.take(k + 1)[i],),
        (),
    ) by {
        if i < k {
            assert(input.take(k)[i] == input.take(k + 1)[i]);
            assert(call_ensures(f, (&input.take(k)[i],), ()));
        }
    }
}

} // verus!
