//! `for_each` over a lazy, pull-based source, with early termination.
//!
//! A source hands out one element per pull and may never run dry. The
//! callback answers each element with a `Signal`; on `Break` the driver
//! stops at once and pulls nothing further.

use vstd::prelude::*;

verus! {

/// What a callback tells the driver after an element.
#[derive(Clone, Copy, Debug, PartialEq, Eq, Structural)]
pub enum Signal {
    /// Go on with the next element.
    Continue,
    /// Stop: pull nothing further.
    Break,
}

impl Default for Signal {
    /// A callback that has nothing to say lets the traversal go on.
    fn default() -> (signal: Signal)
        ensures
            signal == Signal::Continue,
    {
        Signal::Continue
    }
}

/// A sequence that is produced one element at a time, on demand.
pub trait Source: Sized {
    type Item;

    /// The element that the pull after `n` further pulls gives, or `None`
    /// where the source has run dry by then.
    spec fn upcoming(&self, n: nat) -> Option<Self::Item>;

    /// Takes the next element out of the source.
    fn pull(&mut self) -> (next: Option<Self::Item>)
        ensures
            next == old(self).upcoming(0),
            forall|n: nat| #[trigger] final(self).upcoming(n) == old(self).upcoming(n + 1),
    ;
}

/// The first `n` elements of `source` are there, and `f` may answer each of
/// them with `Continue`.
pub open spec fn continues_through<S: Source, F: Fn(S::Item) -> Signal>(
    source: S,
    f: F,
    n: nat,
) -> bool {
    forall|j: nat|
        j < n ==> match #[trigger] source.upcoming(j) {
            Some(item) => call_ensures(f, (item,), Signal::Continue),
            None => false,
        }
}

/// A traversal of `source` that made `calls` calls of `f` may have ended
/// with `end`: on `Break`, the last call answered `Break` and all before it
/// `Continue`; on `Continue`, every call answered `Continue` and the source
/// then had no further element.
pub open spec fn ends_after<S: Source, F: Fn(S::Item) -> Signal>(
    source: S,
    f: F,
    calls: nat,
    end: Signal,
) -> bool {
    match end {
        Signal::Break => {
            &&& calls > 0
            &&& continues_through(source, f, (calls - 1) as nat)
            &&& match source.upcoming((calls - 1) as nat) {
                Some(item) => call_ensures(f, (item,), Signal::Break),
                None => false,
            }
        },
        Signal::Continue => {
            &&& continues_through(source, f, calls)
            &&& source.upcoming(calls) is None
        },
    }
}

/// The number of pulls behind a traversal of `calls` calls that ended with
/// `end`: one per call, and one more where the source ran dry.
pub open spec fn pulls(calls: nat, end: Signal) -> nat {
    match end {
        Signal::Break => calls,
        Signal::Continue => calls + 1,
    }
}

/// `f` may be called on every element of `source` that a traversal can get
/// to.
pub open spec fn accepts_reached<S: Source, F: Fn(S::Item) -> Signal>(source: S, f: F) -> bool {
    forall|n: nat|
        continues_through(source, f, n) ==> match #[trigger] source.upcoming(n) {
            Some(item) => call_requires(f, (item,)),
            None => true,
        }
}

/// Pulls elements from `source` and calls `callback` on each, in the order
/// in which they come, until the callback answers `Break` or the source has
/// run dry. Returns `Break` in the first case and `Continue` in the second.
/// After a `Break` the element that caused it is the last one pulled.
///
/// The traversal must be bound to end: somewhere the source runs dry or the
/// callback cannot answer `Continue`.
pub fn for_each_until<S, F>(source: &mut S, callback: F) -> (end: Signal)
    where S: Source, F: Fn(S::Item) -> Signal
    requires
        accepts_reached(*old(source), callback),
        exists|n: nat| !continues_through(*old(source), callback, n),
    ensures
        exists|calls: nat|
            #[trigger] ends_after(*old(source), callback, calls, end) && forall|n: nat|
                #[trigger] final(source).upcoming(n) == old(source).upcoming(n + pulls(calls, end)),
{
    let ghost start = *source;
    let ghost bound = choose|n: nat| !continues_through(start, callback, n);
    let ghost mut calls: nat = 0;
    loop
        invariant
            start == *old(source),
            accepts_reached(start, callback),
            !continues_through(start, callback, bound),
            continues_through(start, callback, calls),
            forall|n: nat| #[trigger] source.upcoming(n) == start.upcoming(n + calls),
        decreases bound - calls,
    {
        let ghost before = *source;
        assert(before.upcoming(0) == start.upcoming(0 + calls));
        match source.pull() {
            None => {
                proof {
                    assert(ends_after(start, callback, calls, Signal::Continue));
                    assert forall|n: nat| #[trigger]
                        source.upcoming(n) == start.upcoming(n + pulls(calls, Signal::Continue)) by {
                        assert(before.upcoming(n + 1) == start.upcoming(n + 1 + calls));
                    }
                }
                return Signal::Continue;
            },
            Some(item) => {
                let signal = callback(item);
                proof {
                    assert forall|n: nat| #[trigger]
                        source.upcoming(n) == start.upcoming(n + (calls + 1)) by {
                        assert(before.upcoming(n + 1) == start.upcoming(n + 1 + calls));
                    }
                }
                match signal {
                    Signal::Break => {
                        proof {
                            assert(ends_after(start, callback, calls + 1, Signal::Break));
                        }
                        return Signal::Break;
                    },
                    Signal::Continue => {
                        proof {
                            calls = calls + 1;
                            assert(continues_through(start, callback, calls));
                            assert(calls < bound);
                        }
                    },
                }
            },
        }
    }
}

/// An endless counting source over `u64`: it gives `next`, then the number
/// after it, and so on, starting again at zero after the largest.
pub struct Counter {
    pub next: u64,
}

impl Counter {
    /// A counter whose first element is `start`.
    pub fn starting_at(start: u64) -> (counter: Counter)
        ensures
            counter.next == start,
    {
        Counter { next: start }
    }
}

impl Source for Counter {
    type Item = u64;

    open spec fn upcoming(&self, n: nat) -> Option<u64> {
        Some(((self.next + n) % 0x1_0000_0000_0000_0000) as u64)
    }

    fn pull(&mut self) -> (next: Option<u64>) {
        let item = self.next;
        self.next = if item == u64::MAX {
            0
        } else {
            item + 1
        };
        Some(item)
    }
}

/// A source over the elements of a borrowed sequence, from `position` on.
pub struct Cursor<'a, T> {
    pub items: &'a Vec<T>,
    pub position: usize,
}

impl<'a, T> Cursor<'a, T> {
    /// A cursor at the start of `items`.
    pub fn over(items: &'a Vec<T>) -> (cursor: Cursor<'a, T>)
        ensures
            cursor.items == items,
            cursor.position == 0,
    {
        Cursor { items, position: 0 }
    }
}

impl<'a, T> Source for Cursor<'a, T> {
    type Item = &'a T;

    open spec fn upcoming(&self, n: nat) -> Option<&'a T> {
        if self.position + n < self.items@.len() {
            Some(&self.items@[self.position + n])
        } else {
            None
        }
    }

    fn pull(&mut self) -> (next: Option<&'a T>) {
        if self.position < self.items.len() {
            let item = &self.items[self.position];
            self.position = self.position + 1;
            Some(item)
        } else {
            None
        }
    }
}

} // verus!
