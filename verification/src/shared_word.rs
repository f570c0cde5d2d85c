//! The operations on a word that threads share, and records of what they did.
//!
//! What such a word holds at a given moment rests on every thread, and no contract speaks of it. But
//! what one operation has read, or written, is settled once it has been made. A record says so, and
//! only the operation makes one: whoever has a record knows that the operation took place, on which
//! word, and with which values.

use std::sync::atomic::{AtomicUsize, Ordering};
use vstd::prelude::*;

verus! {

/// The value that an atomic word was made with: what it holds until it is first written.
pub uninterp spec fn made_with(word: AtomicUsize) -> usize;

/// Trusted: `AtomicUsize::new` makes a word that starts out with the value it is given.
///
/// What the word holds later, once threads write it, is not said.
#[verifier::external_body]
pub(crate) fn atomic_word(value: usize) -> (word: AtomicUsize)
    ensures
        made_with(word) == value,
{
    AtomicUsize::new(value)
}

/// The record of a read.
pub struct Loaded {
    word: Ghost<AtomicUsize>,
    found: usize,
}

impl Loaded {
    /// The word that was read.
    pub closed spec fn word(&self) -> AtomicUsize {
        self.word@
    }

    /// What was in it.
    pub closed spec fn found(&self) -> usize {
        self.found
    }

    /// What was in the word.
    pub fn value(&self) -> (value: usize)
        ensures
            value == self.found(),
    {
        self.found
    }
}

/// Trusted: `AtomicUsize::load` reads the word that it is given.
///
/// The record has what was read. Which value that is rests on the threads, and is not said.
#[verifier::external_body]
pub(crate) fn load_word(word: &AtomicUsize) -> (loaded: Loaded)
    ensures
        loaded.word() == *word,
{
    Loaded { word: Ghost(*word), found: word.load(Ordering::Relaxed) }
}

/// The record of an exchange: one value was to take the place of another, and did so if the word held
/// that other value.
pub struct Exchanged {
    word: Ghost<AtomicUsize>,
    expected: usize,
    next: usize,
    found: Result<usize, usize>,
}

impl Exchanged {
    /// The word on which the exchange was made.
    pub closed spec fn word(&self) -> AtomicUsize {
        self.word@
    }

    /// The value that was to be replaced.
    pub closed spec fn expected(&self) -> usize {
        self.expected
    }

    /// The value that was to take its place.
    pub closed spec fn next(&self) -> usize {
        self.next
    }

    /// Whether it did.
    pub closed spec fn replaced(&self) -> bool {
        self.found is Ok
    }

    /// What was in the word just before.
    pub closed spec fn found(&self) -> usize {
        match self.found {
            Ok(found) => found,
            Err(found) => found,
        }
    }

    /// The value that was to be replaced.
    pub fn from(&self) -> (value: usize)
        ensures
            value == self.expected(),
    {
        self.expected
    }

    /// Whether the value was replaced.
    pub fn is_replaced(&self) -> (replaced: bool)
        ensures
            replaced == self.replaced(),
    {
        self.found.is_ok()
    }
}

/// Trusted: `AtomicUsize::compare_exchange` puts `next` into the word that it is given if the word
/// holds `expected`, and only then. It comes back with what the word held.
///
/// What that is rests on the threads, and is not said.
#[verifier::external_body]
pub(crate) fn exchange(word: &AtomicUsize, expected: usize, next: usize) -> (exchanged: Exchanged)
    ensures
        exchanged.word() == *word,
        exchanged.expected() == expected,
        exchanged.next() == next,
        exchanged.replaced() <==> exchanged.found() == expected,
{
    let found = word.compare_exchange(expected, next, Ordering::Acquire, Ordering::Relaxed);
    Exchanged { word: Ghost(*word), expected, next, found }
}

/// The record of a write.
pub struct Stored {
    word: Ghost<AtomicUsize>,
    written: usize,
}

impl Stored {
    /// The word that was written.
    pub closed spec fn word(&self) -> AtomicUsize {
        self.word@
    }

    /// What was written.
    pub closed spec fn written(&self) -> usize {
        self.written
    }

    /// What was written.
    pub fn value(&self) -> (value: usize)
        ensures
            value == self.written(),
    {
        self.written
    }
}

/// Trusted: `AtomicUsize::store` writes the value that it is given to the word that it is given.
///
/// How long the value stays there rests on the threads, and is not said.
#[verifier::external_body]
pub(crate) fn store_word(word: &AtomicUsize, value: usize) -> (stored: Stored)
    ensures
        stored.word() == *word,
        stored.written() == value,
{
    word.store(value, Ordering::Release);
    Stored { word: Ghost(*word), written: value }
}

} // verus!
