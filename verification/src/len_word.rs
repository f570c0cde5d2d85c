//! The word that holds a belt's length, and in its top bit the lock on the belt.

use crate::shared_word::{atomic_word, exchange, load_word, store_word, Exchanged, Loaded, Stored};
use crossbeam_utils::{Backoff, CachePadded};
use likely_stable::unlikely;
use std::sync::atomic::AtomicUsize;
use vstd::prelude::*;

verus! {

/// The lock bit of a length word: the topmost one.
pub const FLAG: usize = 1 << (usize::BITS - 1);

/// The length bits of a length word, and so the greatest length that a belt can reach.
pub const MASK: usize = !FLAG;

/// What the bit operations on a length word come to in plain arithmetic.
pub proof fn lemma_word_bits(word: usize)
    ensures
        FLAG == MASK + 1,
        FLAG + MASK == usize::MAX,
        MASK == isize::MAX,
        word & MASK == unlocked(word),
        word <= MASK ==> word | FLAG == word + FLAG,
        word & FLAG == FLAG <==> locked(word),
{
    assert(!(1usize << ((usize::BITS - 1) as u32)) == (1usize << ((usize::BITS - 1) as u32)) - 1)
        by (bit_vector);
    assert((1usize << ((usize::BITS - 1) as u32)) + !(1usize << ((usize::BITS - 1) as u32))
        == !0usize) by (bit_vector);
    let top = usize::MAX;
    assert(top <= !0usize) by (bit_vector);
    assert(word & !(1usize << ((usize::BITS - 1) as u32)) == if word > !(1usize << ((usize::BITS
        - 1) as u32)) {
        word - (1usize << ((usize::BITS - 1) as u32))
    } else {
        word as int
    }) by (bit_vector);
    assert(word <= !(1usize << ((usize::BITS - 1) as u32)) ==> word | (1usize << ((usize::BITS
        - 1) as u32)) == word + (1usize << ((usize::BITS - 1) as u32))) by (bit_vector);
    assert(word & (1usize << ((usize::BITS - 1) as u32)) == (1usize << ((usize::BITS - 1) as u32))
        <==> word > !(1usize << ((usize::BITS - 1) as u32))) by (bit_vector);
}

/// Whether a length word has its lock bit set.
pub open spec fn locked(word: usize) -> bool {
    word > MASK
}

/// The length in a length word, whether its lock bit is set or not.
pub open spec fn unlocked(word: usize) -> int {
    if locked(word) {
        word - FLAG
    } else {
        word as int
    }
}

/// What a thread would write to claim room for `additional` more elements, having read `word`: the
/// length it counts from, and the locked word that takes its place.
///
/// There is no such claim when the belt would hold more than `MASK` elements.
pub open spec fn claim_of(word: usize, additional: nat) -> Option<(usize, usize)> {
    if unlocked(word) + additional > MASK {
        None
    } else {
        Some((unlocked(word) as usize, (unlocked(word) + additional + FLAG) as usize))
    }
}

/// The claim for `additional` more elements of a thread that has read `word`, if there is one.
pub fn claim(word: usize, additional: usize) -> (r: Option<(usize, usize)>)
    ensures
        r == claim_of(word, additional as nat),
        r is None <==> (word & MASK) + additional > isize::MAX,
        r matches Some((len, next)) ==> len == word & MASK && next == len + additional + isize::MAX
            + 1,
{
    proof {
        lemma_word_bits(word);
        lemma_word_bits(additional);
    }
    if unlikely(additional & FLAG == FLAG) {
        return None;
    }
    let len: usize = word & MASK;
    let new_len: usize = len + additional;
    proof {
        lemma_word_bits(new_len);
    }
    if unlikely(new_len & FLAG == FLAG) {
        return None;
    }
    Some((len, new_len | FLAG))
}

/// `crossbeam_utils::CachePadded`: a value alone on its cache line.
#[verifier::external_type_specification]
#[verifier::external_body]
#[verifier::reject_recursive_types(T)]
pub struct ExCachePadded<T>(CachePadded<T>);

/// The word inside a padded word.
pub uninterp spec fn padded_word(padded: CachePadded<AtomicUsize>) -> AtomicUsize;

/// Trusted: `CachePadded::new` keeps the very word that it is given.
#[verifier::external_body]
fn pad(word: AtomicUsize) -> (padded: CachePadded<AtomicUsize>)
    ensures
        padded_word(padded) == word,
{
    CachePadded::new(word)
}

/// Trusted: `CachePadded::deref` borrows the word that is padded.
#[verifier::external_body]
fn inner(padded: &CachePadded<AtomicUsize>) -> (word: &AtomicUsize)
    ensures
        *word == padded_word(*padded),
{
    std::ops::Deref::deref(padded)
}

/// `crossbeam_utils::Backoff`: how long a thread has been waiting, and so how it waits next.
#[verifier::external_type_specification]
#[verifier::external_body]
pub struct ExBackoff(Backoff);

/// Trusted: `Backoff::new` makes a counter and nothing else.
pub assume_specification[ Backoff::new ]() -> Backoff;

/// Trusted: `Backoff::snooze` spins or yields for a moment and comes back.
pub assume_specification[ Backoff::snooze ](backoff: &Backoff);

/// How an attempt to reserve room ended. Each end has the record of what has led to it.
pub enum Reservation {
    /// The exchange has put the claim into the word. The lock is taken, and room is reserved behind as
    /// many elements as the exchange has replaced.
    Reserved(Exchanged),
    /// With what was read the belt has no room for so many elements. Nothing is locked.
    TooManyElements(Loaded),
    /// Every try met another thread, the last of them in this exchange. Nothing is locked.
    Contended(Option<Exchanged>),
}

/// The record of a lock that was given back: what was written to the word, and how what the lock guards
/// was at that moment.
pub struct Released<S> {
    stored: Stored,
    guarded: Ghost<S>,
}

impl<S> Released<S> {
    /// The record of the write.
    pub closed spec fn stored(&self) -> Stored {
        self.stored
    }

    /// The word that was written.
    pub closed spec fn word(&self) -> AtomicUsize {
        self.stored.word()
    }

    /// What was written.
    pub closed spec fn written(&self) -> usize {
        self.stored.written()
    }

    /// What the lock guards, as it was when the word was written.
    pub closed spec fn guarded(&self) -> S {
        self.guarded@
    }

    /// What was written.
    pub fn value(&self) -> (value: usize)
        ensures
            value == self.written(),
    {
        self.stored.value()
    }
}

/// A length word that threads share.
///
/// What the word holds at a given moment rests on what every thread does with it, so the contracts
/// here speak of what one operation has read or written. What a thread makes of a value that it has
/// read is [`claim`], and what comes of any number of threads together is the matter of
/// [`crate::interleaving`].
pub struct LenWord {
    word: CachePadded<AtomicUsize>,
}

impl LenWord {
    /// The word itself.
    pub closed spec fn cell(&self) -> AtomicUsize {
        padded_word(self.word)
    }

    /// The value that the word was made with: what it holds until a thread first writes it.
    pub open spec fn initial(&self) -> usize {
        crate::shared_word::made_with(self.cell())
    }

    /// Whether an exchange was made on this word, to claim room for `additional` elements behind as
    /// many as it expected there to be.
    pub open spec fn claimed_by(&self, additional: nat, exchanged: Exchanged) -> bool {
        claims_room(self.cell(), additional, exchanged)
    }

    /// An unlocked word that holds the length `len`.
    pub fn new(len: usize) -> (w: LenWord)
        requires
            len <= MASK,
        ensures
            w.initial() == len,
            crate::shared_word::made_with(w.cell()) == len,
            !locked(w.initial()),
    {
        LenWord { word: pad(atomic_word(len)) }
    }

    /// The word as it stands, with the lock bit in it if an append is under way.
    ///
    /// Another thread may have written the word at any time, so every value is possible.
    pub fn load(&self) -> (loaded: Loaded)
        ensures
            loaded.word() == self.cell(),
    {
        load_word(inner(&self.word))
    }

    /// Reserves room for `additional` elements and takes the lock, in at most `tries` tries.
    ///
    /// Between two tries the thread backs off, longer each time.
    pub fn reserve(&self, additional: usize, tries: usize) -> (r: Reservation)
        ensures
            match r {
                Reservation::Reserved(exchanged) => {
                    &&& tries > 0
                    &&& self.claimed_by(additional as nat, exchanged)
                    &&& exchanged.replaced()
                    &&& exchanged.word() == self.cell()
                    &&& exchanged.expected() + additional <= isize::MAX
                    &&& exchanged.next() == exchanged.expected() + additional + isize::MAX + 1
                },
                Reservation::TooManyElements(loaded) => {
                    &&& tries > 0
                    &&& loaded.word() == self.cell()
                    &&& claim_of(loaded.found(), additional as nat) is None
                    &&& (loaded.found() & MASK) + additional > isize::MAX
                },
                Reservation::Contended(Some(exchanged)) => {
                    &&& tries > 0
                    &&& self.claimed_by(additional as nat, exchanged)
                    &&& !exchanged.replaced()
                },
                Reservation::Contended(None) => tries == 0,
            },
    {
        let backoff = Backoff::new();
        let word = inner(&self.word);
        let mut last: Option<Exchanged> = None;
        for i in 0..tries
            invariant
                *word == self.cell(),
                match last {
                    Some(exchanged) => {
                        &&& i > 0
                        &&& self.claimed_by(additional as nat, exchanged)
                        &&& !exchanged.replaced()
                    },
                    None => i == 0,
                },
        {
            let read = load_word(word);
            proof {
                lemma_word_bits(read.found());
            }
            match claim(read.value(), additional) {
                None => {
                    return Reservation::TooManyElements(read);
                },
                Some((len, next)) => {
                    let exchanged = exchange(word, len, next);
                    proof {
                        lemma_word_bits(len);
                    }
                    if exchanged.is_replaced() {
                        return Reservation::Reserved(exchanged);
                    }
                    last = Some(exchanged);
                    backoff.snooze();
                },
            }
        }
        Reservation::Contended(last)
    }

    /// Gives the lock back, and publishes `len` as the belt's length.
    pub fn release(&self, len: usize) -> (stored: Stored)
        requires
            len <= MASK,
        ensures
            stored.word() == self.cell(),
            stored.written() == len,
    {
        store_word(inner(&self.word), len)
    }

    /// Gives the lock back on what it guards, and publishes `len` as the belt's length.
    pub fn release_with<S>(&self, len: usize, guarded: &S) -> (released: Released<S>)
        requires
            len <= MASK,
        ensures
            released.word() == self.cell(),
            released.written() == len,
            released.guarded() == *guarded,
    {
        Released { stored: self.release(len), guarded: Ghost(*guarded) }
    }
}

/// There is a claim if and only if the elements can be counted, whether the word is locked or not: with
/// the top bit cleared, what was read and what is to be added come to no more than `isize::MAX`. A lock
/// that another thread holds is no reason to refuse; it is met when the claim is tried.
pub proof fn law_claim_exists(word: usize, additional: nat)
    ensures
        claim_of(word, additional) is Some <==> (if word <= isize::MAX {
            word as int
        } else {
            word - isize::MAX - 1
        }) + additional <= isize::MAX,
        claim_of(word, additional) is Some <==> (word & MASK) + additional <= isize::MAX,
        MASK == isize::MAX,
        FLAG == isize::MAX + 1,
{
    lemma_word_bits(word);
}

/// Whether another thread holds the lock makes no difference to a claim: what is claimed is the same for
/// a length and for that length with the lock bit set.
pub proof fn law_claim_ignores_lock(len: usize, word: usize, additional: nat)
    requires
        len <= isize::MAX,
        word == len + isize::MAX + 1,
    ensures
        claim_of(word, additional) == claim_of(len, additional),
{
    lemma_word_bits(len);
}

/// More elements are claimed only if fewer are: whoever can claim room for a batch can claim it for a
/// smaller one, behind the same elements.
pub proof fn law_claim_fewer(word: usize, fewer: nat, additional: nat)
    requires
        fewer <= additional,
        claim_of(word, additional) is Some,
    ensures
        claim_of(word, fewer) is Some,
        claim_of(word, fewer)->Some_0.0 == claim_of(word, additional)->Some_0.0,
        claim_of(word, additional)->Some_0.1 - claim_of(word, fewer)->Some_0.1 == additional - fewer,
{
    lemma_word_bits(word);
}

/// The word, as a thread has it that holds its lock: all that can be done to it is to give the lock back.
///
/// That takes the record of the exchange that took the lock, of which there is just one. So whoever has
/// the word in this way writes it at most once, and not at all without having taken the lock.
pub trait Turn {
    /// The word itself.
    spec fn at(&self) -> AtomicUsize;

    /// Gives the lock back on what it guards, and publishes `len` as the belt's length.
    fn give_back<S>(&self, exchanged: Exchanged, len: usize, guarded: &S) -> (released: Released<S>)
        requires
            exchanged.word() == self.at(),
            exchanged.replaced(),
            len <= MASK,
        ensures
            released.word() == self.at(),
            released.written() == len,
            released.guarded() == *guarded,
    ;
}

impl Turn for LenWord {
    open spec fn at(&self) -> AtomicUsize {
        self.cell()
    }

    fn give_back<S>(&self, exchanged: Exchanged, len: usize, guarded: &S) -> (released: Released<S>) {
        self.release_with(len, guarded)
    }
}

/// Whether an exchange was made on `word`, to claim room for `additional` elements behind as many as it
/// expected there to be.
pub open spec fn claims_room(word: AtomicUsize, additional: nat, exchanged: Exchanged) -> bool {
    &&& exchanged.word() == word
    &&& claim_of(exchanged.expected(), additional) == Some(
        (exchanged.expected(), exchanged.next()),
    )
}

/// An exchange that claims room expects an unlocked length, and puts in its place the length with the
/// room counted and the lock bit set.
pub proof fn law_claimed_by(word: &LenWord, additional: nat, exchanged: Exchanged)
    requires
        word.claimed_by(additional, exchanged),
    ensures
        exchanged.word() == word.cell(),
        exchanged.expected() + additional <= isize::MAX,
        exchanged.next() == exchanged.expected() + additional + isize::MAX + 1,
{
    lemma_word_bits(exchanged.expected());
}

/// The record of a lock that was given back says what its write says.
pub proof fn law_released<S>(released: Released<S>)
    ensures
        released.word() == released.stored().word(),
        released.written() == released.stored().written(),
{
}

/// A claim locks the word and counts what is claimed: with its lock bit cleared, the word that it
/// writes is the length once the elements are there. What it replaces is that length without them,
/// unlocked.
pub proof fn law_claim_counts(word: usize, additional: nat)
    requires
        claim_of(word, additional) is Some,
    ensures
        ({
            let (len, next) = claim_of(word, additional)->Some_0;
            &&& !locked(len)
            &&& len == unlocked(word)
            &&& locked(next)
            &&& unlocked(next) == len + additional
        }),
{
    lemma_word_bits(word);
}

} // verus!
