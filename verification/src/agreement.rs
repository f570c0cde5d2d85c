//! The turns of threads at a [`SharedBelt`] are steps of an interleaving.
//!
//! [`crate::interleaving`] speaks of threads by what they share. Here that is tied to the code. The
//! first turn of an append is a claim and the release of the lock, or, if the batch is refused, a claim
//! that is given up. The second turn is a claim of nothing, which takes the lock, the write, and the
//! release.

use crate::interleaving::{Claimed, Shared, Step};
use crate::len_word::LenWord;
use crate::shared_belt::SharedBelt;
use crate::shared_word::Exchanged;
use vstd::prelude::*;

verus! {

/// Whether a claim for `size` elements at `index` has yet to write its batch.
pub open spec fn owes<T>(claim: Claimed<T>, index: int, size: nat) -> bool {
    !claim.written && claim.index == index && claim.batch.len() == size
}

/// Whether one of these claims has.
pub open spec fn is_owed<T>(claims: Seq<Claimed<T>>, index: int, size: nat) -> bool {
    exists|c: int| 0 <= c < claims.len() && #[trigger] owes(claims[c], index, size)
}

/// Whether a belt is as the shared state has it: it counts as many elements, it has the same elements
/// at the same indices, and the same batches are still to come.
pub open spec fn agrees<T>(s: Shared<T>, belt: &SharedBelt<T>) -> bool {
    &&& crate::len_word::unlocked(s.word) == belt.counted()
    &&& forall|k: int, item: T| #[trigger]
        belt.holds(k, item) <==> crate::interleaving::holds_at(s.slots, k, item)
    &&& forall|index: int, size: nat| #[trigger]
        belt.awaits(index, size) <==> size > 0 && is_owed(s.claims, index, size)
}

/// A new belt is as it is before any thread has done anything.
pub proof fn law_new_belt_agrees<T>(belt: &SharedBelt<T>)
    requires
        belt.wf(),
        belt.settled(),
        belt.counted() == 0,
    ensures
        agrees(crate::interleaving::start(), belt),
{
    belt.law_settled();
    crate::len_word::lemma_word_bits(0);
}

/// One more claim that has yet to write.
proof fn lemma_one_more_owed<T>(claims: Seq<Claimed<T>>, claim: Claimed<T>, index: int, size: nat)
    ensures
        is_owed(claims.push(claim), index, size) <==> is_owed(claims, index, size) || owes(
            claim,
            index,
            size,
        ),
{
    let n = claims.len() as int;
    let more = claims.push(claim);
    if is_owed(claims, index, size) {
        let c = choose|c: int| 0 <= c < n && #[trigger] owes(claims[c], index, size);
        assert(owes(more[c], index, size));
    }
    if owes(claim, index, size) {
        assert(owes(more[n], index, size));
    }
    if is_owed(more, index, size) {
        let c = choose|c: int| 0 <= c <= n && #[trigger] owes(more[c], index, size);
        if c < n {
            assert(owes(claims[c], index, size));
        }
    }
}

/// The first turn of an append. The exchange that takes the lock does to the word what the claim does,
/// and the length that the turn ends with is what the release leaves in it. The index is that of the
/// claim, and the belt is as the two steps have it.
pub proof fn law_first_turn<T>(
    s: Shared<T>,
    word: &LenWord,
    exchanged: Exchanged,
    batch: Seq<T>,
    before: &SharedBelt<T>,
    after: &SharedBelt<T>,
)
    requires
        crate::interleaving::consistent(s),
        agrees(s, before),
        word.claimed_by(batch.len(), exchanged),
        s.word == exchanged.expected(),
        before.reserves(batch.len(), after),
    ensures
        ({
            let claimed = crate::interleaving::apply(
                s,
                Step::Claim { read: exchanged.expected(), batch },
            );
            let released = crate::interleaving::apply(
                claimed,
                Step::Release { claim: s.claims.len() as int },
            );
            &&& claimed.word == exchanged.next()
            &&& claimed.claims.last().index == before.counted()
            &&& released.word == after.counted()
            &&& agrees(released, after)
        }),
{
    crate::len_word::lemma_word_bits(s.word);
    let claim = Claimed { index: s.word as nat, batch, written: false };
    let claimed = crate::interleaving::apply(
        s,
        Step::Claim { read: exchanged.expected(), batch },
    );
    assert(claimed.claims == s.claims.push(claim));
    let released = crate::interleaving::apply(
        claimed,
        Step::Release { claim: s.claims.len() as int },
    );
    assert(released.claims == s.claims.push(claim));
    assert(claimed.claims[s.claims.len() as int] == claim);
    crate::len_word::lemma_word_bits(released.word);
    assert forall|index: int, size: nat| #[trigger]
        after.awaits(index, size) <==> size > 0 && is_owed(released.claims, index, size) by {
        lemma_one_more_owed(s.claims, claim, index, size);
        assert(before.awaits(index, size) <==> size > 0 && is_owed(s.claims, index, size));
    }
    assert forall|k: int, item: T| #[trigger]
        after.holds(k, item) <==> crate::interleaving::holds_at(released.slots, k, item) by {
        assert(after.holds(k, item) <==> before.holds(k, item));
    }
}

/// A first turn that is refused is a claim that is given up. The length that the turn ends with is what
/// that leaves in the word, and the belt is as it was.
pub proof fn law_refused_turn<T>(
    s: Shared<T>,
    word: &LenWord,
    exchanged: Exchanged,
    batch: Seq<T>,
    belt: &SharedBelt<T>,
)
    requires
        crate::interleaving::consistent(s),
        agrees(s, belt),
        word.claimed_by(batch.len(), exchanged),
        s.word == exchanged.expected(),
    ensures
        ({
            let claimed = crate::interleaving::apply(
                s,
                Step::Claim { read: exchanged.expected(), batch },
            );
            let abandoned = crate::interleaving::apply(
                claimed,
                Step::Abandon { claim: s.claims.len() as int },
            );
            &&& claimed.word == exchanged.next()
            &&& abandoned == s
            &&& abandoned.word == belt.counted()
            &&& agrees(abandoned, belt)
        }),
{
    crate::len_word::lemma_word_bits(s.word);
    crate::interleaving::law_abandoned_claim_leaves_no_trace(s, exchanged.expected(), batch);
}

/// A claim of nothing takes the lock and leaves the belt as it is.
proof fn lemma_empty_claim<T>(s: Shared<T>, belt: &SharedBelt<T>, read: usize)
    requires
        crate::interleaving::consistent(s),
        agrees(s, belt),
        s.word == read,
        !crate::len_word::locked(read),
    ensures
        ({
            let claimed = crate::interleaving::apply(
                s,
                Step::Claim { read, batch: Seq::empty() },
            );
            &&& claimed.claims == s.claims.push(
                Claimed { index: read as nat, batch: Seq::empty(), written: false },
            )
            &&& claimed.holder == Some(s.claims.len() as int)
            &&& claimed.word == crate::len_word::claim_of(read, 0)->Some_0.1
            &&& agrees(claimed, belt)
        }),
{
    crate::len_word::lemma_word_bits(read);
    let nothing = Claimed { index: read as nat, batch: Seq::<T>::empty(), written: false };
    let claimed = crate::interleaving::apply(s, Step::Claim { read, batch: Seq::empty() });
    assert(claimed.claims == s.claims.push(nothing));
    crate::len_word::lemma_word_bits(claimed.word);
    assert forall|index: int, size: nat| #[trigger]
        belt.awaits(index, size) <==> size > 0 && is_owed(claimed.claims, index, size) by {
        lemma_one_more_owed(s.claims, nothing, index, size);
    }
}

/// The write of nothing, and the release, leave the belt as it is.
proof fn lemma_empty_write_and_release<T>(s: Shared<T>, belt: &SharedBelt<T>, claim: int)
    requires
        crate::interleaving::consistent(s),
        agrees(s, belt),
        s.holder == Some(claim),
        s.claims[claim].batch.len() == 0,
    ensures
        ({
            let written = crate::interleaving::apply(s, Step::Write { claim });
            let released = crate::interleaving::apply(written, Step::Release { claim });
            &&& released.word == belt.counted()
            &&& agrees(released, belt)
        }),
{
    let n = s.claims.len() as int;
    let written = crate::interleaving::apply(s, Step::Write { claim });
    let released = crate::interleaving::apply(written, Step::Release { claim });
    crate::interleaving::law_step_keeps_consistent(s, Step::Write { claim });
    crate::interleaving::law_step_keeps_consistent(written, Step::Release { claim });
    crate::interleaving::lemma_claim_start_step(s.claims, claim, n);
    crate::len_word::lemma_word_bits(s.word);
    crate::len_word::lemma_word_bits(released.word);
    assert forall|k: int, item: T| #[trigger]
        belt.holds(k, item) <==> crate::interleaving::holds_at(released.slots, k, item) by {
        assert(belt.holds(k, item) <==> crate::interleaving::holds_at(s.slots, k, item));
    }
    assert forall|index: int, size: nat| #[trigger]
        belt.awaits(index, size) <==> size > 0 && is_owed(released.claims, index, size) by {
        if size > 0 && is_owed(s.claims, index, size) {
            let d = choose|d: int| 0 <= d < n && #[trigger] owes(s.claims[d], index, size);
            assert(owes(released.claims[d], index, size));
        }
        if size > 0 && is_owed(released.claims, index, size) {
            let d = choose|d: int| 0 <= d < n && #[trigger] owes(released.claims[d], index, size);
            assert(owes(s.claims[d], index, size));
        }
    }
}

/// The second turn of an append: a claim of nothing takes the lock, the batch of the append's own claim
/// is written, and the lock is given back. The exchange does to the word what the claim of nothing does,
/// the length that the turn ends with is what the release leaves in it, and the belt is as these steps
/// have it.
pub proof fn law_second_turn<T>(
    s: Shared<T>,
    word: &LenWord,
    exchanged: Exchanged,
    claim: int,
    before: &SharedBelt<T>,
    after: &SharedBelt<T>,
)
    requires
        crate::interleaving::consistent(s),
        agrees(s, before),
        word.claimed_by(0, exchanged),
        s.word == exchanged.expected(),
        0 <= claim < s.claims.len(),
        !s.claims[claim].written,
        before.places(s.claims[claim].index, s.claims[claim].batch, after),
    ensures
        ({
            let turn = s.claims.len() as int;
            let claimed = crate::interleaving::apply(
                s,
                Step::Claim { read: exchanged.expected(), batch: Seq::empty() },
            );
            let written = crate::interleaving::apply(claimed, Step::Write { claim });
            let done = crate::interleaving::apply(written, Step::Write { claim: turn });
            let released = crate::interleaving::apply(done, Step::Release { claim: turn });
            &&& claimed.word == exchanged.next()
            &&& released.word == after.counted()
            &&& agrees(released, after)
        }),
{
    let turn = s.claims.len() as int;
    let read = exchanged.expected();
    crate::len_word::lemma_word_bits(read);
    lemma_empty_claim(s, before, read);
    let claimed = crate::interleaving::apply(s, Step::Claim { read, batch: Seq::empty() });
    crate::interleaving::law_step_keeps_consistent(s, Step::Claim { read, batch: Seq::empty() });
    assert(claimed.claims[claim] == s.claims[claim]);
    law_write_places(claimed, claim, before, after);
    let written = crate::interleaving::apply(claimed, Step::Write { claim });
    crate::interleaving::law_step_keeps_consistent(claimed, Step::Write { claim });
    assert(written.claims[turn] == claimed.claims[turn]);
    lemma_empty_write_and_release(written, after, turn);
}

/// To put a batch in its place is the write of its claim.
pub proof fn law_write_places<T>(
    s: Shared<T>,
    claim: int,
    before: &SharedBelt<T>,
    after: &SharedBelt<T>,
)
    requires
        crate::interleaving::consistent(s),
        agrees(s, before),
        0 <= claim < s.claims.len(),
        !s.claims[claim].written,
        before.places(s.claims[claim].index, s.claims[claim].batch, after),
    ensures
        agrees(crate::interleaving::apply(s, Step::Write { claim }), after),
{
    let c = s.claims[claim];
    let n = s.claims.len() as int;
    let written = crate::interleaving::apply(s, Step::Write { claim });
    assert forall|k: int, item: T| #[trigger]
        after.holds(k, item) <==> crate::interleaving::holds_at(written.slots, k, item) by {
        assert(before.holds(k, item) <==> crate::interleaving::holds_at(s.slots, k, item));
        if c.index <= k < c.index + c.batch.len() && s.slots.contains_key(k) {
            assert(crate::interleaving::written_over(s.claims, k));
            let d = choose|d: int|
                0 <= d < n && #[trigger] crate::interleaving::covers(s.claims[d], k);
            lemma_apart(s, claim, d);
        }
    }
    assert forall|index: int, size: nat| #[trigger]
        after.awaits(index, size) <==> size > 0 && is_owed(written.claims, index, size) by {
        assert(before.awaits(index, size) <==> size > 0 && is_owed(s.claims, index, size));
        if size > 0 && is_owed(written.claims, index, size) {
            let d = choose|d: int| 0 <= d < n && #[trigger] owes(written.claims[d], index, size);
            assert(owes(s.claims[d], index, size));
            if c.batch.len() > 0 {
                lemma_apart(s, claim, d);
            }
        }
        if size > 0 && is_owed(s.claims, index, size) && !(c.batch.len() > 0 && index == c.index) {
            let d = choose|d: int| 0 <= d < n && #[trigger] owes(s.claims[d], index, size);
            assert(owes(written.claims[d], index, size));
        }
    }
}

/// The indices of two claims are apart.
proof fn lemma_apart<T>(s: Shared<T>, c: int, d: int)
    requires
        crate::interleaving::consistent(s),
        0 <= c < s.claims.len(),
        0 <= d < s.claims.len(),
        c != d,
    ensures
        ({
            let first = s.claims[c];
            let second = s.claims[d];
            ||| first.index + first.batch.len() <= second.index
            ||| second.index + second.batch.len() <= first.index
        }),
{
    if c < d {
        crate::interleaving::lemma_claim_start_step(s.claims, c, d);
    } else {
        crate::interleaving::lemma_claim_start_step(s.claims, d, c);
    }
}

/// When all appends are over, the belt knows that nothing is still to come, and holds what the
/// interleaving has led to.
pub proof fn law_settled_agrees<T>(s: Shared<T>, belt: &SharedBelt<T>)
    requires
        crate::interleaving::consistent(s),
        crate::interleaving::settled(s),
        agrees(s, belt),
        belt.wf(),
    ensures
        belt.settled(),
        belt.contents() == crate::interleaving::contents(s),
{
    assert forall|index: int, size: nat| !belt.awaits(index, size) by {
        if is_owed(s.claims, index, size) {
            let c = choose|c: int|
                0 <= c < s.claims.len() && #[trigger] owes(s.claims[c], index, size);
            assert(s.claims[c].written);
        }
    }
    belt.law_settled();
    let all = crate::interleaving::contents(s);
    assert forall|k: int| 0 <= k < all.len() implies belt.contents()[k] == all[k] by {
        assert(belt.holds(k, belt.contents()[k]));
    }
    assert(belt.contents() =~= all);
}

} // verus!
