//! Any number of threads at one belt.
//!
//! Threads meet at the length word alone. A thread reads the word, at some time or other, and makes
//! a [`claim`](crate::len_word::claim) of what it has read; the claim succeeds if the word is then
//! the length that it counts from. That sets the lock bit, and reserves the indices that follow.
//! Later the thread writes its batch at those indices, and gives the lock back, in whichever order.
//! Or it finds that the fragment it needs would be too large, and then puts the word back.
//!
//! A [`Step`] is one of these four, by any thread, and a list of steps is an interleaving. What is
//! said here of the state that [`run`] leads to holds of every interleaving.

use crate::belt::VecBelt;
use vstd::prelude::*;

verus! {

/// An append whose claim has succeeded.
pub ghost struct Claimed<T> {
    /// The length that the claim counted from: the first of the reserved indices.
    pub index: nat,
    /// What is appended.
    pub batch: Seq<T>,
    /// Whether the batch is there yet.
    pub written: bool,
}

/// What the threads share.
pub ghost struct Shared<T> {
    /// The length word.
    pub word: usize,
    /// The appends, in the order in which their claims succeeded.
    pub claims: Seq<Claimed<T>>,
    /// Which of them holds the lock.
    pub holder: Option<int>,
    /// The elements that are there, by index.
    pub slots: Map<int, T>,
}

/// Something that a thread does to what is shared.
pub ghost enum Step<T> {
    /// A thread that has read `read` tries to claim room for `batch`.
    Claim { read: usize, batch: Seq<T> },
    /// The thread of a claim writes its batch.
    Write { claim: int },
    /// The thread of a claim gives the lock back.
    Release { claim: int },
    /// The thread of a claim cannot have its fragment, and gives up its claim and the lock.
    Abandon { claim: int },
}

/// An empty belt, and no threads at it yet.
pub open spec fn start<T>() -> Shared<T> {
    Shared { word: 0, claims: Seq::empty(), holder: None, slots: Map::empty() }
}

/// The slots once `batch` is written at `index`.
pub open spec fn with_batch<T>(slots: Map<int, T>, index: nat, batch: Seq<T>) -> Map<int, T> {
    Map::new(
        |k: int| slots.contains_key(k) || index <= k < index + batch.len(),
        |k: int|
            if index <= k < index + batch.len() {
                batch[k - index]
            } else {
                slots[k]
            },
    )
}

/// What a step does. A claim that comes too late, or that would count too far, does nothing, and so
/// does a step of a thread that is not at that point.
pub open spec fn apply<T>(s: Shared<T>, step: Step<T>) -> Shared<T> {
    match step {
        Step::Claim { read, batch } => {
            match crate::len_word::claim_of(read, batch.len()) {
                Some((len, next)) if s.word == len => Shared {
                    word: next,
                    claims: s.claims.push(Claimed { index: len as nat, batch, written: false }),
                    holder: Some(s.claims.len() as int),
                    slots: s.slots,
                },
                _ => s,
            }
        },
        Step::Write { claim } => {
            if 0 <= claim < s.claims.len() && !s.claims[claim].written {
                let c = s.claims[claim];
                Shared {
                    claims: s.claims.update(claim, Claimed { written: true, ..c }),
                    slots: with_batch(s.slots, c.index, c.batch),
                    ..s
                }
            } else {
                s
            }
        },
        Step::Release { claim } => {
            if s.holder == Some(claim) {
                Shared {
                    word: (s.claims[claim].index + s.claims[claim].batch.len()) as usize,
                    holder: None,
                    ..s
                }
            } else {
                s
            }
        },
        Step::Abandon { claim } => {
            if s.holder == Some(claim) && !s.claims[claim].written {
                Shared {
                    word: s.claims[claim].index as usize,
                    claims: s.claims.drop_last(),
                    holder: None,
                    slots: s.slots,
                }
            } else {
                s
            }
        },
    }
}

/// The state after these steps.
pub open spec fn run<T>(steps: Seq<Step<T>>) -> Shared<T>
    decreases steps.len(),
{
    if steps.len() == 0 {
        start()
    } else {
        apply(run(steps.drop_last()), steps.last())
    }
}

/// The batches of these claims.
pub open spec fn batches<T>(claims: Seq<Claimed<T>>) -> Seq<Seq<T>> {
    Seq::new(claims.len(), |i: int| claims[i].batch)
}

/// Whether `item` is in the slot of index `k`.
pub open spec fn holds_at<T>(slots: Map<int, T>, k: int, item: T) -> bool {
    slots.contains_key(k) && slots[k] == item
}

/// Whether the batch of a claim is there, at the indices that are reserved for it.
pub open spec fn placed<T>(slots: Map<int, T>, claim: Claimed<T>) -> bool {
    forall|k: int|
        0 <= k < claim.batch.len() ==> holds_at(slots, claim.index + k, #[trigger] claim.batch[k])
}

/// The index at which claim `i` begins: behind the batches of the claims before it.
pub open spec fn claim_start<T>(claims: Seq<Claimed<T>>, i: int) -> nat {
    crate::laws::flat(batches(claims.take(i))).len()
}

/// Whether index `k` is one of those of a claim whose batch is there.
pub open spec fn covers<T>(claim: Claimed<T>, k: int) -> bool {
    claim.written && claim.index <= k < claim.index + claim.batch.len()
}

/// Whether index `k` is one of those of some claim whose batch is there.
pub open spec fn written_over<T>(claims: Seq<Claimed<T>>, k: int) -> bool {
    exists|c: int| 0 <= c < claims.len() && #[trigger] covers(claims[c], k)
}

/// What holds of the shared state at every moment: the claims follow each other without a gap up to
/// the length in the word, the lock bit is set while the latest claim holds the lock, what is written
/// is where it belongs, and where nothing is written there is nothing.
pub open spec fn consistent<T>(s: Shared<T>) -> bool {
    &&& crate::len_word::unlocked(s.word) == claim_start(s.claims, s.claims.len() as int)
    &&& forall|i: int|
        0 <= i < s.claims.len() ==> (#[trigger] s.claims[i]).index == claim_start(s.claims, i)
    &&& crate::len_word::locked(s.word) <==> s.holder is Some
    &&& s.holder matches Some(h) ==> 0 <= h == s.claims.len() - 1
    &&& forall|i: int|
        0 <= i < s.claims.len() && (#[trigger] s.claims[i]).written ==> placed(
            s.slots,
            s.claims[i],
        )
    &&& forall|k: int| #[trigger] s.slots.contains_key(k) ==> written_over(s.claims, k)
}

/// A claim ends where the next one begins, and so before any later one begins.
pub proof fn lemma_claim_start_step<T>(claims: Seq<Claimed<T>>, i: int, j: int)
    requires
        0 <= i < j <= claims.len(),
    ensures
        claim_start(claims, i) + claims[i].batch.len() <= claim_start(claims, j),
        j == i + 1 ==> claim_start(claims, i) + claims[i].batch.len() == claim_start(claims, j),
    decreases j,
{
    let upto = batches(claims.take(j));
    assert(upto.drop_last() =~= batches(claims.take(j - 1)));
    if i < j - 1 {
        lemma_claim_start_step(claims, i, j - 1);
    }
}

/// Where claims begin depends only on the claims before them.
proof fn lemma_claim_start_same<T>(claims: Seq<Claimed<T>>, others: Seq<Claimed<T>>, i: int)
    requires
        0 <= i <= claims.len(),
        i <= others.len(),
        forall|j: int| 0 <= j < i ==> (#[trigger] claims[j]).batch == others[j].batch,
    ensures
        claim_start(claims, i) == claim_start(others, i),
{
    assert(batches(claims.take(i)) =~= batches(others.take(i))) by {
        assert forall|j: int| 0 <= j < i implies batches(claims.take(i))[j] == batches(
            others.take(i),
        )[j] by {
            assert(claims[j].batch == others[j].batch);
        }
    }
}

/// More claims cover what fewer cover.
proof fn lemma_more_claims<T>(claims: Seq<Claimed<T>>, claim: Claimed<T>, k: int)
    requires
        written_over(claims, k),
    ensures
        written_over(claims.push(claim), k),
{
    let c = choose|c: int| 0 <= c < claims.len() && #[trigger] covers(claims[c], k);
    assert(covers(claims.push(claim)[c], k));
}

/// A claim keeps the shared state consistent.
proof fn lemma_claim_keeps_consistent<T>(s: Shared<T>, read: usize, batch: Seq<T>)
    requires
        consistent(s),
    ensures
        consistent(apply(s, Step::Claim { read, batch })),
{
    let after = apply(s, Step::Claim { read, batch });
    let n = s.claims.len() as int;
    crate::len_word::lemma_word_bits(read);
    if after.claims.len() > n {
        let claim = after.claims[n];
        lemma_claim_start_same(after.claims, s.claims, n);
        lemma_claim_start_step(after.claims, n, n + 1);
        assert forall|i: int| 0 <= i < n + 1 implies (#[trigger] after.claims[i]).index
            == claim_start(after.claims, i) by {
            lemma_claim_start_same(after.claims, s.claims, i);
            if i < n {
                assert(s.claims[i].index == claim_start(s.claims, i));
            }
        }
        assert forall|i: int| 0 <= i < n + 1 && (#[trigger] after.claims[i]).written implies placed(
            after.slots,
            after.claims[i],
        ) by {
            assert(after.claims[i] == s.claims[i]);
        }
        assert forall|k: int| #[trigger] after.slots.contains_key(k) implies written_over(
            after.claims,
            k,
        ) by {
            lemma_more_claims(s.claims, claim, k);
        }
    }
}

/// A batch that is written leaves a claim that it does not overlap as it was.
proof fn lemma_with_batch<T>(slots: Map<int, T>, c: Claimed<T>, d: Claimed<T>)
    requires
        placed(slots, d),
        c.index + c.batch.len() <= d.index || d.index + d.batch.len() <= c.index,
    ensures
        placed(with_batch(slots, c.index, c.batch), d),
{
    assert forall|k: int| 0 <= k < d.batch.len() implies holds_at(
        with_batch(slots, c.index, c.batch),
        d.index + k,
        #[trigger] d.batch[k],
    ) by {
        assert(holds_at(slots, d.index + k, d.batch[k]));
    }
}

/// A write leaves what is written where it belongs, and its own batch too.
proof fn lemma_write_places<T>(s: Shared<T>, claim: int, i: int)
    requires
        consistent(s),
        0 <= claim < s.claims.len(),
        !s.claims[claim].written,
        0 <= i < s.claims.len(),
        i == claim || s.claims[i].written,
    ensures
        placed(with_batch(s.slots, s.claims[claim].index, s.claims[claim].batch), s.claims[i]),
{
    let c = s.claims[claim];
    if i != claim {
        if i < claim {
            lemma_claim_start_step(s.claims, i, claim);
        } else {
            lemma_claim_start_step(s.claims, claim, i);
        }
        lemma_with_batch(s.slots, c, s.claims[i]);
    } else {
        assert forall|k: int| 0 <= k < c.batch.len() implies holds_at(
            with_batch(s.slots, c.index, c.batch),
            c.index + k,
            #[trigger] c.batch[k],
        ) by {}
    }
}

/// Where there is something after a write, something is written.
proof fn lemma_write_covers<T>(s: Shared<T>, claim: int, k: int)
    requires
        consistent(s),
        0 <= claim < s.claims.len(),
        with_batch(s.slots, s.claims[claim].index, s.claims[claim].batch).contains_key(k),
    ensures
        written_over(
            s.claims.update(claim, Claimed { written: true, ..s.claims[claim] }),
            k,
        ),
{
    let c = s.claims[claim];
    let after = s.claims.update(claim, Claimed { written: true, ..c });
    if c.index <= k < c.index + c.batch.len() {
        assert(covers(after[claim], k));
    } else {
        assert(written_over(s.claims, k));
        let d = choose|d: int| 0 <= d < s.claims.len() && #[trigger] covers(s.claims[d], k);
        assert(covers(after[d], k));
    }
}

/// A write keeps the shared state consistent.
proof fn lemma_write_keeps_consistent<T>(s: Shared<T>, claim: int)
    requires
        consistent(s),
    ensures
        consistent(apply(s, Step::Write { claim })),
{
    let after = apply(s, Step::Write { claim });
    let n = s.claims.len() as int;
    if 0 <= claim < n && !s.claims[claim].written {
        lemma_claim_start_same(after.claims, s.claims, n);
        assert forall|i: int| 0 <= i < n implies (#[trigger] after.claims[i]).index == claim_start(
            after.claims,
            i,
        ) by {
            lemma_claim_start_same(after.claims, s.claims, i);
            assert(s.claims[i].index == claim_start(s.claims, i));
        }
        assert forall|i: int| 0 <= i < n && (#[trigger] after.claims[i]).written implies placed(
            after.slots,
            after.claims[i],
        ) by {
            lemma_write_places(s, claim, i);
            assert(after.claims[i].batch == s.claims[i].batch);
        }
        assert forall|k: int| #[trigger] after.slots.contains_key(k) implies written_over(
            after.claims,
            k,
        ) by {
            lemma_write_covers(s, claim, k);
        }
    }
}

/// A release keeps the shared state consistent.
proof fn lemma_release_keeps_consistent<T>(s: Shared<T>, claim: int)
    requires
        consistent(s),
    ensures
        consistent(apply(s, Step::Release { claim })),
{
    if s.holder == Some(claim) {
        crate::len_word::lemma_word_bits(s.word);
        lemma_claim_start_step(s.claims, claim, s.claims.len() as int);
    }
}

/// The first claims cover what they covered.
proof fn lemma_fewer_claims<T>(claims: Seq<Claimed<T>>, k: int)
    requires
        claims.len() > 0,
        !claims.last().written,
        written_over(claims, k),
    ensures
        written_over(claims.drop_last(), k),
{
    let c = choose|c: int| 0 <= c < claims.len() && #[trigger] covers(claims[c], k);
    assert(covers(claims.drop_last()[c], k));
}

/// Giving up a claim keeps the shared state consistent.
proof fn lemma_abandon_keeps_consistent<T>(s: Shared<T>, claim: int)
    requires
        consistent(s),
    ensures
        consistent(apply(s, Step::Abandon { claim })),
{
    let after = apply(s, Step::Abandon { claim });
    let n = s.claims.len() as int;
    if s.holder == Some(claim) && !s.claims[claim].written {
        assert(claim == n - 1);
        crate::len_word::lemma_word_bits(s.word);
        lemma_claim_start_step(s.claims, claim, n);
        lemma_claim_start_same(after.claims, s.claims, n - 1);
        assert forall|i: int| 0 <= i < n - 1 implies (#[trigger] after.claims[i]).index
            == claim_start(after.claims, i) by {
            lemma_claim_start_same(after.claims, s.claims, i);
            assert(s.claims[i].index == claim_start(s.claims, i));
        }
        assert forall|i: int| 0 <= i < n - 1 && (#[trigger] after.claims[i]).written implies placed(
            after.slots,
            after.claims[i],
        ) by {
            assert(placed(s.slots, s.claims[i]));
        }
        assert forall|k: int| #[trigger] after.slots.contains_key(k) implies written_over(
            after.claims,
            k,
        ) by {
            lemma_fewer_claims(s.claims, k);
        }
    }
}

/// Every step keeps the shared state consistent.
pub proof fn law_step_keeps_consistent<T>(s: Shared<T>, step: Step<T>)
    requires
        consistent(s),
    ensures
        consistent(apply(s, step)),
{
    match step {
        Step::Claim { read, batch } => {
            lemma_claim_keeps_consistent(s, read, batch);
        },
        Step::Write { claim } => {
            lemma_write_keeps_consistent(s, claim);
        },
        Step::Release { claim } => {
            lemma_release_keeps_consistent(s, claim);
        },
        Step::Abandon { claim } => {
            lemma_abandon_keeps_consistent(s, claim);
        },
    }
}

/// Whatever the threads do, in whatever order, the shared state is consistent at every moment.
pub proof fn law_always_consistent<T>(steps: Seq<Step<T>>)
    ensures
        consistent(run(steps)),
    decreases steps.len(),
{
    if steps.len() == 0 {
        crate::len_word::lemma_word_bits(0);
        assert(batches(start::<T>().claims.take(0)) =~= Seq::<Seq<T>>::empty());
    } else {
        law_always_consistent(steps.drop_last());
        law_step_keeps_consistent(run(steps.drop_last()), steps.last());
    }
}

/// No two appends are given the same index: the indices of one end before those of any later one
/// begin.
pub proof fn law_claims_disjoint<T>(steps: Seq<Step<T>>, i: int, j: int)
    requires
        0 <= i < j < run(steps).claims.len(),
    ensures
        run(steps).claims[i].index + run(steps).claims[i].batch.len() <= run(steps).claims[j].index,
{
    law_always_consistent(steps);
    lemma_claim_start_step(run(steps).claims, i, j);
}

/// While one thread holds the lock no other can claim.
pub proof fn law_lock_excludes<T>(steps: Seq<Step<T>>, read: usize, batch: Seq<T>)
    requires
        run(steps).holder is Some,
    ensures
        apply(run(steps), Step::Claim { read, batch }) == run(steps),
{
    law_always_consistent(steps);
    crate::len_word::lemma_word_bits(read);
}

/// A thread that has read the word as it stands gets its claim, if nobody holds the lock and there
/// are not too many elements: some other thread must have moved in between where a claim fails.
pub proof fn law_fresh_claim_succeeds<T>(steps: Seq<Step<T>>, batch: Seq<T>)
    requires
        run(steps).holder is None,
        run(steps).word + batch.len() <= crate::len_word::MASK,
    ensures
        ({
            let s = run(steps);
            let after = apply(s, Step::Claim { read: s.word, batch });
            &&& after.claims == s.claims.push(
                Claimed { index: s.word as nat, batch, written: false },
            )
            &&& after.holder == Some(s.claims.len() as int)
            &&& crate::len_word::unlocked(after.word) == s.word + batch.len()
        }),
{
    law_always_consistent(steps);
    crate::len_word::lemma_word_bits(run(steps).word);
}

/// An append that is given up leaves no trace: what is shared is then as it was before its claim.
pub proof fn law_abandoned_claim_leaves_no_trace<T>(s: Shared<T>, read: usize, batch: Seq<T>)
    requires
        consistent(s),
        apply(s, Step::Claim { read, batch }).claims.len() > s.claims.len(),
    ensures
        ({
            let claim = s.claims.len() as int;
            apply(apply(s, Step::Claim { read, batch }), Step::Abandon { claim }) == s
        }),
{
    crate::len_word::lemma_word_bits(read);
    crate::len_word::lemma_word_bits(s.word);
    assert(s.claims.push(Claimed { index: s.word as nat, batch, written: false }).drop_last()
        =~= s.claims);
}

/// Whether all appends are over: every batch is there, and nobody holds the lock.
pub open spec fn settled<T>(s: Shared<T>) -> bool {
    &&& s.holder is None
    &&& forall|i: int| 0 <= i < s.claims.len() ==> (#[trigger] s.claims[i]).written
}

/// What a settled belt holds, by index.
pub open spec fn contents<T>(s: Shared<T>) -> Seq<T> {
    Seq::new(crate::len_word::unlocked(s.word) as nat, |k: int| s.slots[k])
}

/// The slots of the first claims hold their batches, one after the other.
proof fn lemma_contents_prefix<T>(claims: Seq<Claimed<T>>, slots: Map<int, T>, n: int)
    requires
        0 <= n <= claims.len(),
        forall|i: int|
            0 <= i < claims.len() ==> (#[trigger] claims[i]).index == claim_start(claims, i)
                && placed(slots, claims[i]),
    ensures
        forall|k: int|
            0 <= k < claim_start(claims, n) ==> {
                &&& #[trigger] slots.contains_key(k)
                &&& slots[k] == crate::laws::flat(batches(claims.take(n)))[k]
            },
    decreases n,
{
    if n > 0 {
        lemma_contents_prefix(claims, slots, n - 1);
        lemma_claim_start_step(claims, n - 1, n);
        let before = crate::laws::flat(batches(claims.take(n - 1)));
        let all = crate::laws::flat(batches(claims.take(n)));
        let c = claims[n - 1];
        assert(batches(claims.take(n)).drop_last() =~= batches(claims.take(n - 1)));
        assert(all == before + c.batch);
        assert forall|k: int| 0 <= k < claim_start(claims, n) implies {
            &&& #[trigger] slots.contains_key(k)
            &&& slots[k] == all[k]
        } by {
            if k >= c.index {
                assert(holds_at(slots, c.index + (k - c.index), c.batch[k - c.index]));
            } else {
                assert(slots.contains_key(k));
            }
        }
    }
}

/// A settled state holds the batches one after the other.
proof fn lemma_settled_contents<T>(s: Shared<T>)
    requires
        consistent(s),
        settled(s),
    ensures
        forall|k: int| 0 <= k < s.word ==> #[trigger] s.slots.contains_key(k),
        contents(s) == crate::laws::flat(batches(s.claims)),
{
    crate::len_word::lemma_word_bits(s.word);
    let n = s.claims.len() as int;
    lemma_contents_prefix(s.claims, s.slots, n);
    assert(s.claims.take(n) =~= s.claims);
    let all = crate::laws::flat(batches(s.claims));
    assert forall|k: int| 0 <= k < all.len() implies contents(s)[k] == all[k] by {
        assert(s.slots.contains_key(k));
    }
    assert(contents(s) =~= all);
}

/// When all appends are over, every index up to the length holds an element, and the elements are
/// the batches one after the other, in the order of the claims.
pub proof fn law_settled_contents<T>(steps: Seq<Step<T>>)
    requires
        settled(run(steps)),
    ensures
        forall|k: int| 0 <= k < run(steps).word ==> #[trigger] run(steps).slots.contains_key(k),
        contents(run(steps)) == crate::laws::flat(batches(run(steps).claims)),
{
    law_always_consistent(steps);
    lemma_settled_contents(run(steps));
}

/// In a settled state the batch of a claim stands at its index.
proof fn lemma_settled_batch<T>(s: Shared<T>, i: int)
    requires
        consistent(s),
        settled(s),
        0 <= i < s.claims.len(),
    ensures
        s.claims[i].index + s.claims[i].batch.len() <= contents(s).len(),
        contents(s).subrange(
            s.claims[i].index as int,
            s.claims[i].index + s.claims[i].batch.len() as int,
        ) == s.claims[i].batch,
{
    let c = s.claims[i];
    lemma_claim_start_step(s.claims, i, s.claims.len() as int);
    assert(placed(s.slots, c));
    let there = contents(s).subrange(c.index as int, c.index + c.batch.len() as int);
    assert forall|k: int| 0 <= k < c.batch.len() implies there[k] == c.batch[k] by {
        assert(holds_at(s.slots, c.index + k, c.batch[k]));
    }
    assert(there =~= c.batch);
}

/// When all appends are over, each batch stands whole and in order at the index that its append
/// returned.
pub proof fn law_settled_batch<T>(steps: Seq<Step<T>>, i: int)
    requires
        settled(run(steps)),
        0 <= i < run(steps).claims.len(),
    ensures
        run(steps).claims[i].index + run(steps).claims[i].batch.len() <= contents(run(steps)).len(),
        contents(run(steps)).subrange(
            run(steps).claims[i].index as int,
            run(steps).claims[i].index + run(steps).claims[i].batch.len() as int,
        ) == run(steps).claims[i].batch,
{
    law_always_consistent(steps);
    lemma_settled_batch(run(steps), i);
}

/// The steps of two stretches of time, one after the other, lead where the later ones lead from the end
/// of the earlier ones.
proof fn lemma_run_on<T>(steps: Seq<Step<T>>, more: Seq<Step<T>>)
    requires
        more.len() > 0,
    ensures
        run(steps + more) == apply(run(steps + more.drop_last()), more.last()),
{
    assert((steps + more).drop_last() =~= steps + more.drop_last());
}

/// A step leaves the claim of an append whose batch is there as it is.
proof fn lemma_step_keeps_written<T>(s: Shared<T>, step: Step<T>, i: int)
    requires
        s.holder matches Some(h) ==> 0 <= h == s.claims.len() - 1,
        0 <= i < s.claims.len(),
        s.claims[i].written,
    ensures
        i < apply(s, step).claims.len(),
        apply(s, step).claims[i] == s.claims[i],
{
}

/// An append whose batch is there keeps its claim for good, whatever the threads do next.
pub proof fn law_written_stays<T>(steps: Seq<Step<T>>, more: Seq<Step<T>>, i: int)
    requires
        0 <= i < run(steps).claims.len(),
        run(steps).claims[i].written,
    ensures
        i < run(steps + more).claims.len(),
        run(steps + more).claims[i] == run(steps).claims[i],
    decreases more.len(),
{
    if more.len() == 0 {
        assert(steps + more =~= steps);
    } else {
        law_written_stays(steps, more.drop_last(), i);
        law_always_consistent(steps + more.drop_last());
        lemma_run_on(steps, more);
        lemma_step_keeps_written(run(steps + more.drop_last()), more.last(), i);
    }
}

/// An append that is over before another makes its claim has the smaller indices.
pub proof fn law_earlier_append_comes_first<T>(
    steps: Seq<Step<T>>,
    more: Seq<Step<T>>,
    i: int,
    read: usize,
    batch: Seq<T>,
)
    requires
        0 <= i < run(steps).claims.len(),
        run(steps).claims[i].written,
        apply(run(steps + more), Step::Claim { read, batch }).claims.len() > run(
            steps + more,
        ).claims.len(),
    ensures
        run(steps).claims[i].index + run(steps).claims[i].batch.len() <= apply(
            run(steps + more),
            Step::Claim { read, batch },
        ).claims.last().index,
{
    let s = run(steps + more);
    let after = apply(s, Step::Claim { read, batch });
    law_written_stays(steps, more, i);
    law_always_consistent(steps + more);
    law_step_keeps_consistent(s, Step::Claim { read, batch });
    lemma_claim_start_step(after.claims, i, after.claims.len() - 1);
}

/// What is settled stays. When all appends are over once more, the belt holds what it held, and behind
/// that the batches of the appends made since, one after the other.
pub proof fn law_settled_stays<T>(steps: Seq<Step<T>>, more: Seq<Step<T>>)
    requires
        settled(run(steps)),
        settled(run(steps + more)),
    ensures
        run(steps).claims.is_prefix_of(run(steps + more).claims),
        contents(run(steps)).is_prefix_of(contents(run(steps + more))),
        contents(run(steps + more)) == contents(run(steps)) + crate::laws::flat(
            batches(run(steps + more).claims.skip(run(steps).claims.len() as int)),
        ),
{
    let old_claims = run(steps).claims;
    let claims = run(steps + more).claims;
    let n = old_claims.len() as int;
    if n > 0 {
        law_written_stays(steps, more, n - 1);
    }
    assert forall|i: int| 0 <= i < n implies claims[i] == #[trigger] old_claims[i] by {
        law_written_stays(steps, more, i);
    }
    assert(claims.take(n) =~= old_claims);
    law_settled_contents(steps);
    law_settled_contents(steps + more);
    lemma_flat_split(claims, n);
    assert(contents(run(steps)) =~= contents(run(steps + more)).take(
        contents(run(steps)).len() as int,
    ));
}

/// The batches of all claims are those of the first ones, and behind them those of the rest.
proof fn lemma_flat_split<T>(claims: Seq<Claimed<T>>, n: int)
    requires
        0 <= n <= claims.len(),
    ensures
        crate::laws::flat(batches(claims)) == crate::laws::flat(batches(claims.take(n)))
            + crate::laws::flat(batches(claims.skip(n))),
    decreases claims.len() - n,
{
    let first = crate::laws::flat(batches(claims.take(n)));
    if n == claims.len() {
        assert(claims.take(n) =~= claims);
        assert(batches(claims.skip(n)) =~= Seq::<Seq<T>>::empty());
        assert(crate::laws::flat(batches(claims)) =~= first + Seq::<T>::empty());
    } else {
        let front = claims.drop_last();
        lemma_flat_split(front, n);
        assert(front.take(n) =~= claims.take(n));
        assert(batches(claims).drop_last() =~= batches(front));
        assert(batches(claims.skip(n)).drop_last() =~= batches(front.skip(n)));
        assert(crate::laws::flat(batches(claims)) =~= first + crate::laws::flat(
            batches(claims.skip(n)),
        ));
    }
}

/// So the threads come to the same end as one thread that makes the appends one by one, in the order
/// of their claims: a belt on its own would then hold the same elements.
pub proof fn law_threads_agree_with_one<T>(steps: Seq<Step<T>>, belts: Seq<VecBelt<T>>)
    requires
        settled(run(steps)),
        crate::laws::appended_one_by_one(belts, batches(run(steps).claims)),
        belts[0]@.len() == 0,
    ensures
        belts.last()@ == contents(run(steps)),
        forall|i: int|
            0 <= i < run(steps).claims.len() ==> (#[trigger] run(steps).claims[i]).index
                == belts[i]@.len(),
{
    let s = run(steps);
    law_always_consistent(steps);
    law_settled_contents(steps);
    crate::laws::law_appends_accumulate(belts, batches(s.claims));
    assert(belts.last()@ =~= contents(s));
    assert forall|i: int| 0 <= i < s.claims.len() implies (#[trigger] s.claims[i]).index
        == belts[i]@.len() by {
        lemma_belt_len(belts, s.claims, i);
    }
}

/// A belt to which the first claims have been appended is as long as they are together.
proof fn lemma_belt_len<T>(belts: Seq<VecBelt<T>>, claims: Seq<Claimed<T>>, i: int)
    requires
        crate::laws::appended_one_by_one(belts, batches(claims)),
        belts[0]@.len() == 0,
        0 <= i <= claims.len(),
    ensures
        belts[i]@.len() == claim_start(claims, i),
    decreases i,
{
    if i > 0 {
        lemma_belt_len(belts, claims, i - 1);
        lemma_claim_start_step(claims, i - 1, i);
        assert(belts[i - 1].appends(batches(claims)[i - 1], &belts[i - 1 + 1]));
    } else {
        assert(batches(claims.take(0)) =~= Seq::<Seq<T>>::empty());
    }
}

} // verus!
