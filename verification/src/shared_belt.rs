//! A belt that threads take turns at.
//!
//! An append is made in two turns. In the first, room is made for the batch: it is counted, and given
//! its index. In the second the batch is put there. In between other threads have their turns, and the
//! elements can be made without holding anybody up. So batches may come in any order. One that comes
//! before those in front of it waits until they have come.

use crate::belt::{BeltError, VecBelt};
use crate::consume::ConsumeSlice;
use crate::fragment::{Fragment, LayoutError};
use crate::len_word::{Released, Turn, FLAG};
use crate::shared_word::Exchanged;
use likely_stable::{likely, unlikely};
use vstd::prelude::*;

verus! {

/// Whether `additional` elements can be counted behind `len` others, where the last fragment has `room`
/// free slots.
pub open spec fn step_ok<T>(room: nat, len: nat, additional: nat) -> bool {
    &&& len + additional <= isize::MAX
    &&& additional <= room || crate::fragment::layout_ok::<T>((len + additional) as int)
}

/// The free slots of the last fragment once `additional` elements are behind `len` others: a new
/// fragment has as many slots as there are elements then, and the batch takes the first of them.
pub open spec fn room_after(room: nat, len: nat, additional: nat) -> nat {
    if additional <= room {
        (room - additional) as nat
    } else {
        len
    }
}

/// The same for batches of these sizes, one after the other.
pub open spec fn room_after_all(room: nat, len: nat, sizes: Seq<nat>) -> nat
    decreases sizes.len(),
{
    if sizes.len() == 0 {
        room
    } else {
        room_after_all(
            room_after(room, len, sizes.first()),
            len + sizes.first(),
            sizes.drop_first(),
        )
    }
}

/// Whether batches of these sizes can all be appended, one after the other.
pub open spec fn all_ok<T>(room: nat, len: nat, sizes: Seq<nat>) -> bool
    decreases sizes.len(),
{
    sizes.len() == 0 || {
        &&& step_ok::<T>(room, len, sizes.first())
        &&& all_ok::<T>(
            room_after(room, len, sizes.first()),
            len + sizes.first(),
            sizes.drop_first(),
        )
    }
}

/// A sum, taken from the front.
proof fn lemma_total_first(sizes: Seq<nat>)
    requires
        sizes.len() > 0,
    ensures
        crate::belt::total(sizes) == sizes.first() + crate::belt::total(sizes.drop_first()),
    decreases sizes.len(),
{
    reveal_with_fuel(crate::belt::total, 2);
    if sizes.len() > 1 {
        lemma_total_first(sizes.drop_last());
        assert(sizes.drop_first().drop_last() =~= sizes.drop_last().drop_first());
    }
}

/// One more batch behind the others.
proof fn lemma_one_more<T>(room: nat, len: nat, sizes: Seq<nat>, additional: nat)
    requires
        all_ok::<T>(room, len, sizes),
        step_ok::<T>(
            room_after_all(room, len, sizes),
            len + crate::belt::total(sizes),
            additional,
        ),
    ensures
        all_ok::<T>(room, len, sizes.push(additional)),
        room_after_all(room, len, sizes.push(additional)) == room_after(
            room_after_all(room, len, sizes),
            len + crate::belt::total(sizes),
            additional,
        ),
    decreases sizes.len(),
{
    reveal_with_fuel(all_ok, 2);
    reveal_with_fuel(room_after_all, 2);
    if sizes.len() > 0 {
        lemma_total_first(sizes);
        lemma_one_more::<T>(
            room_after(room, len, sizes.first()),
            len + sizes.first(),
            sizes.drop_first(),
            additional,
        );
        assert(sizes.push(additional).drop_first() =~= sizes.drop_first().push(additional));
    }
}

/// Batches of these sizes begin at these indices, where the first begins at `base`.
pub open spec fn begins(base: nat, sizes: Seq<nat>, k: int) -> nat {
    base + crate::belt::total(sizes.take(k))
}

/// Batches that are not empty begin one behind the other.
proof fn lemma_begins(base: nat, sizes: Seq<nat>, j: int, k: int)
    requires
        0 <= j < k <= sizes.len(),
    ensures
        begins(base, sizes, j) + sizes[j] <= begins(base, sizes, k),
{
    crate::belt::lemma_total_take(sizes, j, k);
}

/// Without the first batch the others begin where they began.
proof fn lemma_begins_drop_first(base: nat, sizes: Seq<nat>, k: int)
    requires
        0 <= k < sizes.len(),
    ensures
        begins(base + sizes.first(), sizes.drop_first(), k) == begins(base, sizes, k + 1),
{
    lemma_total_first(sizes.take(k + 1));
    assert(sizes.take(k + 1).drop_first() =~= sizes.drop_first().take(k));
}

/// Whether `item` is at index `k` in a batch that begins at `index`.
pub open spec fn in_batch<T>(index: nat, batch: Seq<T>, k: int, item: T) -> bool {
    index <= k < index + batch.len() && batch[k - index] == item
}

/// A belt, and the batches that are on their way to it.
pub struct SharedBelt<T> {
    /// What is there without a gap.
    belt: VecBelt<T>,
    /// The number of elements, those included that are still to come.
    counted: usize,
    /// The slots that the last fragment has free once everything is there.
    room: usize,
    /// The batches that have come before those in front of them, each with its index.
    early: Vec<(usize, Vec<T>)>,
    /// The sizes of the batches that are counted but not on the belt, in the order of their indices.
    sizes: Ghost<Seq<nat>>,
}

impl<T> SharedBelt<T> {
    /// The number of elements, those included that are still to come.
    pub closed spec fn counted(&self) -> nat {
        self.counted as nat
    }

    /// The slots that the last fragment has free once everything is there.
    pub closed spec fn room(&self) -> nat {
        self.room as nat
    }

    /// Whether `item` has come, and has index `k`.
    pub closed spec fn holds(&self, k: int, item: T) -> bool {
        ||| 0 <= k < self.belt@.len() && self.belt@[k] == item
        ||| exists|j: int|
            0 <= j < self.early@.len() && #[trigger] in_batch(
                self.early@[j].0 as nat,
                self.early@[j].1@,
                k,
                item,
            )
    }

    /// Whether the batch at `index` has come early.
    spec fn is_early(&self, index: int) -> bool {
        exists|j: int| 0 <= j < self.early@.len() && (#[trigger] self.early@[j]).0 == index
    }

    /// Whether number `k` of the batches that are not on the belt begins at `index`, and has `size`
    /// elements.
    spec fn is_batch(&self, k: int, index: int, size: nat) -> bool {
        &&& 0 <= k < self.sizes@.len()
        &&& begins(self.belt@.len(), self.sizes@, k) == index
        &&& self.sizes@[k] == size
    }

    /// Whether a batch of `size` elements belongs at `index`, and is not on the belt.
    spec fn is_pending(&self, index: int, size: nat) -> bool {
        exists|k: int| self.is_batch(k, index, size)
    }

    /// Whether a batch of `size` elements is still to come, at `index`.
    pub closed spec fn awaits(&self, index: int, size: nat) -> bool {
        self.is_pending(index, size) && !self.is_early(index)
    }

    /// Whether nothing is still to come.
    pub open spec fn settled(&self) -> bool {
        forall|index: int, size: nat| !self.awaits(index, size)
    }

    /// What holds but for batches that can go on the belt at once.
    spec fn in_order(&self) -> bool {
        &&& self.belt.wf()
        &&& self.counted == begins(self.belt@.len(), self.sizes@, self.sizes@.len() as int)
        &&& self.counted <= isize::MAX
        &&& all_ok::<T>(self.belt.room(), self.belt@.len(), self.sizes@)
        &&& self.room == room_after_all(self.belt.room(), self.belt@.len(), self.sizes@)
        &&& forall|k: int| 0 <= k < self.sizes@.len() ==> #[trigger] self.sizes@[k] > 0
        &&& forall|j: int|
            0 <= j < self.early@.len() ==> self.is_pending(
                (#[trigger] self.early@[j]).0 as int,
                self.early@[j].1@.len(),
            )
        &&& forall|i: int, j: int|
            0 <= i < j < self.early@.len() ==> (#[trigger] self.early@[i]).0 != (
            #[trigger] self.early@[j]).0
    }

    /// What holds of every shared belt.
    pub closed spec fn wf(&self) -> bool {
        &&& self.in_order()
        &&& !self.is_early(self.belt@.len() as int)
    }

    /// What is there, once nothing is still to come.
    pub closed spec fn contents(&self) -> Seq<T> {
        self.belt@
    }

    /// What is there without a gap, as a belt.
    pub closed spec fn on_belt(&self) -> VecBelt<T> {
        self.belt
    }

    /// Whether this belt counts what `belt` holds, with as many free slots in the last fragment.
    pub open spec fn like(&self, belt: &VecBelt<T>) -> bool {
        &&& belt.wf()
        &&& self.counted() == belt@.len()
        &&& self.room() == belt.capacities().last() - belt.lens().last()
    }

    /// The memory of the oldest fragment, with what is in it.
    pub closed spec fn memory(&self) -> Vec<T> {
        self.belt.memory()
    }

    /// Whether everything can be put into one fragment.
    pub closed spec fn can_clear(&self) -> bool {
        self.belt.can_clear()
    }

    /// The slots that a clear leaves: no fewer than there are elements.
    pub closed spec fn room_cleared(&self) -> nat {
        self.belt.room_cleared()
    }

    /// Whether a batch of `additional` elements can be counted.
    pub open spec fn can_reserve(&self, additional: nat) -> bool {
        step_ok::<T>(self.room(), self.counted(), additional)
    }

    /// Whether `after` is this belt with `additional` more elements counted, which are still to come.
    pub open spec fn reserves(&self, additional: nat, after: &Self) -> bool {
        &&& after.wf()
        &&& after.counted() == self.counted() + additional
        &&& after.room() == room_after(self.room(), self.counted(), additional)
        &&& forall|k: int, item: T| #[trigger] after.holds(k, item) <==> self.holds(k, item)
        &&& forall|index: int, size: nat| #[trigger]
            after.awaits(index, size) <==> self.awaits(index, size) || (size > 0 && index
                == self.counted() && size == additional)
    }

    /// Whether `after` is this belt with `batch` there, at `index`.
    pub open spec fn places(&self, index: nat, batch: Seq<T>, after: &Self) -> bool {
        &&& after.wf()
        &&& after.counted() == self.counted()
        &&& after.room() == self.room()
        &&& forall|k: int, item: T| #[trigger]
            after.holds(k, item) <==> self.holds(k, item) || in_batch(index, batch, k, item)
        &&& forall|i: int, size: nat| #[trigger]
            after.awaits(i, size) <==> self.awaits(i, size) && !(batch.len() > 0 && i == index)
    }

    /// When nothing is still to come, the belt holds as many elements as are counted, and no others.
    pub proof fn law_settled(&self)
        requires
            self.wf(),
            self.settled(),
        ensures
            self.contents().len() == self.counted(),
            forall|k: int, item: T| #[trigger]
                self.holds(k, item) <==> 0 <= k < self.contents().len() && self.contents()[k]
                    == item,
    {
        if self.sizes@.len() > 0 {
            assert(self.sizes@.take(0) =~= Seq::<nat>::empty());
            assert(self.is_batch(0, self.belt@.len() as int, self.sizes@[0]));
            assert(self.awaits(self.belt@.len() as int, self.sizes@[0]));
        }
        assert(self.sizes@.take(0) =~= Seq::<nat>::empty());
        if self.early@.len() > 0 {
            let k = choose|k: int|
                self.is_batch(k, self.early@[0].0 as int, self.early@[0].1@.len());
            assert(self.is_batch(k, self.early@[0].0 as int, self.early@[0].1@.len()));
        }
    }

    /// When nothing is still to come, a shared belt is like the belt that everything is on, and holds
    /// the same.
    pub proof fn law_settled_like_belt(&self)
        requires
            self.wf(),
            self.settled(),
        ensures
            self.like(&self.on_belt()),
            self.contents() == self.on_belt()@,
            self.can_clear() <==> self.on_belt().can_clear(),
            self.room_cleared() == self.on_belt().room_cleared(),
            self.memory() == self.on_belt().memory(),
    {
        self.law_settled();
        self.belt.law_shape();
        assert(self.sizes@.take(0) =~= Seq::<nat>::empty());
        if self.sizes@.len() > 0 {
            assert(self.is_batch(0, self.belt@.len() as int, self.sizes@[0]));
            assert(self.awaits(self.belt@.len() as int, self.sizes@[0]));
        }
    }

    /// A batch can be counted on a shared belt if and only if a belt that is like it takes the batch.
    /// Once the one has counted it, and the other has it, they are like each other again.
    pub proof fn law_reserve_like_append(
        &self,
        belt: &VecBelt<T>,
        batch: Seq<T>,
        after: &Self,
        belt_after: &VecBelt<T>,
    )
        requires
            self.wf(),
            self.like(belt),
        ensures
            self.can_reserve(batch.len()) <==> belt.can_append(batch.len()),
            self.can_reserve(batch.len()) && self.reserves(batch.len(), after) && belt.appends(
                batch,
                belt_after,
            ) ==> after.like(belt_after),
    {
        belt.law_shape();
        if belt.appends(batch, belt_after) {
            belt_after.law_shape();
        }
    }

    /// To put a batch in its place changes nothing in what is counted, and in what can be.
    pub proof fn law_place_stays_like(
        &self,
        belt: &VecBelt<T>,
        index: nat,
        batch: Seq<T>,
        after: &Self,
    )
        requires
            self.like(belt),
            self.places(index, batch, after),
        ensures
            after.like(belt),
    {
    }

    /// The two turns of an append: the batch is counted behind everything that was counted, is awaited
    /// there until it comes, and is then there, each element at its index. What was there stays, and
    /// what else is awaited is awaited still.
    pub proof fn law_two_turns(
        &self,
        batch: Seq<T>,
        reserved: &Self,
        after: &Self,
        k: int,
        item: T,
        index: int,
        size: nat,
    )
        requires
            self.wf(),
            self.reserves(batch.len(), reserved),
            reserved.places(self.counted(), batch, after),
        ensures
            reserved.counted() == self.counted() + batch.len(),
            after.counted() == self.counted() + batch.len(),
            batch.len() > 0 ==> reserved.awaits(self.counted() as int, batch.len()),
            reserved.holds(k, item) <==> self.holds(k, item),
            after.holds(k, item) <==> self.holds(k, item) || (self.counted() <= k < self.counted()
                + batch.len() && batch[k - self.counted()] == item),
            batch.len() > 0 ==> !after.awaits(self.counted() as int, size),
            index != self.counted() ==> (after.awaits(index, size) <==> self.awaits(index, size)),
    {
        assert(reserved.awaits(index, size) <==> self.awaits(index, size) || (size > 0 && index
            == self.counted() && size == batch.len()));
        assert(after.awaits(index, size) <==> reserved.awaits(index, size) && !(batch.len() > 0
            && index == self.counted()));
    }

    /// Batches may come in either order: what is there then, and what is still to come, is the same.
    pub proof fn law_any_order(
        &self,
        index: nat,
        batch: Seq<T>,
        other_index: nat,
        other_batch: Seq<T>,
        one: &Self,
        one_two: &Self,
        two: &Self,
        two_one: &Self,
        k: int,
        item: T,
        size: nat,
    )
        requires
            self.places(index, batch, one),
            one.places(other_index, other_batch, one_two),
            self.places(other_index, other_batch, two),
            two.places(index, batch, two_one),
        ensures
            one_two.counted() == two_one.counted() == self.counted(),
            one_two.room() == two_one.room() == self.room(),
            one_two.holds(k, item) <==> two_one.holds(k, item),
            one_two.awaits(k, size) <==> two_one.awaits(k, size),
    {
        assert(one.holds(k, item) <==> self.holds(k, item) || in_batch(index, batch, k, item));
        assert(two.holds(k, item) <==> self.holds(k, item) || in_batch(
            other_index,
            other_batch,
            k,
            item,
        ));
        assert(one.awaits(k, size) <==> self.awaits(k, size) && !(batch.len() > 0 && k == index));
        assert(two.awaits(k, size) <==> self.awaits(k, size) && !(other_batch.len() > 0 && k
            == other_index));
    }

    /// A batch can be counted if and only if the elements can be counted with it, and the last fragment
    /// has slots for it or there can be a fragment for all elements, those included that are still to
    /// come.
    pub proof fn law_can_reserve(&self, additional: nat)
        requires
            self.wf(),
        ensures
            self.can_reserve(additional) <==> {
                &&& self.counted() + additional <= isize::MAX
                &&& additional <= self.room() || crate::fragment::layout_ok::<T>(
                    (self.counted() + additional) as int,
                )
            },
    {
    }

    /// Every batch can be counted with which the elements, and four words and two elements besides, come
    /// to no more than `isize::MAX`; and if the elements have no size, every batch with which they are
    /// no more than that.
    pub proof fn law_reserve_enough(&self, additional: nat)
        requires
            self.wf(),
            self.counted() + additional <= isize::MAX,
            vstd::layout::size_of::<T>() > 0 ==> 4 * vstd::layout::size_of::<usize>()
                + vstd::layout::size_of::<T>() * (self.counted() + additional + 2) <= isize::MAX,
        ensures
            self.can_reserve(additional),
    {
        let all = (self.counted() + additional) as int;
        if vstd::layout::size_of::<T>() > 0 {
            crate::fragment::law_layout_enough::<T>(all);
        } else {
            self.belt.law_shape();
            self.belt.law_first_fits();
            crate::fragment::law_layout_without_size::<T>(self.belt.capacities()[0] as int, all);
        }
    }

    /// If a batch can be counted, so can every smaller one.
    pub proof fn law_reserve_fewer(&self, fewer: nat, additional: nat)
        requires
            self.wf(),
            fewer <= additional,
            self.can_reserve(additional),
        ensures
            self.can_reserve(fewer),
    {
        if fewer > self.room() {
            crate::fragment::law_layout_monotone::<T>(
                (self.counted() + fewer) as int,
                (self.counted() + additional) as int,
            );
        }
    }

    /// A shared belt can be cleared whenever the elements, and four words and two elements besides, come
    /// to no more than `isize::MAX`; and if the elements have no size, always.
    pub proof fn law_clear_enough(&self)
        requires
            self.wf(),
            vstd::layout::size_of::<T>() > 0 ==> 4 * vstd::layout::size_of::<usize>()
                + vstd::layout::size_of::<T>() * (self.counted() + 2) <= isize::MAX,
        ensures
            self.can_clear(),
    {
        let size = vstd::layout::size_of::<T>() as int;
        let there = self.belt@.len() as int;
        let counted = self.counted() as int;
        assert(size * (there + 2) <= size * (counted + 2)) by (nonlinear_arith)
            requires
                there <= counted,
                size >= 0,
        ;
        self.belt.law_clear_enough();
    }

    /// An empty belt of one fragment, which has `initial_size` slots.
    pub fn new(initial_size: usize) -> (shared: Self)
        requires
            crate::fragment::layout_ok::<T>(initial_size as int),
        ensures
            shared.wf(),
            shared.settled(),
            shared.counted() == 0,
            shared.room() == initial_size,
            shared.contents() == Seq::<T>::empty(),
    {
        let shared = SharedBelt {
            belt: VecBelt::new(initial_size),
            counted: 0,
            room: initial_size,
            early: Vec::new(),
            sizes: Ghost(Seq::empty()),
        };
        proof {
            assert(shared.sizes@.take(0) =~= Seq::<nat>::empty());
        }
        shared
    }

    /// The number of elements, those included that are still to come.
    pub fn len(&self) -> (len: usize)
        ensures
            len == self.counted(),
    {
        self.counted
    }

    /// Whether a batch of `additional` elements can be counted, and if not, why.
    pub fn check_reserve(&self, additional: usize) -> (r: Result<(), BeltError>)
        requires
            self.wf(),
        ensures
            r is Ok <==> self.can_reserve(additional as nat),
            (r is Err && r->Err_0 is TooManyElements) <==> self.counted() + additional > isize::MAX,
    {
        proof {
            crate::len_word::lemma_word_bits(additional);
        }
        if unlikely(additional & FLAG == FLAG) {
            return Err(BeltError::TooManyElements);
        }
        let new_len: usize = self.counted + additional;
        proof {
            crate::len_word::lemma_word_bits(new_len);
        }
        if unlikely(new_len & FLAG == FLAG) {
            return Err(BeltError::TooManyElements);
        }
        if likely(additional <= self.room) {
            return Ok(());
        }
        match Fragment::<T>::layout(new_len) {
            Ok(_) => Ok(()),
            Err(e) => Err(BeltError::Fragment(e)),
        }
    }

    /// Counts a batch of `additional` elements, and returns the index at which it is to be put.
    ///
    /// If the batch cannot be counted, the belt stays as it is.
    pub fn reserve(&mut self, additional: usize) -> (r: Result<usize, BeltError>)
        requires
            old(self).wf(),
        ensures
            r is Ok <==> old(self).can_reserve(additional as nat),
            (r is Err && r->Err_0 is TooManyElements) <==> old(self).counted() + additional
                > isize::MAX,
            r is Err ==> *final(self) == *old(self),
            r matches Ok(index) ==> {
                &&& index == old(self).counted()
                &&& old(self).reserves(additional as nat, final(self))
            },
    {
        match self.check_reserve(additional) {
            Ok(()) => {},
            Err(e) => {
                return Err(e);
            },
        }
        let index: usize = self.counted;
        if additional > 0 {
            let ghost sizes = self.sizes@;
            let room: usize = if additional <= self.room {
                self.room - additional
            } else {
                index
            };
            self.room = room;
            self.counted = index + additional;
            self.sizes = Ghost(sizes.push(additional as nat));
            proof {
                self.lemma_reserved(old(self), additional as nat);
            }
        }
        Ok(index)
    }

    /// What is counted is still to come, and nothing else changes.
    proof fn lemma_reserved(&self, before: &Self, additional: nat)
        requires
            before.wf(),
            before.can_reserve(additional),
            additional > 0,
            self.belt == before.belt,
            self.early == before.early,
            self.counted == before.counted + additional,
            self.room == room_after(before.room(), before.counted(), additional),
            self.sizes@ == before.sizes@.push(additional),
        ensures
            before.reserves(additional, self),
    {
        let base = self.belt@.len();
        let n = before.sizes@.len() as int;
        let sizes = before.sizes@;
        assert(sizes.take(n) =~= sizes);
        assert(self.sizes@.take(n) =~= sizes);
        assert(self.sizes@.take(n + 1) =~= self.sizes@);
        assert(self.sizes@.drop_last() =~= sizes);
        lemma_one_more::<T>(self.belt.room(), base, sizes, additional);
        assert forall|k: int| 0 <= k <= n implies #[trigger] begins(base, self.sizes@, k) == begins(
            base,
            sizes,
            k,
        ) by {
            assert(self.sizes@.take(k) =~= sizes.take(k));
        }
        assert forall|k: int, index: int, size: nat| #[trigger]
            self.is_batch(k, index, size) <==> before.is_batch(k, index, size) || (k == n && index
                == before.counted() && size == additional) by {}
        assert forall|j: int| 0 <= j < self.early@.len() implies self.is_pending(
            (#[trigger] self.early@[j]).0 as int,
            self.early@[j].1@.len(),
        ) by {
            assert(before.is_pending(before.early@[j].0 as int, before.early@[j].1@.len()));
            let k = choose|k: int|
                before.is_batch(k, before.early@[j].0 as int, before.early@[j].1@.len());
            assert(self.is_batch(k, self.early@[j].0 as int, self.early@[j].1@.len()));
        }
        assert forall|index: int, size: nat| #[trigger]
            self.awaits(index, size) <==> before.awaits(index, size) || (size > 0 && index
                == before.counted() && size == additional) by {
            assert(self.is_early(index) == before.is_early(index));
            if before.is_early(before.counted() as int) {
                let j = choose|j: int|
                    0 <= j < before.early@.len() && (#[trigger] before.early@[j]).0
                        == before.counted();
                let k = choose|k: int|
                    before.is_batch(k, before.early@[j].0 as int, before.early@[j].1@.len());
                lemma_begins(base, sizes, k, n);
            }
            if before.awaits(index, size) {
                let k = choose|k: int| before.is_batch(k, index, size);
                assert(self.is_batch(k, index, size));
            }
            if index == before.counted() && size == additional {
                assert(self.is_batch(n, index, size));
            }
            if self.awaits(index, size) {
                let k = choose|k: int| self.is_batch(k, index, size);
                assert(before.is_batch(k, index, size) || k == n);
            }
        }
    }

    /// The first batch that is not on the belt can be appended to it.
    proof fn lemma_can_absorb(&self)
        requires
            self.in_order(),
            self.sizes@.len() > 0,
        ensures
            self.belt.can_append(self.sizes@.first()),
    {
        self.belt.law_shape();
    }

    /// Where the batches are that are not on the belt, once the first of them is.
    proof fn lemma_absorbed(&self, before: &Self, batch: Seq<T>)
        requires
            before.in_order(),
            before.sizes@.len() > 0,
            before.sizes@.first() == batch.len(),
            before.belt.appends(batch, &self.belt),
            self.counted == before.counted,
            self.room == before.room,
            self.sizes@ == before.sizes@.drop_first(),
        ensures
            self.counted == begins(self.belt@.len(), self.sizes@, self.sizes@.len() as int),
            all_ok::<T>(self.belt.room(), self.belt@.len(), self.sizes@),
            self.room == room_after_all(self.belt.room(), self.belt@.len(), self.sizes@),
            before.is_pending(before.belt@.len() as int, batch.len()),
            forall|index: int, size: nat| #[trigger]
                self.is_pending(index, size) <==> before.is_pending(index, size) && index
                    != before.belt@.len(),
    {
        let base = before.belt@.len();
        let sizes = before.sizes@;
        let n = sizes.len() as int;
        before.belt.law_shape();
        self.belt.law_shape();
        assert(self.belt.room() == room_after(before.belt.room(), base, sizes.first()));
        assert(sizes.take(n) =~= sizes);
        lemma_begins_drop_first(base, sizes, n - 1);
        assert(sizes.take(0) =~= Seq::<nat>::empty());
        assert(before.is_batch(0, base as int, sizes[0]));
        assert forall|index: int, size: nat| #[trigger]
            self.is_pending(index, size) <==> before.is_pending(index, size) && index != base by {
            if self.is_pending(index, size) {
                let k = choose|k: int| self.is_batch(k, index, size);
                lemma_begins_drop_first(base, sizes, k);
                lemma_begins(base, sizes, 0, k + 1);
                assert(before.is_batch(k + 1, index, size));
            }
            if before.is_pending(index, size) && index != base {
                let k = choose|k: int| before.is_batch(k, index, size);
                lemma_begins_drop_first(base, sizes, k - 1);
                assert(self.is_batch(k - 1, index, size));
            }
        }
    }

    /// A batch that comes in its turn is on the belt, and nothing else changes.
    proof fn lemma_absorbed_in_turn(&self, before: &Self, batch: Seq<T>)
        requires
            before.wf(),
            before.sizes@.len() > 0,
            before.sizes@.first() == batch.len(),
            before.belt.appends(batch, &self.belt),
            self.counted == before.counted,
            self.room == before.room,
            self.early == before.early,
            self.sizes@ == before.sizes@.drop_first(),
        ensures
            self.in_order(),
            forall|k: int, item: T| #[trigger]
                self.holds(k, item) <==> before.holds(k, item) || in_batch(
                    before.belt@.len(),
                    batch,
                    k,
                    item,
                ),
            forall|i: int, size: nat| #[trigger]
                self.awaits(i, size) <==> before.awaits(i, size) && i != before.belt@.len(),
    {
        self.lemma_absorbed(before, batch);
        assert forall|j: int| 0 <= j < self.early@.len() implies self.is_pending(
            (#[trigger] self.early@[j]).0 as int,
            self.early@[j].1@.len(),
        ) by {
            assert(before.is_pending(before.early@[j].0 as int, before.early@[j].1@.len()));
        }
        assert forall|i: int, size: nat| #[trigger]
            self.awaits(i, size) <==> before.awaits(i, size) && i != before.belt@.len() by {
            assert(self.is_early(i) == before.is_early(i));
            assert(self.is_pending(i, size) <==> before.is_pending(i, size) && i
                != before.belt@.len());
        }
    }

    /// A batch that came early, and whose turn it is now, is on the belt, and nothing else changes.
    proof fn lemma_absorbed_early(&self, before: &Self, j: int)
        requires
            before.in_order(),
            0 <= j < before.early@.len(),
            before.early@[j].0 == before.belt@.len(),
            before.sizes@.len() > 0,
            before.sizes@.first() == before.early@[j].1@.len(),
            before.belt.appends(before.early@[j].1@, &self.belt),
            self.counted == before.counted,
            self.room == before.room,
            self.early@ == before.early@.update(j, before.early@.last()).drop_last(),
            self.sizes@ == before.sizes@.drop_first(),
        ensures
            self.in_order(),
            forall|k: int, item: T| #[trigger] self.holds(k, item) <==> before.holds(k, item),
            forall|i: int, size: nat| #[trigger] self.awaits(i, size) <==> before.awaits(i, size),
    {
        let n = before.early@.len() - 1;
        let batch = before.early@[j].1@;
        self.lemma_absorbed(before, batch);
        assert forall|i: int| 0 <= i < n implies self.is_pending(
            (#[trigger] self.early@[i]).0 as int,
            self.early@[i].1@.len(),
        ) by {
            let from = if i == j {
                n
            } else {
                i
            };
            assert(self.early@[i] == before.early@[from]);
            assert(before.is_pending(before.early@[from].0 as int, before.early@[from].1@.len()));
        }
        assert forall|k: int, item: T| #[trigger] self.holds(k, item) <==> before.holds(k, item) by {
            assert forall|i: int| 0 <= i < n implies #[trigger] self.early@[i] == before.early@[if i
                == j {
                n
            } else {
                i
            }] by {}
            if before.holds(k, item) && !(0 <= k < before.belt@.len() && before.belt@[k] == item) {
                let i = choose|i: int|
                    0 <= i <= n && #[trigger] in_batch(
                        before.early@[i].0 as nat,
                        before.early@[i].1@,
                        k,
                        item,
                    );
                if i != j {
                    let to = if i == n {
                        j
                    } else {
                        i
                    };
                    assert(self.early@[to] == before.early@[i]);
                    assert(in_batch(self.early@[to].0 as nat, self.early@[to].1@, k, item));
                }
            }
            if self.holds(k, item) {
                if 0 <= k < self.belt@.len() && self.belt@[k] == item {
                    if k >= before.belt@.len() {
                        assert(in_batch(before.early@[j].0 as nat, before.early@[j].1@, k, item));
                    }
                } else {
                    let i = choose|i: int|
                        0 <= i < n && #[trigger] in_batch(
                            self.early@[i].0 as nat,
                            self.early@[i].1@,
                            k,
                            item,
                        );
                    let from = if i == j {
                        n
                    } else {
                        i
                    };
                    assert(in_batch(before.early@[from].0 as nat, before.early@[from].1@, k, item));
                }
            }
        }
        assert forall|i: int, size: nat| #[trigger]
            self.awaits(i, size) <==> before.awaits(i, size) by {
            if before.is_early(i) && i != before.belt@.len() {
                let f = choose|f: int| 0 <= f <= n && (#[trigger] before.early@[f]).0 == i;
                let to = if f == n {
                    j
                } else {
                    f
                };
                assert(self.early@[to] == before.early@[f]);
            }
            if self.is_early(i) {
                let f = choose|f: int| 0 <= f < n && (#[trigger] self.early@[f]).0 == i;
                assert(self.early@[f] == before.early@[if f == j {
                    n
                } else {
                    f
                }]);
            }
            assert(before.early@[j].0 == before.belt@.len());
            assert(self.is_pending(i, size) <==> before.is_pending(i, size) && i
                != before.belt@.len());
        }
    }

    /// A batch that comes early waits, and nothing else changes.
    proof fn lemma_parked(&self, before: &Self, index: usize, batch: Vec<T>)
        requires
            before.wf(),
            before.awaits(index as int, batch@.len()),
            index != before.belt@.len(),
            self.belt == before.belt,
            self.counted == before.counted,
            self.room == before.room,
            self.early@ == before.early@.push((index, batch)),
            self.sizes == before.sizes,
        ensures
            self.wf(),
            forall|k: int, item: T| #[trigger]
                self.holds(k, item) <==> before.holds(k, item) || in_batch(
                    index as nat,
                    batch@,
                    k,
                    item,
                ),
            forall|i: int, size: nat| #[trigger]
                self.awaits(i, size) <==> before.awaits(i, size) && i != index,
    {
        let n = before.early@.len() as int;
        assert(self.early@[n] == (index, batch));
        assert forall|i: int, size: nat| self.is_pending(i, size) == before.is_pending(i, size) by {
            assert forall|k: int| #[trigger]
                self.is_batch(k, i, size) == before.is_batch(k, i, size) by {}
            if self.is_pending(i, size) {
                let k = choose|k: int| self.is_batch(k, i, size);
                assert(before.is_batch(k, i, size));
            }
            if before.is_pending(i, size) {
                let k = choose|k: int| before.is_batch(k, i, size);
                assert(self.is_batch(k, i, size));
            }
        }
        assert forall|j: int| 0 <= j < self.early@.len() implies self.is_pending(
            (#[trigger] self.early@[j]).0 as int,
            self.early@[j].1@.len(),
        ) by {
            if j < n {
                assert(self.early@[j] == before.early@[j]);
                assert(before.is_pending(before.early@[j].0 as int, before.early@[j].1@.len()));
            }
        }
        assert forall|i: int| #[trigger] self.is_early(i) <==> before.is_early(i) || i == index by {
            if before.is_early(i) {
                let j = choose|j: int| 0 <= j < n && (#[trigger] before.early@[j]).0 == i;
                assert(self.early@[j].0 == i);
            }
            if self.is_early(i) {
                let j = choose|j: int| 0 <= j <= n && (#[trigger] self.early@[j]).0 == i;
                if j < n {
                    assert(before.early@[j].0 == i);
                }
            }
        }
        assert forall|i: int, j: int| 0 <= i < j <= n implies (#[trigger] self.early@[i]).0 != (
        #[trigger] self.early@[j]).0 by {
            assert(self.early@[i] == before.early@[i]);
            if j < n {
                assert(self.early@[j] == before.early@[j]);
            }
        }
        assert forall|k: int, item: T| #[trigger]
            self.holds(k, item) <==> before.holds(k, item) || in_batch(
                index as nat,
                batch@,
                k,
                item,
            ) by {
            if before.holds(k, item) && !(0 <= k < before.belt@.len() && before.belt@[k] == item) {
                let j = choose|j: int|
                    0 <= j < n && #[trigger] in_batch(
                        before.early@[j].0 as nat,
                        before.early@[j].1@,
                        k,
                        item,
                    );
                assert(in_batch(self.early@[j].0 as nat, self.early@[j].1@, k, item));
            }
            if in_batch(index as nat, batch@, k, item) {
                assert(in_batch(self.early@[n].0 as nat, self.early@[n].1@, k, item));
            }
            if self.holds(k, item) && !(0 <= k < self.belt@.len() && self.belt@[k] == item) {
                let j = choose|j: int|
                    0 <= j <= n && #[trigger] in_batch(
                        self.early@[j].0 as nat,
                        self.early@[j].1@,
                        k,
                        item,
                    );
                if j < n {
                    assert(in_batch(before.early@[j].0 as nat, before.early@[j].1@, k, item));
                }
            }
        }
    }

    /// The batch whose turn it is, is the first of those that are not on the belt.
    proof fn lemma_first(&self, size: nat)
        requires
            self.in_order(),
            self.is_pending(self.belt@.len() as int, size),
        ensures
            self.sizes@.len() > 0,
            self.sizes@.first() == size,
    {
        let k = choose|k: int| self.is_batch(k, self.belt@.len() as int, size);
        if k > 0 {
            lemma_begins(self.belt@.len(), self.sizes@, 0, k);
            assert(self.sizes@.take(0) =~= Seq::<nat>::empty());
        }
    }

    /// Appends the batch whose turn it is.
    fn absorb(&mut self, batch: Vec<T>)
        requires
            old(self).belt.wf(),
            old(self).belt.can_append(batch@.len()),
            old(self).sizes@.len() > 0,
        ensures
            old(self).belt.appends(batch@, &final(self).belt),
            final(self).counted == old(self).counted,
            final(self).room == old(self).room,
            final(self).early == old(self).early,
            final(self).sizes@ == old(self).sizes@.drop_first(),
    {
        self.belt.append(batch);
        self.sizes = Ghost(self.sizes@.drop_first());
    }

    /// Which of the batches that came early has its turn now.
    fn find_next(&self) -> (r: Option<usize>)
        requires
            self.belt.wf(),
        ensures
            match r {
                Some(j) => j < self.early@.len() && self.early@[j as int].0 == self.belt@.len(),
                None => !self.is_early(self.belt@.len() as int),
            },
    {
        let len: usize = self.belt.len();
        for j in 0..self.early.len()
            invariant
                len == self.belt@.len(),
                forall|i: int| 0 <= i < j ==> (#[trigger] self.early@[i]).0 != len,
        {
            if self.early[j].0 == len {
                return Some(j);
            }
        }
        None
    }

    /// Puts a batch at its index, where it is awaited.
    ///
    /// If its turn has not come yet it waits. If it has, those that were waiting for it follow.
    pub fn place(&mut self, index: usize, batch: Vec<T>)
        requires
            old(self).wf(),
            batch@.len() > 0 ==> old(self).awaits(index as int, batch@.len()),
        ensures
            old(self).places(index as nat, batch@, final(self)),
    {
        if batch.len() == 0 {
            return ;
        }
        if index != self.belt.len() {
            self.early.push((index, batch));
            proof {
                self.lemma_parked(old(self), index, batch);
            }
            return ;
        }
        let ghost items = batch@;
        proof {
            self.lemma_first(items.len());
            self.lemma_can_absorb();
        }
        self.absorb(batch);
        proof {
            self.lemma_absorbed_in_turn(old(self), items);
        }
        loop
            invariant
                self.in_order(),
                self.counted == old(self).counted,
                self.room == old(self).room,
                items.len() > 0,
                forall|k: int, item: T| #[trigger]
                    self.holds(k, item) <==> old(self).holds(k, item) || in_batch(
                        index as nat,
                        items,
                        k,
                        item,
                    ),
                forall|i: int, size: nat| #[trigger]
                    self.awaits(i, size) <==> old(self).awaits(i, size) && i != index,
            ensures
                !self.is_early(self.belt@.len() as int),
            decreases self.early@.len(),
        {
            match self.find_next() {
                Some(j) => {
                    let ghost before = *self;
                    proof {
                        self.lemma_first(self.early@[j as int].1@.len());
                        self.lemma_can_absorb();
                    }
                    let (_, next) = self.early.swap_remove(j);
                    self.absorb(next);
                    proof {
                        self.lemma_absorbed_early(&before, j as int);
                    }
                },
                None => {
                    break;
                },
            }
        }
    }

    /// The first turn of an append, for a thread whose exchange has put its claim into `word`: counts
    /// the batch, and gives the lock back, with the length that the belt then has. The record of that
    /// is returned too.
    ///
    /// The elements are made and put there later, when other threads can have their turns.
    pub fn reserve_locked<W: Turn>(
        &mut self,
        word: &W,
        exchanged: Exchanged,
        additional: usize,
    ) -> (r: (Result<usize, LayoutError>, Released<Self>))
        requires
            old(self).wf(),
            crate::len_word::claims_room(word.at(), additional as nat, exchanged),
            exchanged.replaced(),
            exchanged.expected() == old(self).counted(),
        ensures
            r.0 is Ok <==> old(self).can_reserve(additional as nat),
            r.0 is Err ==> *final(self) == *old(self),
            r.0 matches Ok(index) ==> {
                &&& index == exchanged.expected()
                &&& old(self).reserves(additional as nat, final(self))
            },
            r.1.word() == word.at(),
            r.1.written() == final(self).counted(),
            r.1.guarded() == *final(self),
    {
        proof {
            crate::len_word::lemma_word_bits(0);
        }
        let reserved = match self.reserve(additional) {
            Ok(index) => Ok(index),
            // The claim has counted the elements, so it is the fragment that would be too large.
            Err(_) => Err(LayoutError),
        };
        (reserved, word.give_back(exchanged, self.len(), &*self))
    }

    /// The second turn of an append, for a thread whose exchange has taken the lock with a claim of no
    /// elements: puts the batch at its index, and gives the lock back. The record of that is returned.
    pub fn place_locked<W: Turn>(
        &mut self,
        word: &W,
        exchanged: Exchanged,
        index: usize,
        batch: Vec<T>,
    ) -> (released: Released<Self>)
        requires
            old(self).wf(),
            crate::len_word::claims_room(word.at(), 0, exchanged),
            exchanged.replaced(),
            exchanged.expected() == old(self).counted(),
            batch@.len() > 0 ==> old(self).awaits(index as int, batch@.len()),
        ensures
            old(self).places(index as nat, batch@, final(self)),
            released.word() == word.at(),
            released.written() == final(self).counted(),
            released.guarded() == *final(self),
    {
        self.place(index, batch);
        proof {
            crate::len_word::lemma_word_bits(0);
        }
        word.give_back(exchanged, self.len(), &*self)
    }

    /// Whether nothing is still to come.
    pub fn is_settled(&self) -> (settled: bool)
        requires
            self.wf(),
        ensures
            settled == self.settled(),
    {
        proof {
            assert(self.sizes@.take(0) =~= Seq::<nat>::empty());
            if self.sizes@.len() > 0 {
                let n = self.sizes@.len() as int;
                lemma_begins(self.belt@.len(), self.sizes@, 0, n);
                assert(self.is_batch(0, self.belt@.len() as int, self.sizes@[0]));
                assert(self.awaits(self.belt@.len() as int, self.sizes@[0]));
            } else {
                assert forall|index: int, size: nat| !self.awaits(index, size) by {}
            }
        }
        self.belt.len() == self.counted
    }

    /// Whether everything can be put into one fragment, and if not, why.
    pub fn check_clear(&self) -> (r: Result<(), LayoutError>)
        requires
            self.wf(),
        ensures
            r is Ok <==> self.can_clear(),
    {
        self.belt.check_clear()
    }

    /// Takes everything off the belt and hands it to `consumer`, in one piece.
    pub fn clear<'a, R>(&'a mut self, consumer: impl FnOnce(ConsumeSlice<'a, T>) -> R) -> (r: R)
        requires
            old(self).wf(),
            old(self).settled(),
            old(self).can_clear(),
            forall|slice: ConsumeSlice<'a, T>|
                #![trigger consumer.requires((slice,))]
                slice@ == old(self).contents() ==> consumer.requires((slice,)),
        ensures
            final(self).wf(),
            final(self).settled(),
            final(self).counted() == 0,
            final(self).room() == old(self).room_cleared(),
            final(self).room() >= old(self).counted(),
            final(self).contents() == Seq::<T>::empty(),
            exists|slice: ConsumeSlice<'a, T>|
                #![trigger consumer.ensures((slice,), r)]
                {
                    &&& slice@ == old(self).contents()
                    &&& slice.belongs() matches Some(home) && home@ == Seq::<T>::empty() && *final(home)
                        == final(self).memory()
                    &&& consumer.ensures((slice,), r)
                },
    {
        proof {
            self.law_settled();
            self.belt.law_shape();
            if self.belt.capacities().len() == 1 {
                reveal_with_fuel(crate::belt::total, 2);
            }
        }
        self.counted = 0;
        self.room = self.belt.free_cleared();
        self.belt.clear(consumer)
    }
}

} // verus!
