//! The belt itself.

use crate::consume::ConsumeSlice;
use crate::fragment::{Fragment, LayoutError};
use crate::hints::unwrap_or_else_likely;
use crate::len_word::FLAG;
use crate::transfer::TransferBelt;
use likely_stable::{likely, unlikely};
use vstd::prelude::*;

verus! {

/// The sum of a sequence of numbers.
pub open spec fn total(lens: Seq<nat>) -> nat
    decreases lens.len(),
{
    if lens.len() == 0 {
        0
    } else {
        total(lens.drop_last()) + lens.last()
    }
}

/// The elements of a chain of fragments, one fragment after the other.
pub open spec fn items_of<T>(fragments: Seq<Fragment<T>>) -> Seq<T>
    decreases fragments.len(),
{
    if fragments.len() == 0 {
        Seq::empty()
    } else {
        items_of(fragments.drop_last()) + fragments.last()@
    }
}

/// How many slots each fragment of a chain has.
pub open spec fn capacities_of<T>(fragments: Seq<Fragment<T>>) -> Seq<nat> {
    Seq::new(fragments.len(), |i: int| fragments[i].slots())
}

/// How many slots of each fragment of a chain are taken.
pub open spec fn lens_of<T>(fragments: Seq<Fragment<T>>) -> Seq<nat> {
    Seq::new(fragments.len(), |i: int| fragments[i]@.len())
}

/// Whether fragment `i` was made because a batch did not fit any more, and was given as many slots as
/// the belt then had elements, the batch included.
pub open spec fn grown_at(capacities: Seq<nat>, lens: Seq<nat>, i: int) -> bool {
    &&& total(lens.take(i)) < capacities[i]
    &&& capacities[i] <= total(lens.take(i)) + lens[i]
    &&& total(lens.take(i - 1)) + capacities[i - 1] < capacities[i]
}

/// How the fragments of a belt relate to each other, the oldest first.
pub open spec fn well_shaped(capacities: Seq<nat>, lens: Seq<nat>) -> bool {
    &&& capacities.len() == lens.len()
    &&& lens.len() > 0
    &&& forall|i: int| 0 <= i < lens.len() ==> #[trigger] lens[i] <= capacities[i]
    &&& forall|i: int| 1 <= i < lens.len() ==> #[trigger] grown_at(capacities, lens, i)
}

/// A batch that the last fragment has room for keeps the shape.
proof fn lemma_shape_with_room(capacities: Seq<nat>, lens: Seq<nat>, additional: nat)
    requires
        well_shaped(capacities, lens),
        lens.last() + additional <= capacities.last(),
    ensures
        well_shaped(capacities, lens.update(lens.len() - 1, lens.last() + additional)),
{
    let after = lens.update(lens.len() - 1, lens.last() + additional);
    assert forall|i: int| 1 <= i < lens.len() implies #[trigger] grown_at(capacities, after, i) by {
        assert(grown_at(capacities, lens, i));
        assert(after.take(i) =~= lens.take(i));
        assert(after.take(i - 1) =~= lens.take(i - 1));
    }
}

/// A batch that the last fragment has no room for keeps the shape, with a fragment of its own that has
/// as many slots as there are elements then.
proof fn lemma_shape_grown(capacities: Seq<nat>, lens: Seq<nat>, additional: nat)
    requires
        well_shaped(capacities, lens),
        lens.last() + additional > capacities.last(),
    ensures
        well_shaped(capacities.push(total(lens) + additional), lens.push(additional)),
{
    let n = lens.len() as int;
    let slots = capacities.push(total(lens) + additional);
    let after = lens.push(additional);
    assert(lens.take(n - 1) =~= lens.drop_last());
    assert forall|i: int| 1 <= i <= n implies #[trigger] grown_at(slots, after, i) by {
        assert(after.take(i) =~= lens.take(i));
        assert(after.take(i - 1) =~= lens.take(i - 1));
        if i < n {
            assert(grown_at(capacities, lens, i));
        } else {
            assert(lens.take(n) =~= lens);
        }
    }
}

/// Whether the element of index `k` is in slot `o` of fragment `f`, where `lens` says how many elements
/// each fragment has.
pub open spec fn stands_at(lens: Seq<nat>, k: int, f: int, o: int) -> bool {
    &&& 0 <= f < lens.len()
    &&& 0 <= o < lens[f]
    &&& total(lens.take(f)) + o == k
}

/// The first fragments, up to fragment `f`, hold no more than the first ones up to a later fragment.
pub proof fn lemma_total_take(lens: Seq<nat>, f: int, g: int)
    requires
        0 <= f < g <= lens.len(),
    ensures
        total(lens.take(f)) + lens[f] <= total(lens.take(g)),
    decreases g,
{
    assert(lens.take(g).drop_last() =~= lens.take(g - 1));
    if f < g - 1 {
        lemma_total_take(lens, f, g - 1);
    }
}

/// Every index has a slot.
proof fn lemma_has_slot(lens: Seq<nat>, k: int)
    requires
        0 <= k < total(lens),
    ensures
        exists|f: int, o: int| stands_at(lens, k, f, o),
    decreases lens.len(),
{
    let n = lens.len() - 1;
    assert(lens.take(n) =~= lens.drop_last());
    if k >= total(lens.drop_last()) {
        assert(stands_at(lens, k, n, k - total(lens.drop_last())));
    } else {
        lemma_has_slot(lens.drop_last(), k);
        let (f, o) = choose|f: int, o: int| stands_at(lens.drop_last(), k, f, o);
        assert(lens.drop_last().take(f) =~= lens.take(f));
        assert(stands_at(lens, k, f, o));
    }
}

/// The element at an index of a chain is the one in the slot of that index.
proof fn lemma_item_at<T>(fragments: Seq<Fragment<T>>, k: int, f: int, o: int)
    requires
        stands_at(lens_of(fragments), k, f, o),
    ensures
        0 <= k < items_of(fragments).len(),
        items_of(fragments)[k] == fragments[f]@[o],
    decreases fragments.len(),
{
    let n = fragments.len() - 1;
    let front = fragments.drop_last();
    lemma_items_len(front);
    assert(lens_of(fragments).drop_last() =~= lens_of(front));
    if f < n {
        assert(lens_of(front).take(f) =~= lens_of(fragments).take(f));
        lemma_item_at(front, k, f, o);
    } else {
        assert(lens_of(fragments).take(n) =~= lens_of(front));
    }
}

/// The elements of a chain are as many as its fragments hold together.
proof fn lemma_items_len<T>(fragments: Seq<Fragment<T>>)
    ensures
        items_of(fragments).len() == total(lens_of(fragments)),
    decreases fragments.len(),
{
    if fragments.len() > 0 {
        lemma_items_len(fragments.drop_last());
        assert(lens_of(fragments).drop_last() =~= lens_of(fragments.drop_last()));
    }
}

/// A chain of one fragment has the elements of that fragment.
proof fn lemma_items_single<T>(fragments: Seq<Fragment<T>>)
    requires
        fragments.len() == 1,
    ensures
        items_of(fragments) == fragments[0]@,
        total(lens_of(fragments)) == fragments[0]@.len(),
        total(lens_of(fragments).drop_last()) == 0,
{
    reveal_with_fuel(items_of, 2);
    reveal_with_fuel(total, 2);
    assert(items_of(fragments) =~= fragments[0]@);
}

/// Why a belt cannot take a batch.
#[derive(Clone, Copy, Debug, PartialEq, Eq)]
pub enum BeltError {
    /// There would be more elements than a length can count.
    TooManyElements,
    /// The batch needs a new fragment, and that would be too large.
    Fragment(LayoutError),
}

/// A vector that grows in fragments.
///
/// Batches are appended at the end, where each is given an index, and everything is taken off at
/// once, in one piece.
pub struct VecBelt<T> {
    /// The number of elements in all fragments but the last.
    preceding_len: usize,
    /// The number of elements.
    len: usize,
    /// The fragments, never none. Batches go to the last.
    fragments: Vec<Fragment<T>>,
}

impl<T> View for VecBelt<T> {
    type V = Seq<T>;

    /// The elements, by index.
    closed spec fn view(&self) -> Seq<T> {
        items_of(self.fragments@)
    }
}

impl<T> VecBelt<T> {
    /// The number of slots of each fragment, the oldest first.
    pub closed spec fn capacities(&self) -> Seq<nat> {
        capacities_of(self.fragments@)
    }

    /// The number of elements in each fragment, the oldest first.
    pub closed spec fn lens(&self) -> Seq<nat> {
        lens_of(self.fragments@)
    }

    /// The element in slot `o` of fragment `f`.
    pub closed spec fn slot(&self, f: int, o: int) -> T {
        self.fragments@[f]@[o]
    }

    /// The memory of the oldest fragment, with what is in it.
    pub closed spec fn memory(&self) -> Vec<T> {
        self.fragments@[0].memory()
    }

    /// The number of elements that are counted. While an append is being made these are more than are
    /// there.
    pub closed spec fn counted(&self) -> nat {
        self.len as nat
    }

    /// The state between a reservation and the arrival of its batch: `pending` elements are counted
    /// that are not there yet.
    spec fn wf_pending(&self, pending: nat) -> bool {
        let last = self.fragments@.len() - 1;
        &&& self.fragments@.len() > 0
        &&& forall|i: int| 0 <= i < self.fragments@.len() ==> (#[trigger] self.fragments@[i]).wf()
        &&& self.len == self@.len() + pending
        &&& self.len <= isize::MAX
        &&& self.preceding_len == total(self.lens().drop_last())
        &&& well_shaped(self.capacities(), self.lens().update(last, self.lens()[last] + pending))
    }

    /// What holds of every belt.
    pub closed spec fn wf(&self) -> bool {
        self.wf_pending(0)
    }

    /// Whether the last fragment has slots for `additional` more elements.
    pub open spec fn has_room(&self, additional: nat) -> bool {
        self.lens().last() + additional <= self.capacities().last()
    }

    /// The slots that the last fragment has free.
    pub open spec fn room(&self) -> nat {
        (self.capacities().last() - self.lens().last()) as nat
    }

    /// Whether a batch of `additional` elements can be appended: the elements can still be counted,
    /// and the new fragment, if there has to be one, is not too large.
    pub open spec fn can_append(&self, additional: nat) -> bool {
        &&& self@.len() + additional <= isize::MAX
        &&& self.has_room(additional) || crate::fragment::layout_ok::<T>(
            (self@.len() + additional) as int,
        )
    }

    /// Whether everything can be put into one fragment.
    pub open spec fn can_clear(&self) -> bool {
        self.capacities().len() == 1 || crate::fragment::layout_ok::<T>(self@.len() as int)
    }

    /// The capacities once a batch of `additional` elements is there: with a new fragment for as
    /// many elements as there are then, if the last one had no room.
    pub open spec fn capacities_after(&self, additional: nat) -> Seq<nat> {
        if self.has_room(additional) {
            self.capacities()
        } else {
            self.capacities().push(self@.len() + additional)
        }
    }

    /// The number of elements in each fragment once a batch of `additional` elements is there.
    pub open spec fn lens_after(&self, additional: nat) -> Seq<nat> {
        if self.has_room(additional) {
            self.lens().update(self.lens().len() - 1, self.lens().last() + additional)
        } else {
            self.lens().push(additional)
        }
    }

    /// Whether `reserved` is this belt once room is made for `additional` more elements: they are
    /// counted, and have a fragment to go to, but are not there yet.
    pub open spec fn reserves(&self, additional: nat, reserved: &Self) -> bool {
        &&& reserved.counted() == self@.len() + additional
        &&& reserved@ == self@
        &&& reserved.capacities() == self.capacities_after(additional)
        &&& reserved.lens() == if self.has_room(additional) {
            self.lens()
        } else {
            self.lens().push(0)
        }
    }

    /// Whether `after` is this belt with `batch` appended to it.
    pub open spec fn appends(&self, batch: Seq<T>, after: &Self) -> bool {
        &&& after.wf()
        &&& after@ == self@ + batch
        &&& after.capacities() == self.capacities_after(batch.len())
        &&& after.lens() == self.lens_after(batch.len())
    }

    /// The slots of a belt that has been cleared: those of its fragment if there was just one, and else
    /// as many as there were elements.
    pub open spec fn room_cleared(&self) -> nat {
        if self.capacities().len() == 1 {
            self.capacities()[0]
        } else {
            self@.len()
        }
    }

    /// Whether `after` is this belt once it has been cleared: empty, and of one fragment. That is the
    /// old one if there was just one, and else one for as many elements as there were.
    pub open spec fn clears(&self, after: &Self) -> bool {
        &&& after.wf()
        &&& after@ == Seq::<T>::empty()
        &&& after.lens() == seq![0nat]
        &&& after.capacities() == seq![self.room_cleared()]
    }

    /// How a belt is made up: its fragments hold the elements that it counts, and relate to each other as
    /// [`well_shaped`] says.
    pub proof fn law_shape(&self)
        requires
            self.wf(),
        ensures
            well_shaped(self.capacities(), self.lens()),
            total(self.lens()) == self@.len(),
            self@.len() <= isize::MAX,
            self.counted() == self@.len(),
    {
        let last = self.lens().len() - 1;
        lemma_items_len(self.fragments@);
        assert(self.lens().update(last, self.lens()[last] + 0nat) =~= self.lens());
    }

    /// Each index has one slot, and the element of the index is in it. So no two elements share a slot.
    pub proof fn law_slot_of_index(&self, k: int)
        requires
            self.wf(),
            0 <= k < self@.len(),
        ensures
            exists|f: int, o: int| stands_at(self.lens(), k, f, o),
            forall|f: int, o: int| #[trigger]
                stands_at(self.lens(), k, f, o) ==> self.slot(f, o) == self@[k],
            forall|f: int, o: int, g: int, p: int| #[trigger]
                stands_at(self.lens(), k, f, o) && #[trigger] stands_at(self.lens(), k, g, p) ==> f
                    == g && o == p,
    {
        lemma_items_len(self.fragments@);
        lemma_has_slot(self.lens(), k);
        assert forall|f: int, o: int| #[trigger] stands_at(self.lens(), k, f, o) implies self.slot(
            f,
            o,
        ) == self@[k] by {
            lemma_item_at(self.fragments@, k, f, o);
        }
        assert forall|f: int, o: int, g: int, p: int| #[trigger]
            stands_at(self.lens(), k, f, o) && #[trigger] stands_at(self.lens(), k, g, p) implies f
            == g && o == p by {
            if f < g {
                lemma_total_take(self.lens(), f, g);
            } else if g < f {
                lemma_total_take(self.lens(), g, f);
            }
        }
    }

    /// The oldest fragment of a belt is a fragment that there can be.
    pub proof fn law_first_fits(&self)
        requires
            self.wf(),
        ensures
            crate::fragment::layout_ok::<T>(self.capacities()[0] as int),
    {
        assert(self.fragments@[0].wf());
    }

    /// A belt takes a batch if and only if the elements can be counted then, and the last fragment has
    /// slots for the batch or there can be a fragment for all elements.
    pub proof fn law_can_append(&self, additional: nat)
        requires
            self.wf(),
        ensures
            self.can_append(additional) <==> {
                &&& self@.len() + additional <= isize::MAX
                &&& self.lens().last() + additional <= self.capacities().last()
                    || crate::fragment::layout_ok::<T>((self@.len() + additional) as int)
            },
    {
    }

    /// A belt takes every batch with which its elements, and four words and two elements besides, come
    /// to no more than `isize::MAX`; and if the elements have no size, every batch that can be counted.
    pub proof fn law_append_enough(&self, additional: nat)
        requires
            self.wf(),
            self@.len() + additional <= isize::MAX,
            vstd::layout::size_of::<T>() > 0 ==> 4 * vstd::layout::size_of::<usize>()
                + vstd::layout::size_of::<T>() * (self@.len() + additional + 2) <= isize::MAX,
        ensures
            self.can_append(additional),
    {
        let all = (self@.len() + additional) as int;
        if vstd::layout::size_of::<T>() > 0 {
            crate::fragment::law_layout_enough::<T>(all);
        } else {
            self.law_first_fits();
            crate::fragment::law_layout_without_size::<T>(self.capacities()[0] as int, all);
        }
    }

    /// A belt that takes a batch takes every smaller one.
    pub proof fn law_append_fewer(&self, fewer: nat, additional: nat)
        requires
            self.wf(),
            fewer <= additional,
            self.can_append(additional),
        ensures
            self.can_append(fewer),
    {
        if !self.has_room(fewer) {
            crate::fragment::law_layout_monotone::<T>(
                (self@.len() + fewer) as int,
                (self@.len() + additional) as int,
            );
        }
    }

    /// While the elements of an append are being made they are counted, and nothing is there that was not
    /// there before. If the last fragment has no slots for them there is a new one, with as many slots
    /// as elements are counted then.
    pub proof fn law_reserved(&self, additional: nat, reserved: &Self)
        requires
            self.wf(),
            self.reserves(additional, reserved),
        ensures
            reserved.counted() == self@.len() + additional,
            reserved@ == self@,
            self.lens().last() + additional <= self.capacities().last() ==> {
                &&& reserved.capacities() == self.capacities()
                &&& reserved.lens() == self.lens()
            },
            self.lens().last() + additional > self.capacities().last() ==> {
                &&& reserved.capacities() == self.capacities().push(self@.len() + additional)
                &&& reserved.lens() == self.lens().push(0)
            },
    {
    }

    /// An append puts its batch behind everything that is there. It goes to the last fragment if that
    /// has slots for it, and else to a new one, with as many slots as there are elements then.
    pub proof fn law_appended(&self, batch: Seq<T>, after: &Self)
        requires
            self.wf(),
            self.appends(batch, after),
        ensures
            after@ == self@ + batch,
            after.counted() == self@.len() + batch.len(),
            self.lens().last() + batch.len() <= self.capacities().last() ==> {
                &&& after.capacities() == self.capacities()
                &&& after.lens().drop_last() == self.lens().drop_last()
                &&& after.lens().last() == self.lens().last() + batch.len()
            },
            self.lens().last() + batch.len() > self.capacities().last() ==> {
                &&& after.capacities() == self.capacities().push(self@.len() + batch.len())
                &&& after.lens() == self.lens().push(batch.len())
            },
    {
        self.law_shape();
        after.law_shape();
        if self.lens().last() + batch.len() <= self.capacities().last() {
            assert(after.lens().drop_last() =~= self.lens().drop_last());
        }
    }

    /// A belt can be cleared if and only if it has one fragment or there can be a fragment for all its
    /// elements.
    pub proof fn law_can_clear(&self)
        requires
            self.wf(),
        ensures
            self.can_clear() <==> self.capacities().len() == 1 || crate::fragment::layout_ok::<T>(
                self@.len() as int,
            ),
    {
    }

    /// A belt can be cleared whenever its elements, and four words and two elements besides, come to no
    /// more than `isize::MAX`; and if the elements have no size, always.
    pub proof fn law_clear_enough(&self)
        requires
            self.wf(),
            vstd::layout::size_of::<T>() > 0 ==> 4 * vstd::layout::size_of::<usize>()
                + vstd::layout::size_of::<T>() * (self@.len() + 2) <= isize::MAX,
        ensures
            self.can_clear(),
    {
        let all = self@.len() as int;
        if vstd::layout::size_of::<T>() > 0 {
            crate::fragment::law_layout_enough::<T>(all);
        } else {
            self.law_first_fits();
            crate::fragment::law_layout_without_size::<T>(self.capacities()[0] as int, all);
        }
    }

    /// A cleared belt has the slots of its fragment if it had just one, and else as many as it had
    /// elements. Either way it can be cleared again, and takes as many elements as it had.
    pub proof fn law_cleared(&self, after: &Self)
        requires
            self.wf(),
            self.can_clear(),
            self.clears(after),
        ensures
            after@.len() == 0,
            after.capacities().len() == 1,
            self.capacities().len() == 1 ==> after.capacities()[0] == self.capacities()[0],
            self.capacities().len() != 1 ==> after.capacities()[0] == self@.len(),
            self@.len() <= after.capacities()[0],
            after.room() == after.capacities()[0],
            self.room_cleared() == after.capacities()[0],
            after.can_clear(),
            after.can_append(self@.len()),
    {
        self.law_shape();
        if self.capacities().len() == 1 {
            reveal_with_fuel(total, 2);
            assert(self.lens()[0] <= self.capacities()[0]);
        }
    }

    /// The length of a belt never reaches the lock bit of a length word.
    pub proof fn law_len_word_counts(&self)
        requires
            self.wf(),
        ensures
            self@.len() <= crate::len_word::MASK,
    {
        crate::len_word::lemma_word_bits(0);
    }

    /// An empty belt of one fragment, which has `initial_size` slots.
    pub fn new(initial_size: usize) -> (belt: Self)
        requires
            crate::fragment::layout_ok::<T>(initial_size as int),
        ensures
            belt.wf(),
            belt@ == Seq::<T>::empty(),
            belt.capacities() == seq![initial_size as nat],
            belt.lens() == seq![0nat],
    {
        let head = fragment_of(initial_size);
        let mut fragments: Vec<Fragment<T>> = Vec::new();
        fragments.push(head);
        let belt = VecBelt { preceding_len: 0, len: 0, fragments };
        proof {
            lemma_items_single(belt.fragments@);
            assert(belt.capacities() =~= seq![initial_size as nat]);
            assert(belt.lens() =~= seq![0nat]);
            assert(belt.lens().update(0, belt.lens()[0] + 0nat) =~= belt.lens());
        }
        belt
    }

    /// The number of elements that are counted, which is that of the elements, unless an append is
    /// being made.
    pub fn len(&self) -> (len: usize)
        ensures
            len == self.counted(),
            self.wf() ==> len == self@.len(),
    {
        self.len
    }

    /// The number of elements, read through an exclusive reference.
    pub fn len_mut(&mut self) -> (len: usize)
        ensures
            len == old(self).counted(),
            old(self).wf() ==> len == old(self)@.len(),
            *final(self) == *old(self),
    {
        self.len
    }

    /// The slots that a clear leaves.
    pub fn free_cleared(&self) -> (room: usize)
        requires
            self.wf(),
        ensures
            room == self.room_cleared(),
    {
        if likely(self.fragments.len() == 1) {
            self.fragments[0].capacity()
        } else {
            self.len
        }
    }

    /// Makes sure that the last fragment has room for `additional` elements, counts them, and says
    /// at which index they begin.
    fn append_raw_erased(&mut self, additional: usize) -> (index: usize)
        requires
            old(self).wf(),
            old(self).can_append(additional as nat),
        ensures
            index == old(self)@.len(),
            final(self).wf_pending(additional as nat),
            old(self).reserves(additional as nat, final(self)),
    {
        let len: usize = self.len;
        let new_len: usize = len + additional;
        let preceding: usize = self.preceding_len;
        let last: usize = self.fragments.len() - 1;
        let ghost capacities = self.capacities();
        let ghost lens = self.lens();
        proof {
            lemma_items_len(self.fragments@);
            assert(lens.update(last as int, lens[last as int] + 0nat) =~= lens);
        }
        if likely(self.fragments[last].capacity() >= new_len - preceding) {
            self.len = new_len;
            proof {
                lemma_shape_with_room(capacities, lens, additional as nat);
            }
        } else {
            let tail = fragment_of(new_len);
            self.preceding_len = len;
            self.fragments.push(tail);
            self.len = new_len;
            proof {
                lemma_shape_grown(capacities, lens, additional as nat);
                assert(self.fragments@.drop_last() =~= old(self).fragments@);
                assert(self@ =~= old(self)@);
                assert(self.capacities() =~= capacities.push(new_len as nat));
                assert(self.lens() =~= lens.push(0));
                assert(self.lens().drop_last() =~= lens);
                assert(self.lens().update(last + 1, 0 + additional as nat) =~= lens.push(
                    additional as nat,
                ));
            }
        }
        len
    }

    /// Appends the `additional` elements that `acceptor` makes, and returns the index of the first.
    ///
    /// The elements are counted, and room is made for them, before `acceptor` is called. It is shown
    /// the belt as it then is.
    pub fn append_raw(&mut self, additional: usize, acceptor: impl FnOnce(&Self) -> Vec<T>) -> (index:
        usize)
        requires
            old(self).wf(),
            old(self).can_append(additional as nat),
            forall|reserved: &Self|
                #![trigger acceptor.requires((reserved,))]
                old(self).reserves(additional as nat, reserved) ==> acceptor.requires((reserved,)),
            forall|reserved: &Self, batch: Vec<T>|
                #![trigger acceptor.ensures((reserved,), batch)]
                old(self).reserves(additional as nat, reserved) && acceptor.ensures(
                    (reserved,),
                    batch,
                ) ==> batch@.len() == additional,
        ensures
            index == old(self)@.len(),
            exists|reserved: &Self, batch: Vec<T>|
                #![trigger acceptor.ensures((reserved,), batch)]
                {
                    &&& old(self).reserves(additional as nat, reserved)
                    &&& acceptor.ensures((reserved,), batch)
                    &&& old(self).appends(batch@, final(self))
                },
    {
        let index = self.append_raw_erased(additional);
        let ghost reserved = *self;
        let batch = acceptor(&*self);
        let last: usize = self.fragments.len() - 1;
        proof {
            assert(reserved.capacities()[last as int] == reserved.fragments@[last as int].slots());
            assert(reserved.lens()[last as int] == reserved.fragments@[last as int]@.len());
            let lens = reserved.lens();
            let taken = lens.update(last as int, lens[last as int] + additional as nat);
            assert(taken[last as int] <= reserved.capacities()[last as int]);
        }
        let ghost items = batch@;
        self.fragments[last].fill(batch);
        proof {
            let lens = reserved.lens();
            let taken = lens.update(last as int, lens[last as int] + additional as nat);
            assert(self.fragments@.drop_last() =~= reserved.fragments@.drop_last());
            assert(self@ =~= reserved@ + items);
            assert(self.capacities() =~= reserved.capacities());
            assert(self.lens() =~= taken);
            assert(self.lens().drop_last() =~= lens.drop_last());
            assert(self.lens().update(last as int, self.lens()[last as int] + 0nat) =~= self.lens());
            assert(self.lens() =~= old(self).lens_after(additional as nat));
            assert(old(self).appends(items, self));
        }
        index
    }

    /// Appends a batch and returns the index of its first element.
    ///
    /// The batch is what the two methods of [`TransferBelt`] say it is.
    pub fn append<B: TransferBelt<T>>(&mut self, transfer: B) -> (index: usize)
        requires
            old(self).wf(),
            forall|len: usize|
                #![trigger call_ensures(B::transfer_len, (&transfer,), len)]
                call_ensures(B::transfer_len, (&transfer,), len) ==> old(self).can_append(
                    len as nat,
                ),
        ensures
            index == old(self)@.len(),
            exists|len: usize, batch: Vec<T>|
                #![trigger call_ensures(B::transfer, (transfer, len), batch)]
                {
                    &&& call_ensures(B::transfer_len, (&transfer,), len)
                    &&& call_ensures(B::transfer, (transfer, len), batch)
                    &&& batch@.len() == len
                    &&& old(self).appends(batch@, final(self))
                },
    {
        let len: usize = transfer.transfer_len();
        let acceptor = |_reserved: &Self| -> (batch: Vec<T>)
            ensures
                batch@.len() == len,
                call_ensures(B::transfer, (transfer, len), batch),
            { transfer.transfer(len) };
        self.append_raw(len, acceptor)
    }

    /// Whether a batch of `additional` elements can be appended, and if not, why.
    pub fn check_append(&self, additional: usize) -> (r: Result<(), BeltError>)
        requires
            self.wf(),
        ensures
            r is Ok <==> self.can_append(additional as nat),
            (r is Err && r->Err_0 is TooManyElements) <==> self@.len() + additional
                > isize::MAX,
    {
        proof {
            crate::len_word::lemma_word_bits(additional);
        }
        if unlikely(additional & FLAG == FLAG) {
            return Err(BeltError::TooManyElements);
        }
        let new_len: usize = self.len + additional;
        proof {
            crate::len_word::lemma_word_bits(new_len);
            lemma_items_len(self.fragments@);
            assert(self.lens().update(
                self.lens().len() - 1,
                self.lens()[self.lens().len() - 1] + 0nat,
            ) =~= self.lens());
        }
        if unlikely(new_len & FLAG == FLAG) {
            return Err(BeltError::TooManyElements);
        }
        let last: usize = self.fragments.len() - 1;
        if likely(self.fragments[last].capacity() >= new_len - self.preceding_len) {
            return Ok(());
        }
        match Fragment::<T>::layout(new_len) {
            Ok(_) => Ok(()),
            Err(e) => Err(BeltError::Fragment(e)),
        }
    }

    /// Whether everything can be put into one fragment, and if not, why.
    pub fn check_clear(&self) -> (r: Result<(), LayoutError>)
        requires
            self.wf(),
        ensures
            r is Ok <==> self.can_clear(),
    {
        if likely(self.fragments.len() == 1) {
            return Ok(());
        }
        match Fragment::<T>::layout(self.len) {
            Ok(_) => Ok(()),
            Err(e) => Err(e),
        }
    }

    /// A belt that counts nothing, and whose one fragment has nothing in it, is in order.
    proof fn lemma_cleared(&self)
        requires
            self.preceding_len == 0,
            self.len == 0,
            self.fragments@.len() == 1,
            self.fragments@[0].wf(),
            self.fragments@[0]@ == Seq::<T>::empty(),
        ensures
            self.wf(),
            self@ == Seq::<T>::empty(),
            self.lens() == seq![0nat],
            self.capacities() == seq![self.fragments@[0].slots()],
    {
        lemma_items_single(self.fragments@);
        assert(self.lens() =~= seq![0nat]);
        assert(self.lens().update(0, self.lens()[0] + 0nat) =~= self.lens());
        assert(self.capacities() =~= seq![self.fragments@[0].slots()]);
    }

    /// Takes everything off the belt and hands it to `consumer`, in one piece.
    ///
    /// The belt is left with one fragment. If it had several, that one has slots for as many elements
    /// as were taken off. The elements leave their slots, and the memory of these stays with the belt.
    pub fn clear<'a, R>(&'a mut self, consumer: impl FnOnce(ConsumeSlice<'a, T>) -> R) -> (r: R)
        requires
            old(self).wf(),
            old(self).can_clear(),
            forall|slice: ConsumeSlice<'a, T>|
                #![trigger consumer.requires((slice,))]
                slice@ == old(self)@ ==> consumer.requires((slice,)),
        ensures
            old(self).clears(final(self)),
            exists|slice: ConsumeSlice<'a, T>|
                #![trigger consumer.ensures((slice,), r)]
                {
                    &&& slice@ == old(self)@
                    &&& slice.belongs() matches Some(home) && home@ == Seq::<T>::empty() && *final(home)
                        == final(self).memory()
                    &&& consumer.ensures((slice,), r)
                },
    {
        let current: usize = self.len;
        self.preceding_len = 0;
        self.len = 0;
        if likely(self.fragments.len() == 1) {
            proof {
                lemma_items_single(self.fragments@);
            }
        } else {
            merge(&mut self.fragments, current);
        }
        let ghost merged = self.fragments@;
        proof {
            lemma_items_single(merged);
        }
        let ghost after = *final(self);
        let (items, home) = self.fragments[0].lend();
        proof {
            after.lemma_cleared();
        }
        consumer(ConsumeSlice::new(items, home))
    }
}

/// A fragment of `capacity` slots, where there can be one.
fn fragment_of<T>(capacity: usize) -> (fragment: Fragment<T>)
    requires
        crate::fragment::layout_ok::<T>(capacity as int),
    ensures
        fragment.wf(),
        fragment.slots() == capacity,
        fragment@ == Seq::<T>::empty(),
{
    // The layout is in order, so nothing ever stands in for the fragment.
    unwrap_or_else_likely(
        Fragment::new(capacity),
        |_e: LayoutError| -> (fragment: Fragment<T>) { Fragment::empty() },
    )
}

/// Moves the elements of a chain of fragments, `current` in all, into one fragment for so many, which
/// takes the place of the chain.
fn merge<T>(fragments: &mut Vec<Fragment<T>>, current: usize)
    requires
        forall|i: int| 0 <= i < old(fragments)@.len() ==> (#[trigger] old(fragments)@[i]).wf(),
        items_of(old(fragments)@).len() == current,
        crate::fragment::layout_ok::<T>(current as int),
    ensures
        final(fragments)@.len() == 1,
        final(fragments)@[0].wf(),
        final(fragments)@[0]@ == items_of(old(fragments)@),
        final(fragments)@[0].slots() == current,
{
    let mut head = fragment_of(current);
    let mut nodes: Vec<Fragment<T>> = Vec::new();
    std::mem::swap(&mut nodes, fragments);
    let ghost chain = nodes@;
    let count: usize = nodes.len();
    for i in 0..count
        invariant
            count == chain.len(),
            nodes@.len() == count,
            forall|j: int| i <= j < count ==> #[trigger] nodes@[j] == chain[j],
            forall|j: int| 0 <= j < count ==> (#[trigger] chain[j]).wf(),
            head.wf(),
            head.slots() == current,
            head@ == items_of(chain.take(i as int)),
            items_of(chain).len() == current,
    {
        proof {
            lemma_items_prefix(chain, i + 1);
            assert(chain.take(i + 1).drop_last() =~= chain.take(i as int));
            assert(chain[i as int].wf());
        }
        let part = nodes[i].take();
        head.fill(part);
    }
    proof {
        assert(chain.take(count as int) =~= chain);
    }
    fragments.push(head);
}

/// The first fragments of a chain hold no more elements than all of them.
proof fn lemma_items_prefix<T>(fragments: Seq<Fragment<T>>, n: int)
    requires
        0 <= n <= fragments.len(),
    ensures
        items_of(fragments.take(n)).len() <= items_of(fragments).len(),
    decreases fragments.len(),
{
    if n < fragments.len() {
        lemma_items_prefix(fragments.drop_last(), n);
        assert(fragments.drop_last().take(n) =~= fragments.take(n));
    } else {
        assert(fragments.take(n) =~= fragments);
    }
}

} // verus!
