//! What holds of a belt over several calls.

use crate::belt::VecBelt;
use crate::consume::ConsumeSlice;
use vstd::arithmetic::power2::{lemma2_to64, lemma_pow2_unfold};
use vstd::prelude::*;

verus! {

/// The batches one after the other.
pub open spec fn flat<T>(batches: Seq<Seq<T>>) -> Seq<T>
    decreases batches.len(),
{
    if batches.len() == 0 {
        Seq::empty()
    } else {
        flat(batches.drop_last()) + batches.last()
    }
}

/// `belts` are the states of one belt, to which `batches` are appended one by one.
pub open spec fn appended_one_by_one<T>(belts: Seq<VecBelt<T>>, batches: Seq<Seq<T>>) -> bool {
    &&& belts.len() == batches.len() + 1
    &&& belts[0].wf()
    &&& forall|i: int|
        0 <= i < batches.len() ==> (#[trigger] belts[i]).appends(batches[i], &belts[i + 1])
}

/// The states of a belt without its last append are states of a belt too.
proof fn lemma_without_last<T>(belts: Seq<VecBelt<T>>, batches: Seq<Seq<T>>)
    requires
        appended_one_by_one(belts, batches),
        batches.len() > 0,
    ensures
        appended_one_by_one(belts.drop_last(), batches.drop_last()),
{
    assert forall|i: int| 0 <= i < batches.len() - 1 implies (
    #[trigger] belts.drop_last()[i]).appends(batches.drop_last()[i], &belts.drop_last()[i + 1]) by {
        assert(belts[i].appends(batches[i], &belts[i + 1]));
    }
}

/// What is appended stays, in the order of the appends: the belt holds what it held before, and then
/// the batches one after the other.
pub proof fn law_appends_accumulate<T>(belts: Seq<VecBelt<T>>, batches: Seq<Seq<T>>)
    requires
        appended_one_by_one(belts, batches),
    ensures
        belts.last()@ == belts[0]@ + flat(batches),
    decreases batches.len(),
{
    if batches.len() == 0 {
        assert(belts.last()@ =~= belts[0]@ + flat(batches));
    } else {
        let n = batches.len() - 1;
        assert(belts[n].appends(batches[n], &belts[n + 1]));
        lemma_without_last(belts, batches);
        law_appends_accumulate(belts.drop_last(), batches.drop_last());
        assert(belts.last()@ =~= belts[0]@ + flat(batches));
    }
}

/// The index that an append returns, which is the length before it, keeps its meaning: after any
/// number of further appends the batch is still found there, whole.
pub proof fn law_index_finds_batch<T>(belts: Seq<VecBelt<T>>, batches: Seq<Seq<T>>, i: int)
    requires
        appended_one_by_one(belts, batches),
        0 <= i < batches.len(),
    ensures
        belts[i]@.len() + batches[i].len() <= belts.last()@.len(),
        belts.last()@.subrange(belts[i]@.len() as int, (belts[i]@.len() + batches[i].len()) as int)
            == batches[i],
    decreases batches.len(),
{
    let n = batches.len() - 1;
    assert(belts[n].appends(batches[n], &belts[n + 1]));
    if i == n {
        assert(belts.last()@.subrange(
            belts[i]@.len() as int,
            (belts[i]@.len() + batches[i].len()) as int,
        ) =~= batches[i]);
    } else {
        lemma_without_last(belts, batches);
        law_index_finds_batch(belts.drop_last(), batches.drop_last(), i);
        let from = belts[i]@.len() as int;
        let to = (belts[i]@.len() + batches[i].len()) as int;
        assert(belts.last()@.subrange(from, to) =~= belts[n]@.subrange(from, to));
    }
}

/// What a belt hands over when it is cleared is what was appended to it, everything and in order,
/// and each batch is found in it at the index that its append returned.
pub proof fn law_clear_gives_back<T>(
    belts: Seq<VecBelt<T>>,
    batches: Seq<Seq<T>>,
    slice: ConsumeSlice<'_, T>,
)
    requires
        appended_one_by_one(belts, batches),
        belts[0]@.len() == 0,
        slice@ == belts.last()@,
    ensures
        slice@ == flat(batches),
        forall|i: int|
            0 <= i < batches.len() ==> #[trigger] slice@.subrange(
                belts[i]@.len() as int,
                (belts[i]@.len() + batches[i].len()) as int,
            ) == batches[i],
{
    law_appends_accumulate(belts, batches);
    assert(slice@ =~= flat(batches));
    assert forall|i: int| 0 <= i < batches.len() implies #[trigger] slice@.subrange(
        belts[i]@.len() as int,
        (belts[i]@.len() + batches[i].len()) as int,
    ) == batches[i] by {
        law_index_finds_batch(belts, batches, i);
    }
}

/// What comes of an append is decided by the elements, whatever collection has carried them: two belts
/// that are alike are alike again once both have been given the same elements.
pub proof fn law_elements_decide<T>(
    belt: &VecBelt<T>,
    other: &VecBelt<T>,
    batch: Seq<T>,
    after: &VecBelt<T>,
    other_after: &VecBelt<T>,
)
    requires
        belt@ == other@,
        belt.capacities() == other.capacities(),
        belt.lens() == other.lens(),
        belt.appends(batch, after),
        other.appends(batch, other_after),
    ensures
        after@ == other_after@,
        after.counted() == other_after.counted(),
        after.capacities() == other_after.capacities(),
        after.lens() == other_after.lens(),
{
    after.law_shape();
    other_after.law_shape();
}

/// As long as the batches together fit into the slots that the last fragment has free, no fragment
/// is added.
pub proof fn law_no_growth_within_room<T>(belts: Seq<VecBelt<T>>, batches: Seq<Seq<T>>)
    requires
        appended_one_by_one(belts, batches),
        belts[0].lens().last() + flat(batches).len() <= belts[0].capacities().last(),
    ensures
        belts.last().capacities() == belts[0].capacities(),
        belts.last().lens().last() == belts[0].lens().last() + flat(batches).len(),
    decreases batches.len(),
{
    if batches.len() > 0 {
        let n = batches.len() - 1;
        assert(belts[n].appends(batches[n], &belts[n + 1]));
        lemma_without_last(belts, batches);
        law_no_growth_within_room(belts.drop_last(), batches.drop_last());
        if n > 0 {
            assert(belts[n - 1].appends(batches[n - 1], &belts[n - 1 + 1]));
        }
        belts[n].law_shape();
    }
}

/// A clear leaves slots for what it took off: until as many elements are there again, no fragment is
/// added, and everything goes to the one fragment from its start. The batches have the indices that
/// they would have on a new belt.
pub proof fn law_clear_leaves_room<T>(
    before: &VecBelt<T>,
    belts: Seq<VecBelt<T>>,
    batches: Seq<Seq<T>>,
)
    requires
        before.wf(),
        before.clears(&belts[0]),
        appended_one_by_one(belts, batches),
        flat(batches).len() <= before@.len(),
    ensures
        belts.last().capacities() == belts[0].capacities(),
        belts.last().capacities().len() == 1,
        belts.last().lens() == seq![flat(batches).len()],
        belts.last()@ == flat(batches),
{
    before.law_shape();
    if before.capacities().len() == 1 {
        reveal_with_fuel(crate::belt::total, 2);
        assert(before.lens().last() == before@.len());
    }
    law_no_growth_within_room(belts, batches);
    law_appends_accumulate(belts, batches);
    lemma_all_well_formed(belts, batches, batches.len() as int);
    belts.last().law_shape();
    assert(belts.last().lens() =~= seq![flat(batches).len()]);
    assert(belts.last()@ =~= flat(batches));
}

/// A batch that brings a new fragment has it to itself at first, and leaves as many slots free as
/// there were elements before: until so many more are there, no further fragment is added.
pub proof fn law_growth_leaves_room<T>(
    before: &VecBelt<T>,
    batch: Seq<T>,
    belts: Seq<VecBelt<T>>,
    batches: Seq<Seq<T>>,
)
    requires
        before.wf(),
        before.lens().last() + batch.len() > before.capacities().last(),
        before.appends(batch, &belts[0]),
        appended_one_by_one(belts, batches),
        flat(batches).len() <= before@.len(),
    ensures
        belts[0].lens() == before.lens().push(batch.len()),
        belts.last().capacities() == before.capacities().push(before@.len() + batch.len()),
{
    law_no_growth_within_room(belts, batches);
}

/// Every state of a belt to which batches are appended is a belt.
proof fn lemma_all_well_formed<T>(belts: Seq<VecBelt<T>>, batches: Seq<Seq<T>>, i: int)
    requires
        appended_one_by_one(belts, batches),
        0 <= i <= batches.len(),
    ensures
        belts[i].wf(),
{
    if i > 0 {
        assert(belts[i - 1].appends(batches[i - 1], &belts[i - 1 + 1]));
    }
}

/// A batch is put into consecutive slots of one fragment, the last, behind those that are taken.
pub proof fn law_batch_in_one_piece<T>(
    before: &VecBelt<T>,
    batch: Seq<T>,
    after: &VecBelt<T>,
    j: int,
)
    requires
        before.wf(),
        before.appends(batch, after),
        0 <= j < batch.len(),
    ensures
        crate::belt::stands_at(
            after.lens(),
            before@.len() + j,
            after.lens().len() - 1,
            after.lens().last() - batch.len() + j,
        ),
{
    before.law_shape();
    after.law_shape();
    let last = after.lens().len() - 1;
    assert(after.lens().take(last) =~= after.lens().drop_last());
}

/// An append leaves the elements that are there in their slots.
proof fn lemma_stays_put<T>(
    before: &VecBelt<T>,
    batch: Seq<T>,
    after: &VecBelt<T>,
    k: int,
    f: int,
    o: int,
)
    requires
        before.wf(),
        before.appends(batch, after),
        crate::belt::stands_at(before.lens(), k, f, o),
    ensures
        crate::belt::stands_at(after.lens(), k, f, o),
{
    before.law_shape();
    assert(after.lens().take(f) =~= before.lens().take(f));
}

/// Appends move nothing: an element stays in its slot until the belt is cleared.
pub proof fn law_items_stay_put<T>(
    belts: Seq<VecBelt<T>>,
    batches: Seq<Seq<T>>,
    k: int,
    f: int,
    o: int,
)
    requires
        appended_one_by_one(belts, batches),
        crate::belt::stands_at(belts[0].lens(), k, f, o),
    ensures
        crate::belt::stands_at(belts.last().lens(), k, f, o),
        0 <= k < belts[0]@.len(),
        belts.last().slot(f, o) == belts[0].slot(f, o),
    decreases batches.len(),
{
    belts[0].law_shape();
    crate::belt::lemma_total_take(belts[0].lens(), f, belts[0].lens().len() as int);
    assert(belts[0].lens().take(belts[0].lens().len() as int) =~= belts[0].lens());
    if batches.len() > 0 {
        let n = batches.len() - 1;
        lemma_without_last(belts, batches);
        law_items_stay_put(belts.drop_last(), batches.drop_last(), k, f, o);
        lemma_all_well_formed(belts, batches, n);
        assert(belts[n].appends(batches[n], &belts[n + 1]));
        lemma_stays_put(&belts[n], batches[n], &belts[n + 1], k, f, o);
        law_appends_accumulate(belts.drop_last(), batches.drop_last());
        belts[n].law_slot_of_index(k);
        belts[n + 1].law_slot_of_index(k);
    }
}

/// From the second fragment on, a fragment has more slots than the two before it together.
pub proof fn law_fragments_grow<T>(belt: &VecBelt<T>, i: int)
    requires
        belt.wf(),
        1 <= i,
        i + 2 < belt.capacities().len(),
    ensures
        belt.capacities()[i] + belt.capacities()[i + 1] < belt.capacities()[i + 2],
{
    belt.law_shape();
    let lens = belt.lens();
    assert(lens.take(i + 1).drop_last() =~= lens.take(i));
    assert(crate::belt::grown_at(belt.capacities(), lens, i));
    assert(crate::belt::grown_at(belt.capacities(), lens, i + 2));
}

/// So the slots grow exponentially, and the fragments of a belt are few: a belt of `n + 2` fragments
/// has at least `2` to the power of `n / 2` elements.
pub proof fn law_fragments_are_few<T>(belt: &VecBelt<T>)
    requires
        belt.wf(),
        belt.capacities().len() >= 2,
    ensures
        vstd::arithmetic::power2::pow2(((belt.capacities().len() - 2) / 2) as nat) <= belt@.len(),
{
    belt.law_shape();
    let last = belt.capacities().len() - 1;
    lemma_capacity_bound(belt, last);
    let lens = belt.lens();
    assert(lens.take(last) =~= lens.drop_last());
    assert(crate::belt::grown_at(belt.capacities(), lens, last));
}

/// The slots of fragment `i`, counted from zero, are at least `2` to the power of `(i - 1) / 2`.
proof fn lemma_capacity_bound<T>(belt: &VecBelt<T>, i: int)
    requires
        belt.wf(),
        1 <= i < belt.capacities().len(),
    ensures
        vstd::arithmetic::power2::pow2(((i - 1) / 2) as nat) <= belt.capacities()[i],
    decreases i,
{
    belt.law_shape();
    lemma2_to64();
    assert(crate::belt::grown_at(belt.capacities(), belt.lens(), i));
    if i >= 3 {
        lemma_capacity_bound(belt, i - 2);
        law_fragments_grow(belt, i - 2);
        assert(crate::belt::grown_at(belt.capacities(), belt.lens(), i - 1));
        lemma_pow2_unfold(((i - 1) / 2) as nat);
        assert(((i - 1) / 2) - 1 == (i - 3) / 2);
    }
}

/// Whether `after` is what an iterator still has to hand out once it has handed out the first of
/// `before`, or the last.
pub open spec fn takes_end<T>(before: Seq<T>, front: bool, after: Seq<T>) -> bool {
    &&& before.len() > 0
    &&& after == if front {
        before.drop_first()
    } else {
        before.drop_last()
    }
}

/// Handing out from both ends: `views` are what is still to come of an iterator, and `fronts` says
/// of each element whether it was taken at the front.
pub open spec fn taken_one_by_one<T>(views: Seq<Seq<T>>, fronts: Seq<bool>) -> bool {
    &&& views.len() == fronts.len() + 1
    &&& forall|i: int|
        0 <= i < fronts.len() ==> takes_end(views[i], #[trigger] fronts[i], views[i + 1])
}

/// How many elements were taken at the front.
pub open spec fn count_fronts(fronts: Seq<bool>) -> nat
    decreases fronts.len(),
{
    if fronts.len() == 0 {
        0
    } else {
        count_fronts(fronts.drop_last()) + if fronts.last() {
            1nat
        } else {
            0nat
        }
    }
}

/// However the two ends take turns, what is still to come is the middle: all elements but as many
/// from the front, and as many from the back, as were taken there.
pub proof fn law_middle_remains<T>(views: Seq<Seq<T>>, fronts: Seq<bool>)
    requires
        taken_one_by_one(views, fronts),
    ensures
        count_fronts(fronts) <= fronts.len() <= views[0].len(),
        views.last() == views[0].subrange(
            count_fronts(fronts) as int,
            views[0].len() - (fronts.len() - count_fronts(fronts)),
        ),
    decreases fronts.len(),
{
    if fronts.len() == 0 {
        assert(views.last() =~= views[0].subrange(0, views[0].len() as int));
    } else {
        let n = fronts.len() - 1;
        assert(takes_end(views[n], fronts[n], views[n + 1]));
        assert(taken_one_by_one(views.drop_last(), fronts.drop_last())) by {
            assert forall|i: int| 0 <= i < fronts.drop_last().len() implies takes_end(
                views.drop_last()[i],
                #[trigger] fronts.drop_last()[i],
                views.drop_last()[i + 1],
            ) by {
                assert(takes_end(views[i], fronts[i], views[i + 1]));
            }
        }
        law_middle_remains(views.drop_last(), fronts.drop_last());
        assert(views.last() =~= views[0].subrange(
            count_fronts(fronts) as int,
            views[0].len() - (fronts.len() - count_fronts(fronts)),
        ));
    }
}

} // verus!
