//! What a belt hands out when it is cleared.

use std::collections::VecDeque;
use std::ops::{Deref, DerefMut};
use vstd::prelude::*;

verus! {

/// Trusted: `Vec::drain`, on the whole vector and dropped at once, drops every element in order and
/// leaves the vector empty, with its memory.
///
/// That it does not unwind rests on the elements' own destructors, which Verus takes not to unwind.
#[verifier::external_body]
fn drop_all<T>(items: &mut Vec<T>)
    ensures
        final(items)@ == Seq::<T>::empty(),
    opens_invariants none
    no_unwind
{
    items.drain(..);
}

/// Everything that was on a belt, in one piece and in the order of the indices.
///
/// The elements belong to the slice, and are in the memory of the belt's fragment. Those that are
/// still in it when it is dropped are dropped with it, and the memory goes back to the fragment. For
/// as long as it lives the belt that it came from stays borrowed.
pub struct ConsumeSlice<'a, T> {
    items: Vec<T>,
    /// Where the memory belongs, as long as this slice is to give it back.
    home: Option<&'a mut Vec<T>>,
}

impl<'a, T> Drop for ConsumeSlice<'a, T> {
    fn drop(&mut self)
        ensures
            old(self).gives_back(final(self)),
            final(self).belongs() is Some <==> old(self).belongs() is Some,
            final(self).belongs() matches Some(home) ==> home@ == Seq::<T>::empty(),
            final(self)@ == match old(self).belongs() {
                Some(home) => home@,
                None => Seq::empty(),
            },
        opens_invariants none
        no_unwind
    {
        drop_all(&mut self.items);
        match &mut self.home {
            Some(home) => {
                std::mem::swap(&mut self.items, *home);
            },
            None => {},
        }
    }
}

impl<'a, T> View for ConsumeSlice<'a, T> {
    type V = Seq<T>;

    closed spec fn view(&self) -> Seq<T> {
        self.items@
    }
}

impl<'a, T> ConsumeSlice<'a, T> {
    /// Where the memory belongs, as long as this slice is to give it back.
    pub closed spec fn belongs(&self) -> Option<&'a mut Vec<T>> {
        self.home
    }

    /// Whether `after` is this slice with its elements dropped and its memory, now empty, given back in
    /// exchange for what was at home: that was nothing, unless something was put there meanwhile. A
    /// slice that has no memory to give back is just left empty.
    pub closed spec fn gives_back(&self, after: &Self) -> bool {
        match (self.home, after.home) {
            (Some(home), Some(home_after)) => {
                &&& home_after@ == Seq::<T>::empty()
                &&& after@ == home@
            },
            (None, None) => after@ == Seq::<T>::empty(),
            _ => false,
        }
    }

    /// When a slice is dropped its elements are gone: there is nothing in the memory that it gives back,
    /// and what is left in the slice is what was at home. Nothing is left if nothing was there.
    pub proof fn law_drop_leaves_nothing(&self, after: &Self)
        requires
            self.gives_back(after),
        ensures
            after.belongs() is Some <==> self.belongs() is Some,
            after.belongs() matches Some(home) ==> home@ == Seq::<T>::empty(),
            self.belongs() matches Some(home) ==> after@ == home@,
            self.belongs() is None ==> after@ == Seq::<T>::empty(),
    {
    }

    /// A slice of these elements, whose memory belongs to `home`.
    pub(crate) fn new(items: Vec<T>, home: &'a mut Vec<T>) -> (slice: Self)
        ensures
            slice@ == items@,
            slice.belongs() matches Some(at) && *at == *old(home) && *final(at) == *final(home),
    {
        ConsumeSlice { items, home: Some(home) }
    }
}

impl<'a, T> Deref for ConsumeSlice<'a, T> {
    type Target = [T];

    fn deref(&self) -> (items: &[T])
        ensures
            items@ == self@,
    {
        self.items.as_slice()
    }
}

impl<'a, T> DerefMut for ConsumeSlice<'a, T> {
    fn deref_mut(&mut self) -> (items: &mut [T])
        ensures
            items@ == old(self)@,
            final(items)@ == final(self)@,
            final(self).belongs() == old(self).belongs(),
    {
        self.items.as_mut_slice()
    }
}

/// Trusted: `VecDeque::from`, on a vector, keeps the vector's elements in order.
#[verifier::external_body]
fn deque_from_vec<T>(items: Vec<T>) -> (deque: VecDeque<T>)
    ensures
        deque@ == items@,
{
    VecDeque::from(items)
}

impl<'a, T> IntoIterator for ConsumeSlice<'a, T> {
    type Item = T;

    type IntoIter = ConsumeIter<'a, T>;

    fn into_iter(self) -> (iter: ConsumeIter<'a, T>)
        ensures
            iter@ == self@,
            iter.belongs() == self.belongs(),
            iter.has_memory(),
    {
        let mut slice = self;
        let mut items: Vec<T> = Vec::new();
        std::mem::swap(&mut items, &mut slice.items);
        ConsumeIter { items: Some(deque_from_vec(items)), home: slice.home.take() }
    }
}

impl<'a, T> IntoIterator for &'a ConsumeSlice<'a, T> {
    type Item = &'a T;

    type IntoIter = std::slice::Iter<'a, T>;

    fn into_iter(self) -> (iter: std::slice::Iter<'a, T>)
        ensures
            vstd::std_specs::iter::IteratorSpec::remaining(&iter) == self@.as_ref(),
    {
        self.items.as_slice().iter()
    }
}

/// `std::slice::IterMut`: mutable references to the elements of a slice, one after the other.
#[verifier::external_type_specification]
#[verifier::external_body]
#[verifier::reject_recursive_types(T)]
pub struct ExIterMut<'a, T: 'a>(std::slice::IterMut<'a, T>);

/// Trusted: the slice method `iter_mut` yields a mutable reference to each element, from the first
/// to the last, and the slice ends up with what is left behind each of them.
///
/// That an element stays as it is when its reference is never asked for is not said.
#[verifier::external_body]
fn slice_iter_mut<'a, T>(items: &'a mut [T]) -> (iter: std::slice::IterMut<'a, T>)
    ensures
        vstd::std_specs::iter::IteratorSpec::remaining(&iter).len() == old(items)@.len(),
        final(items)@.len() == old(items)@.len(),
        forall|i: int|
            0 <= i < old(items)@.len() ==> {
                let item = #[trigger] vstd::std_specs::iter::IteratorSpec::remaining(&iter)[i];
                *item == old(items)@[i] && *final(item) == final(items)@[i]
            },
{
    items.iter_mut()
}

impl<'a, T> IntoIterator for &'a mut ConsumeSlice<'a, T> {
    type Item = &'a mut T;

    type IntoIter = std::slice::IterMut<'a, T>;

    fn into_iter(self) -> (iter: std::slice::IterMut<'a, T>)
        ensures
            vstd::std_specs::iter::IteratorSpec::remaining(&iter).len() == old(self)@.len(),
            final(self)@.len() == old(self)@.len(),
            final(self).belongs() == old(self).belongs(),
            forall|i: int|
                0 <= i < old(self)@.len() ==> {
                    let item = #[trigger] vstd::std_specs::iter::IteratorSpec::remaining(&iter)[i];
                    *item == old(self)@[i] && *final(item) == final(self)@[i]
                },
    {
        slice_iter_mut(self.items.as_mut_slice())
    }
}

/// The elements of a [`ConsumeSlice`], handed out one by one from either end.
///
/// Those that are still to come when it is dropped are dropped with it, and the memory goes back to the
/// fragment that it belongs to.
pub struct ConsumeIter<'a, T> {
    /// The elements still to come. There is no deque once it has been turned back into a vector.
    items: Option<VecDeque<T>>,
    /// Where the memory belongs.
    home: Option<&'a mut Vec<T>>,
}

/// Trusted: `Vec::from`, on a deque, keeps the deque's elements in order, in the memory that they are
/// in. It does not unwind.
#[verifier::external_body]
fn vec_from_deque<T>(deque: VecDeque<T>) -> (items: Vec<T>)
    ensures
        items@ == deque@,
    opens_invariants none
    no_unwind
{
    Vec::from(deque)
}

impl<'a, T> Drop for ConsumeIter<'a, T> {
    fn drop(&mut self)
        ensures
            final(self).given_back(old(self)),
            final(self)@ == Seq::<T>::empty(),
            final(self).belongs() is Some <==> old(self).belongs() is Some,
            old(self).has_memory() ==> (final(self).belongs() matches Some(home) ==> home@
                == Seq::<T>::empty()),
        opens_invariants none
        no_unwind
    {
        let mut rest: Option<VecDeque<T>> = None;
        std::mem::swap(&mut rest, &mut self.items);
        match rest {
            Some(deque) => {
                let mut items = vec_from_deque(deque);
                drop_all(&mut items);
                match &mut self.home {
                    Some(home) => {
                        std::mem::swap(&mut items, *home);
                    },
                    None => {},
                }
            },
            None => {},
        }
    }
}

impl<'a, T> View for ConsumeIter<'a, T> {
    type V = Seq<T>;

    closed spec fn view(&self) -> Seq<T> {
        match self.items {
            Some(items) => items@,
            None => Seq::empty(),
        }
    }
}

impl<'a, T> ConsumeIter<'a, T> {
    /// Where the memory belongs.
    pub closed spec fn belongs(&self) -> Option<&'a mut Vec<T>> {
        self.home
    }

    /// Whether this iterator still has the memory that its elements are in.
    pub closed spec fn has_memory(&self) -> bool {
        self.items is Some
    }

    /// When an iterator is dropped its elements are gone: nothing is still to come, and there is nothing
    /// in the memory that it gives back.
    pub proof fn law_drop_leaves_nothing(&self, after: &Self)
        requires
            after.given_back(self),
        ensures
            after@ == Seq::<T>::empty(),
            after.belongs() is Some <==> self.belongs() is Some,
            self.has_memory() ==> (after.belongs() matches Some(home) ==> home@
                == Seq::<T>::empty()),
            !self.has_memory() ==> self@ == Seq::<T>::empty(),
    {
    }

    /// Whether this is `before` with its elements dropped and its memory, if it still had it, given
    /// back empty.
    pub closed spec fn given_back(&self, before: &Self) -> bool {
        &&& self@ == Seq::<T>::empty()
        &&& self.items is None
        &&& match (before.home, self.home) {
            (Some(home), Some(home_after)) => home_after@ == if before.items is Some {
                Seq::empty()
            } else {
                home@
            },
            (None, None) => true,
            _ => false,
        }
    }

    /// The number of elements still to come.
    pub fn slice_len(&self) -> (len: usize)
        ensures
            len == self@.len(),
    {
        match &self.items {
            Some(items) => items.len(),
            None => 0,
        }
    }
}

impl<'a, T> Iterator for ConsumeIter<'a, T> {
    type Item = T;

    fn next(&mut self) -> (item: Option<T>)
        ensures
            old(self)@.len() == 0 ==> item is None && final(self)@ == old(self)@,
            old(self)@.len() > 0 ==> item == Some(old(self)@.first()) && final(self)@ == old(
                self,
            )@.drop_first(),
            final(self).belongs() == old(self).belongs(),
            final(self).has_memory() == old(self).has_memory(),
    {
        if self.slice_len() == 0 {
            return None;
        }
        match &mut self.items {
            Some(items) => items.pop_front(),
            None => None,
        }
    }

    fn size_hint(&self) -> (hint: (usize, Option<usize>))
        ensures
            hint.0 == self@.len(),
            hint.1 == Some(hint.0),
    {
        let len: usize = self.slice_len();
        (len, Some(len))
    }
}

impl<'a, T> vstd::std_specs::iter::IteratorSpecImpl for ConsumeIter<'a, T> {
    open spec fn obeys_prophetic_iter_laws(&self) -> bool {
        true
    }

    open spec fn remaining(&self) -> Seq<T> {
        self@
    }

    open spec fn will_return_none(&self) -> bool {
        true
    }

    open spec fn decrease(&self) -> Option<nat> {
        Some(self@.len())
    }

    open spec fn initial_value_relation(&self, init: &Self) -> bool {
        self@ == init@
    }

    open spec fn peek(&self, index: int) -> Option<T> {
        if 0 <= index < self@.len() {
            Some(self@[index])
        } else {
            None
        }
    }
}

impl<'a, T> DoubleEndedIterator for ConsumeIter<'a, T> {
    fn next_back(&mut self) -> (item: Option<T>)
        ensures
            old(self)@.len() == 0 ==> item is None && final(self)@ == old(self)@,
            old(self)@.len() > 0 ==> item == Some(old(self)@.last()) && final(self)@ == old(
                self,
            )@.drop_last(),
            final(self).belongs() == old(self).belongs(),
            final(self).has_memory() == old(self).has_memory(),
    {
        if self.slice_len() == 0 {
            return None;
        }
        match &mut self.items {
            Some(items) => items.pop_back(),
            None => None,
        }
    }
}

impl<'a, T> vstd::std_specs::iter::DoubleEndedIteratorSpecImpl for ConsumeIter<'a, T> {
    open spec fn peek_back(&self, index: int) -> Option<T> {
        if 0 <= index < self@.len() {
            Some(self@[self@.len() - 1 - index])
        } else {
            None
        }
    }
}

impl<'a, T> ExactSizeIterator for ConsumeIter<'a, T> {
    fn len(&self) -> (len: usize)
        ensures
            len == self@.len(),
    {
        self.slice_len()
    }
}

} // verus!
