//! What can be appended to a belt.

use vstd::prelude::*;
use vstd::std_specs::iter::IteratorSpec;

verus! {

/// A batch of elements that can be moved onto a belt.
///
/// The two methods are the whole of it: how many elements there are, and the elements. What an
/// implementation promises of them is in its own `ensures`, and [`crate::VecBelt::append`] says
/// what it does in terms of that promise.
pub trait TransferBelt<T>: Sized {
    /// The number of elements that [`Self::transfer`] hands over.
    fn transfer_len(&self) -> (len: usize);

    /// Hands the elements over, in order. `len` is what [`Self::transfer_len`] has returned.
    fn transfer(self, len: usize) -> (batch: Vec<T>)
        requires
            call_ensures(Self::transfer_len, (&self,), len),
        ensures
            batch@.len() == len,
    ;
}

impl<T> TransferBelt<T> for Vec<T> {
    fn transfer_len(&self) -> (len: usize)
        ensures
            len == self@.len(),
    {
        self.len()
    }

    fn transfer(self, len: usize) -> (batch: Vec<T>)
        ensures
            batch@ == self@,
    {
        self
    }
}

impl<T> TransferBelt<T> for Box<[T]> {
    fn transfer_len(&self) -> (len: usize)
        ensures
            len == self@.len(),
    {
        (**self).len()
    }

    fn transfer(self, len: usize) -> (batch: Vec<T>)
        ensures
            batch@ == self@,
    {
        self.into_vec()
    }
}

/// Trusted: `Vec::from`, on an array, moves the array's elements into a new vector, in order.
#[verifier::external_body]
fn vec_from_array<T, const LEN: usize>(array: [T; LEN]) -> (items: Vec<T>)
    ensures
        items@ == array@,
{
    Vec::from(array)
}

impl<T, const LEN: usize> TransferBelt<T> for [T; LEN] {
    fn transfer_len(&self) -> (len: usize)
        ensures
            len == LEN,
    {
        LEN
    }

    fn transfer(self, len: usize) -> (batch: Vec<T>)
        ensures
            batch@ == self@,
    {
        vec_from_array(self)
    }
}

/// `std::array::IntoIter`: the elements of an array that are still to come.
#[verifier::external_type_specification]
#[verifier::external_body]
#[verifier::reject_recursive_types(T)]
pub struct ExArrayIntoIter<T, const LEN: usize>(std::array::IntoIter<T, LEN>);

/// Trusted: `std::array::IntoIter::as_slice` shows the elements that the iterator has yet to yield.
#[verifier::external_body]
fn array_rest<T, const LEN: usize>(iter: &std::array::IntoIter<T, LEN>) -> (rest: &[T])
    ensures
        rest@ == iter.remaining(),
{
    iter.as_slice()
}

/// Trusted: `Iterator::collect`, on an array's iterator, gathers the elements that it has yet to
/// yield into a vector, in order.
#[verifier::external_body]
fn collect_array_rest<T, const LEN: usize>(iter: std::array::IntoIter<T, LEN>) -> (items: Vec<T>)
    ensures
        items@ == iter.remaining(),
{
    iter.collect()
}

impl<T, const LEN: usize> TransferBelt<T> for std::array::IntoIter<T, LEN> {
    fn transfer_len(&self) -> (len: usize)
        ensures
            len == self.remaining().len(),
    {
        array_rest(self).len()
    }

    fn transfer(self, len: usize) -> (batch: Vec<T>)
        ensures
            batch@ == self.remaining(),
    {
        collect_array_rest(self)
    }
}

/// Trusted: `std::vec::IntoIter::as_slice` shows the elements that the iterator has yet to yield.
#[verifier::external_body]
fn vec_rest<T>(iter: &std::vec::IntoIter<T>) -> (rest: &[T])
    ensures
        rest@ == iter.remaining(),
{
    iter.as_slice()
}

/// The `len` elements that `iter` has yet to yield, in order.
fn collect_rest<I: Iterator>(iter: I, len: usize) -> (items: Vec<I::Item>)
    requires
        iter.obeys_prophetic_iter_laws(),
        iter.remaining().len() == len,
    ensures
        items@ == iter.remaining(),
{
    let mut items: Vec<I::Item> = Vec::with_capacity(len);
    let mut rest = iter;
    for i in 0..len
        invariant
            items@ + rest.remaining() == iter.remaining(),
            items@.len() == i,
            iter.remaining().len() == len,
            rest.obeys_prophetic_iter_laws(),
    {
        if let Some(item) = rest.next() {
            items.push(item);
        }
    }
    items
}

impl<T> TransferBelt<T> for std::vec::IntoIter<T> {
    fn transfer_len(&self) -> (len: usize)
        ensures
            len == self.remaining().len(),
    {
        vec_rest(self).len()
    }

    fn transfer(self, len: usize) -> (batch: Vec<T>)
        ensures
            batch@ == self.remaining(),
    {
        collect_rest(self, len)
    }
}

/// `std::vec::Drain`: the elements that are being drained from a vector and are still to come.
///
/// Verus does not take `Drain` itself, which has an allocator in its type, so a drain is made into a
/// batch by wrapping it. The vector is left with the rest when the drain is dropped. That is not said
/// here, since std leaves open what a drain leaves behind that never is: [`drain_batch`] says it of a
/// range that is drained at once.
#[verifier::external_body]
#[verifier::reject_recursive_types(T)]
pub struct Drained<'a, T>(pub std::vec::Drain<'a, T>);

impl<'a, T> Iterator for Drained<'a, T> {
    type Item = T;

    /// Trusted: `std::vec::Drain::next` hands out the first of the elements still to come, if there is
    /// one. The contract is that of `Iterator::next`.
    #[verifier::external_body]
    fn next(&mut self) -> (item: Option<T>) {
        self.0.next()
    }
}

/// Trusted: `std::vec::Drain::as_slice` shows the elements that are still to come.
#[verifier::external_body]
fn drained_rest<'b, 'a, T>(drained: &'b Drained<'a, T>) -> (rest: &'b [T])
    ensures
        rest@ == drained.remaining(),
{
    drained.0.as_slice()
}

/// Trusted: `Iterator::collect`, on a vector's drain, gathers the elements that are still to come
/// into a vector, in order.
#[verifier::external_body]
fn collect_drained<'a, T>(drained: Drained<'a, T>) -> (items: Vec<T>)
    ensures
        items@ == drained.remaining(),
{
    drained.0.collect()
}

impl<'a, T> TransferBelt<T> for Drained<'a, T> {
    fn transfer_len(&self) -> (len: usize)
        ensures
            len == self.remaining().len(),
    {
        drained_rest(self).len()
    }

    fn transfer(self, len: usize) -> (batch: Vec<T>)
        ensures
            batch@ == self.remaining(),
    {
        collect_drained(self)
    }
}

/// Drains the elements of `items` from index `start` up to `end`, as a batch. The vector keeps what
/// lies before and behind them.
pub fn drain_batch<T>(items: &mut Vec<T>, start: usize, end: usize) -> (batch: Vec<T>)
    requires
        start <= end <= old(items)@.len(),
    ensures
        batch@ == old(items)@.subrange(start as int, end as int),
        final(items)@ == old(items)@.subrange(0, start as int) + old(items)@.subrange(
            end as int,
            old(items)@.len() as int,
        ),
{
    let mut behind = items.split_off(end);
    let batch = items.split_off(start);
    items.append(&mut behind);
    batch
}

/// The elements of `items`, copied in order.
fn copy_items<T: Copy>(items: &[T]) -> (batch: Vec<T>)
    ensures
        batch@ == items@,
{
    let len: usize = items.len();
    let mut batch: Vec<T> = Vec::with_capacity(len);
    for i in 0..len
        invariant
            len == items@.len(),
            batch@ == items@.take(i as int),
    {
        batch.push(items[i]);
    }
    batch
}

impl<'a, T: Copy> TransferBelt<T> for &'a [T] {
    fn transfer_len(&self) -> (len: usize)
        ensures
            len == self@.len(),
    {
        (**self).len()
    }

    fn transfer(self, len: usize) -> (batch: Vec<T>)
        ensures
            batch@ == self@,
    {
        copy_items(self)
    }
}

/// Trusted: `std::slice::Iter::as_slice` shows the elements that the iterator has yet to yield.
#[verifier::external_body]
fn slice_rest<'a, T>(iter: &std::slice::Iter<'a, T>) -> (rest: &'a [T])
    ensures
        rest@ == iter.remaining().unref(),
{
    iter.as_slice()
}

impl<'a, T: Copy> TransferBelt<T> for std::slice::Iter<'a, T> {
    fn transfer_len(&self) -> (len: usize)
        ensures
            len == self.remaining().len(),
    {
        slice_rest(self).len()
    }

    fn transfer(self, len: usize) -> (batch: Vec<T>)
        ensures
            batch@ == self.remaining().unref(),
    {
        copy_items(slice_rest(&self))
    }
}

} // verus!
