//! The fragments that a belt is made of, and the memory that one of them takes up.

use std::mem::{align_of, size_of};
use vstd::arithmetic::div_mod::{
    lemma_fundamental_div_mod, lemma_mod_bound, lemma_mod_multiples_basic,
};
use vstd::prelude::*;

verus! {

/// `n` rounded up to a multiple of `align`.
pub open spec fn round_up(n: int, align: int) -> int {
    if n % align == 0 {
        n
    } else {
        n - n % align + align
    }
}

/// Rounding up adds less than `align`.
pub proof fn lemma_round_up(n: int, align: int)
    requires
        align > 0,
    ensures
        n <= round_up(n, align) < n + align,
{
    lemma_mod_bound(n, align);
}

/// Rounding up gives a multiple of `align`, and leaves a multiple as it is.
pub proof fn lemma_round_up_multiple(n: int, align: int)
    requires
        align > 0,
    ensures
        round_up(n, align) % align == 0,
        round_up(round_up(n, align), align) == round_up(n, align),
{
    if n % align != 0 {
        lemma_fundamental_div_mod(n, align);
        let k = n / align;
        assert(n - n % align + align == (k + 1) * align) by (nonlinear_arith)
            requires
                n == align * k + n % align,
        ;
        lemma_mod_multiples_basic(k + 1, align);
    }
}

/// Rounding up keeps the order of two numbers.
pub proof fn lemma_round_up_monotone(m: int, n: int, align: int)
    requires
        align > 0,
        m <= n,
    ensures
        round_up(m, align) <= round_up(n, align),
{
    lemma_round_up(m, align);
    lemma_round_up(n, align);
    lemma_round_up_multiple(m, align);
    lemma_round_up_multiple(n, align);
    let p = round_up(m, align);
    let q = round_up(n, align);
    if p > q {
        lemma_fundamental_div_mod(p, align);
        lemma_fundamental_div_mod(q, align);
        let i = p / align;
        let j = q / align;
        assert(p >= q + align) by (nonlinear_arith)
            requires
                p == align * i,
                q == align * j,
                p > q,
                align > 0,
        ;
    }
}

/// A multiple of `align` stays one when it is multiplied.
proof fn lemma_multiple(size: int, len: int, align: int)
    requires
        align > 0,
        size % align == 0,
    ensures
        (size * len) % align == 0,
{
    lemma_fundamental_div_mod(size, align);
    let k = size / align;
    assert(size * len == (k * len) * align) by (nonlinear_arith)
        requires
            size == align * k,
    ;
    lemma_mod_multiples_basic(k * len, align);
}

/// `n` rounded up to a multiple of `align`, unless that is more than a `usize` holds.
fn checked_round_up(n: usize, align: usize) -> (r: Option<usize>)
    requires
        align > 0,
    ensures
        r is None <==> round_up(n as int, align as int) > usize::MAX,
        r matches Some(m) ==> m == round_up(n as int, align as int),
{
    let over: usize = n % align;
    if over == 0 {
        Some(n)
    } else {
        n.checked_add(align - over)
    }
}

/// The size and the alignment of a piece of memory.
#[derive(Clone, Copy, Debug, PartialEq, Eq)]
pub struct Layout {
    pub size: usize,
    pub align: usize,
}

/// No piece of memory can be so large.
#[derive(Clone, Copy, Debug, PartialEq, Eq)]
pub struct LayoutError;

impl Layout {
    /// A layout is valid when its size, padded to its alignment, is at most `isize::MAX`.
    pub open spec fn valid(self) -> bool {
        &&& self.align > 0
        &&& round_up(self.size as int, self.align as int) <= isize::MAX
    }

    /// The layout of a value of type `V`.
    pub fn of<V>() -> (layout: Layout)
        ensures
            layout.valid(),
            layout.size == vstd::layout::size_of::<V>(),
            layout.align == vstd::layout::align_of::<V>(),
    {
        vstd::layout::layout_for_type_is_valid::<V>();
        Layout { size: size_of::<V>(), align: align_of::<V>() }
    }

    /// The layout of `len` values of type `V` side by side.
    pub fn array<V>(len: usize) -> (r: Result<Layout, LayoutError>)
        ensures
            r is Ok <==> vstd::layout::size_of::<V>() * len <= isize::MAX,
            r matches Ok(layout) ==> {
                &&& layout.valid()
                &&& layout.size == vstd::layout::size_of::<V>() * len
                &&& layout.align == vstd::layout::align_of::<V>()
            },
    {
        let item = Layout::of::<V>();
        proof {
            lemma_multiple(item.size as int, len as int, item.align as int);
        }
        match item.size.checked_mul(len) {
            Some(size) => {
                if size <= isize::MAX as usize {
                    Ok(Layout { size, align: item.align })
                } else {
                    Err(LayoutError)
                }
            },
            None => Err(LayoutError),
        }
    }

    /// The layout of a `self` followed by a `next`, which is aligned, and the offset of the `next`.
    ///
    /// There is no padding behind the `next`.
    pub fn extend(self, next: Layout) -> (r: Result<(Layout, usize), LayoutError>)
        requires
            self.valid(),
            next.valid(),
        ensures
            ({
                let offset = round_up(self.size as int, next.align as int);
                let align = if self.align > next.align {
                    self.align
                } else {
                    next.align
                };
                &&& r is Ok <==> round_up(offset + next.size, align as int) <= isize::MAX
                &&& r matches Ok((layout, at)) ==> {
                    &&& layout.valid()
                    &&& layout.size == offset + next.size
                    &&& layout.align == align
                    &&& at == offset
                }
            }),
    {
        let align: usize = if self.align > next.align {
            self.align
        } else {
            next.align
        };
        proof {
            let offset = round_up(self.size as int, next.align as int);
            lemma_round_up(offset + next.size, align as int);
        }
        match checked_round_up(self.size, next.align) {
            Some(offset) => match offset.checked_add(next.size) {
                Some(size) => match checked_round_up(size, align) {
                    Some(padded) if padded <= isize::MAX as usize => {
                        Ok((Layout { size, align }, offset))
                    },
                    _ => Err(LayoutError),
                },
                None => Err(LayoutError),
            },
            None => Err(LayoutError),
        }
    }

    /// The layout with its size padded to a multiple of its alignment.
    pub fn pad_to_align(self) -> (layout: Layout)
        requires
            self.valid(),
        ensures
            layout.valid(),
            layout.size == round_up(self.size as int, self.align as int),
            layout.align == self.align,
    {
        proof {
            lemma_round_up_multiple(self.size as int, self.align as int);
        }
        let over: usize = self.size % self.align;
        if over == 0 {
            self
        } else {
            Layout { size: self.size + (self.align - over), align: self.align }
        }
    }
}

/// Where the slots of a fragment begin: behind the link to the next fragment, which is an address
/// and a count, and behind the number of slots taken, at the first place that is aligned.
pub open spec fn slots_offset<T>() -> int {
    round_up((3 * vstd::layout::size_of::<usize>()) as int, vstd::layout::align_of::<T>() as int)
}

/// The alignment of a fragment: that of its header or that of its slots, whichever is greater.
pub open spec fn block_align<T>() -> int {
    if vstd::layout::align_of::<usize>() > vstd::layout::align_of::<T>() {
        vstd::layout::align_of::<usize>() as int
    } else {
        vstd::layout::align_of::<T>() as int
    }
}

/// The memory that a fragment of `capacity` slots takes up, header and padding included.
pub open spec fn block_size<T>(capacity: int) -> int {
    round_up(slots_offset::<T>() + vstd::layout::size_of::<T>() * capacity, block_align::<T>())
}

/// Whether there can be a fragment of `capacity` slots.
pub open spec fn layout_ok<T>(capacity: int) -> bool {
    block_size::<T>(capacity) <= isize::MAX
}

/// If there can be a fragment of so many slots, then there can be one of fewer.
pub proof fn law_layout_monotone<T>(fewer: int, capacity: int)
    requires
        fewer <= capacity,
        layout_ok::<T>(capacity),
    ensures
        block_size::<T>(fewer) <= block_size::<T>(capacity),
        layout_ok::<T>(fewer),
{
    broadcast use vstd::layout::align_nonzero;

    let size = vstd::layout::size_of::<T>();
    assert(size * fewer <= size * capacity) by (nonlinear_arith)
        requires
            fewer <= capacity,
    ;
    lemma_round_up_monotone(
        slots_offset::<T>() + size * fewer,
        slots_offset::<T>() + size * capacity,
        block_align::<T>(),
    );
}

/// There can be a fragment of `capacity` slots whenever the slots, and four words and two slots
/// besides, come to no more than `isize::MAX`. An empty type may have any alignment and is left out.
pub proof fn law_layout_enough<T>(capacity: int)
    requires
        vstd::layout::size_of::<T>() > 0,
        capacity >= 0,
        4 * vstd::layout::size_of::<usize>() + vstd::layout::size_of::<T>() * (capacity + 2)
            <= isize::MAX,
    ensures
        layout_ok::<T>(capacity),
{
    broadcast use {
        vstd::layout::align_nonzero,
        vstd::layout::align_properties,
        vstd::layout::layout_of_primitives,
    };

    let word = vstd::layout::size_of::<usize>() as int;
    let word_align = vstd::layout::align_of::<usize>() as int;
    let size = vstd::layout::size_of::<T>() as int;
    let align = vstd::layout::align_of::<T>() as int;
    lemma_align_at_most_size(word, word_align);
    lemma_align_at_most_size(size, align);
    lemma_round_up(3 * word, align);
    lemma_round_up(slots_offset::<T>() + size * capacity, block_align::<T>());
    assert(size * (capacity + 2) == size * capacity + 2 * size) by (nonlinear_arith);
}

/// How a fragment lies in memory. Its slots begin behind three words, at the first place that is
/// aligned. It ends behind its slots, at the first place that is aligned for both the slots and the
/// words. And there can be such a fragment if and only if it is no larger than `isize::MAX`.
pub proof fn law_block_layout<T>(capacity: int)
    ensures
        slots_offset::<T>() % (vstd::layout::align_of::<T>() as int) == 0,
        3 * vstd::layout::size_of::<usize>() <= slots_offset::<T>(),
        slots_offset::<T>() < 3 * vstd::layout::size_of::<usize>() + vstd::layout::align_of::<T>(),
        block_align::<T>() >= vstd::layout::align_of::<T>(),
        block_align::<T>() >= vstd::layout::align_of::<usize>(),
        block_align::<T>() == vstd::layout::align_of::<T>() || block_align::<T>()
            == vstd::layout::align_of::<usize>(),
        block_size::<T>(capacity) % block_align::<T>() == 0,
        slots_offset::<T>() + vstd::layout::size_of::<T>() * capacity <= block_size::<T>(capacity),
        block_size::<T>(capacity) < slots_offset::<T>() + vstd::layout::size_of::<T>() * capacity
            + block_align::<T>(),
        layout_ok::<T>(capacity) <==> block_size::<T>(capacity) <= isize::MAX,
{
    broadcast use vstd::layout::align_nonzero;

    let start = 3 * vstd::layout::size_of::<usize>() as int;
    let end = slots_offset::<T>() + vstd::layout::size_of::<T>() * capacity;
    lemma_round_up(start, vstd::layout::align_of::<T>() as int);
    lemma_round_up_multiple(start, vstd::layout::align_of::<T>() as int);
    lemma_round_up(end, block_align::<T>());
    lemma_round_up_multiple(end, block_align::<T>());
}

/// There is a fragment of `capacity` slots only if three words and the slots come to no more than
/// `isize::MAX`.
pub proof fn law_layout_needed<T>(capacity: int)
    requires
        layout_ok::<T>(capacity),
    ensures
        3 * vstd::layout::size_of::<usize>() + vstd::layout::size_of::<T>() * capacity
            <= isize::MAX,
{
    law_block_layout::<T>(capacity);
}

/// Elements without a size need no slots: if there can be a fragment for some number of them, then there
/// can be one for any number.
pub proof fn law_layout_without_size<T>(capacity: int, other: int)
    requires
        vstd::layout::size_of::<T>() == 0,
        layout_ok::<T>(capacity),
    ensures
        layout_ok::<T>(other),
{
    let size = vstd::layout::size_of::<T>() as int;
    assert(size * capacity == 0 && size * other == 0) by (nonlinear_arith)
        requires
            size == 0,
    ;
}

/// A multiple of `align` that is not zero is no less than `align`.
proof fn lemma_align_at_most_size(size: int, align: int)
    requires
        size > 0,
        align > 0,
        size % align == 0,
    ensures
        align <= size,
{
    if size < align {
        vstd::arithmetic::div_mod::lemma_small_mod(size as nat, align as nat);
    }
}

/// A piece of a belt: so many slots, of which the first ones are taken.
pub struct Fragment<T> {
    /// The number of slots.
    capacity: usize,
    /// The number of slots that are taken.
    taken: usize,
    /// The memory, with the elements in it. While it is lent out nothing in it counts.
    data: Vec<T>,
}

impl<T> View for Fragment<T> {
    type V = Seq<T>;

    /// The elements in the slots that are taken.
    closed spec fn view(&self) -> Seq<T> {
        self.data@.take(self.taken as int)
    }
}

impl<T> Fragment<T> {
    /// The number of slots.
    pub closed spec fn slots(&self) -> nat {
        self.capacity as nat
    }

    /// The memory of the slots, with what is in it.
    pub closed spec fn memory(&self) -> Vec<T> {
        self.data
    }

    /// The slots that are taken have elements in them.
    pub closed spec fn intact(&self) -> bool {
        self.taken <= self.data@.len()
    }

    /// No more elements than slots, and no more slots than memory can hold.
    pub open spec fn wf(&self) -> bool {
        &&& self.intact()
        &&& self@.len() <= self.slots()
        &&& layout_ok::<T>(self.slots() as int)
    }

    /// The layout of a fragment with `capacity` slots.
    pub fn layout(capacity: usize) -> (r: Result<Layout, LayoutError>)
        ensures
            r is Ok <==> layout_ok::<T>(capacity as int),
            r matches Ok(layout) ==> {
                &&& layout.size == block_size::<T>(capacity as int)
                &&& layout.align == block_align::<T>()
            },
    {
        vstd::layout::layout_for_type_is_valid::<usize>();
        vstd::layout::layout_for_type_is_valid::<T>();
        proof {
            broadcast use vstd::layout::layout_of_primitives;

            let word = vstd::layout::size_of::<usize>() as int;
            let word_align = vstd::layout::align_of::<usize>() as int;
            lemma_multiple(word, 2, word_align);
            lemma_multiple(word, 3, word_align);
            let slots = vstd::layout::size_of::<T>() * capacity;
            lemma_round_up(3 * word, vstd::layout::align_of::<T>() as int);
            lemma_round_up(slots_offset::<T>() + slots, block_align::<T>());
            assert(slots >= 0) by (nonlinear_arith)
                requires
                    slots == vstd::layout::size_of::<T>() * capacity,
            ;
        }
        let (header, _) = Layout::array::<usize>(2)?.extend(Layout::of::<usize>())?;
        let (block, _) = header.extend(Layout::array::<T>(capacity)?)?;
        Ok(block.pad_to_align())
    }

    /// A fragment of `capacity` slots, none of them taken.
    pub fn new(capacity: usize) -> (r: Result<Self, LayoutError>)
        ensures
            r is Ok <==> layout_ok::<T>(capacity as int),
            r matches Ok(fragment) ==> {
                &&& fragment.wf()
                &&& fragment.slots() == capacity
                &&& fragment@ == Seq::<T>::empty()
            },
    {
        Self::layout(capacity)?;
        Ok(Fragment { capacity, taken: 0, data: Vec::with_capacity(capacity) })
    }

    /// A fragment without slots.
    pub(crate) fn empty() -> (fragment: Self)
        ensures
            fragment.slots() == 0,
            fragment@ == Seq::<T>::empty(),
    {
        Fragment { capacity: 0, taken: 0, data: Vec::new() }
    }

    /// The number of slots.
    pub fn capacity(&self) -> (capacity: usize)
        ensures
            capacity == self.slots(),
    {
        self.capacity
    }

    /// Takes the slots behind those that are taken for the elements of `batch`, in order.
    pub fn fill(&mut self, batch: Vec<T>)
        requires
            old(self).wf(),
            old(self)@.len() + batch@.len() <= old(self).slots(),
        ensures
            final(self).wf(),
            final(self).slots() == old(self).slots(),
            final(self)@ == old(self)@ + batch@,
    {
        let mut batch = batch;
        self.data.truncate(self.taken);
        self.data.reserve(self.capacity - self.taken);
        self.data.append(&mut batch);
        self.taken = self.data.len();
    }

    /// Takes the elements out, with the memory that they are in, and leaves the slots.
    pub fn take(&mut self) -> (items: Vec<T>)
        requires
            old(self).wf(),
        ensures
            final(self).wf(),
            final(self).slots() == old(self).slots(),
            final(self)@ == Seq::<T>::empty(),
            final(self).memory()@ == Seq::<T>::empty(),
            items@ == old(self)@,
    {
        let mut items: Vec<T> = Vec::new();
        self.data.truncate(self.taken);
        std::mem::swap(&mut items, &mut self.data);
        self.taken = 0;
        items
    }

    /// Takes the elements out, with the memory that they are in, and leaves the slots. The memory can
    /// be given back: the reference is to where it belongs.
    ///
    /// Whatever is put there, the slots stay free.
    pub fn lend(&mut self) -> (lent: (Vec<T>, &mut Vec<T>))
        requires
            old(self).wf(),
        ensures
            final(self).wf(),
            final(self).slots() == old(self).slots(),
            final(self)@ == Seq::<T>::empty(),
            lent.0@ == old(self)@,
            lent.1@ == Seq::<T>::empty(),
            final(self).memory() == *final(lent.1),
    {
        let items = self.take();
        (items, &mut self.data)
    }
}

} // verus!
