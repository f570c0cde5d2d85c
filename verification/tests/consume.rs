use std::cell::Cell;
use vec_belt::VecBelt;

/// Counts how often it is dropped.
struct Counted<'a>(&'a Cell<usize>);

impl<'a> Drop for Counted<'a> {
    fn drop(&mut self) {
        self.0.set(self.0.get() + 1);
    }
}

fn counted(drops: &Cell<usize>, n: usize) -> Vec<Counted<'_>> {
    (0..n).map(|_| Counted(drops)).collect()
}

#[test]
fn slices_read_and_write() {
    let mut belt = VecBelt::new(2);
    belt.append([1, 2, 3]);
    belt.append([4]);
    belt.clear(|mut slice| {
        assert_eq!(slice.first(), Some(&1));
        slice[0] = 10;
        slice.reverse();
        assert_eq!(&slice[..], [4, 3, 2, 10]);
        let taken: Vec<i32> = slice.into_iter().collect();
        assert_eq!(taken, [4, 3, 2, 10]);
    });
}

#[test]
fn slices_can_be_walked() {
    let mut belt = VecBelt::new(1);
    belt.append([1, 2, 3]);
    belt.clear(|slice| {
        let mut sum = 0;
        for item in &slice {
            sum += item;
        }
        assert_eq!(sum, 6);
    });
}

#[test]
fn slices_can_be_changed_on_the_way() {
    let mut belt = VecBelt::new(1);
    belt.append([1, 2, 3]);
    // The loop borrows the slice for as long as the belt is borrowed, so the slice is not dropped.
    let slice = Box::leak(Box::new(belt.clear(|slice| slice)));
    let mut seen = Vec::new();
    for item in slice {
        *item *= 2;
        seen.push(*item);
    }
    assert_eq!(seen, [2, 4, 6]);
}

#[test]
fn iterators_hand_out_from_both_ends() {
    let mut belt = VecBelt::new(4);
    belt.append([1, 2, 3, 4, 5]);
    belt.clear(|slice| {
        let mut iter = slice.into_iter();
        assert_eq!(iter.slice_len(), 5);
        assert_eq!(iter.size_hint(), (5, Some(5)));
        assert_eq!(iter.next(), Some(1));
        assert_eq!(iter.next_back(), Some(5));
        assert_eq!(iter.next_back(), Some(4));
        assert_eq!(iter.len(), 2);
        assert_eq!(iter.next(), Some(2));
        assert_eq!(iter.next(), Some(3));
        assert_eq!(iter.next(), None);
        assert_eq!(iter.next_back(), None);
        assert_eq!(iter.slice_len(), 0);
        assert_eq!(iter.size_hint(), (0, Some(0)));
    });
}

#[test]
fn iterators_can_be_reversed() {
    let mut belt = VecBelt::new(4);
    belt.append(['x', 'y', 'z']);
    let text: String = belt.clear(|slice| slice.into_iter().rev().collect());
    assert_eq!(text, "zyx");
}

#[test]
fn a_belt_drops_what_is_on_it() {
    let drops = Cell::new(0);
    let mut belt = VecBelt::new(1);
    for n in 0..6 {
        belt.append(counted(&drops, n));
    }
    assert_eq!(drops.get(), 0);
    drop(belt);
    assert_eq!(drops.get(), 15);
}

#[test]
fn a_slice_drops_what_is_in_it() {
    let drops = Cell::new(0);
    let mut belt = VecBelt::new(1);
    belt.append(counted(&drops, 2));
    belt.append(counted(&drops, 5));
    belt.clear(|slice| {
        assert_eq!(slice.len(), 7);
        assert_eq!(drops.get(), 0);
    });
    assert_eq!(drops.get(), 7);
    drop(belt);
    assert_eq!(drops.get(), 7);
}

#[test]
fn an_iterator_drops_what_is_still_to_come() {
    let drops = Cell::new(0);
    let mut belt = VecBelt::new(10);
    belt.append(counted(&drops, 6));
    let kept = belt.clear(|slice| {
        let mut iter = slice.into_iter();
        let kept = (iter.next(), iter.next_back());
        assert_eq!(drops.get(), 0);
        kept
    });
    assert_eq!(drops.get(), 4);
    drop(kept);
    assert_eq!(drops.get(), 6);
}

/// Where the elements are that a clear hands out.
fn place(belt: &mut VecBelt<u64>) -> usize {
    belt.clear(|slice| slice.as_ptr() as usize)
}

#[test]
fn memory_goes_back_to_the_belt() {
    let mut belt = VecBelt::new(8);
    belt.append([1, 2, 3]);
    let there = place(&mut belt);
    belt.append([4, 5]);
    belt.append([6, 7, 8, 9, 10, 11]);
    assert_eq!(place(&mut belt), there);
    belt.append([12; 8]);
    assert_eq!(belt.clear(|slice| slice.into_iter().rev().count()), 8);
    belt.append([13; 8]);
    belt.clear(|slice| {
        let mut iter = slice.into_iter();
        assert_eq!(iter.next(), Some(13));
        assert_eq!(iter.next_back(), Some(13));
    });
    belt.append([14]);
    assert_eq!(place(&mut belt), there);
}

#[test]
fn merged_memory_is_used_again() {
    let mut belt = VecBelt::new(1);
    belt.append([1, 2, 3]);
    belt.append([4, 5, 6, 7]);
    let there = place(&mut belt);
    belt.append([8, 9]);
    belt.append([10, 11, 12, 13, 14]);
    assert_eq!(place(&mut belt), there);
}
