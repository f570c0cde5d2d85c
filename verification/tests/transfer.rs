use vec_belt::{drain_batch, Drained, TransferBelt, VecBelt};

fn items<T>(belt: &mut VecBelt<T>) -> Vec<T> {
    belt.clear(|slice| slice.into_iter().collect())
}

#[test]
fn vectors() {
    let mut belt = VecBelt::new(1);
    assert_eq!(vec![1, 2].transfer_len(), 2);
    belt.append(vec![1, 2]);
    assert_eq!(items(&mut belt), [1, 2]);
}

#[test]
fn boxed_slices() {
    let mut belt = VecBelt::new(1);
    let boxed: Box<[String]> = vec!["a".to_string(), "b".to_string()].into_boxed_slice();
    assert_eq!(boxed.transfer_len(), 2);
    assert_eq!(belt.append(boxed), 0);
    assert_eq!(items(&mut belt), ["a", "b"]);
}

#[test]
fn arrays() {
    let mut belt = VecBelt::new(1);
    assert_eq!(TransferBelt::<u8>::transfer_len(&[4u8, 5, 6]), 3);
    belt.append([4u8, 5, 6]);
    assert_eq!(items(&mut belt), [4, 5, 6]);
}

#[test]
fn array_iterators() {
    let mut belt = VecBelt::new(1);
    assert_eq!(belt.append([1, 2, 3, 4].into_iter()), 0);
    let mut advanced = [5, 6, 7, 8].into_iter();
    assert_eq!(advanced.next(), Some(5));
    assert_eq!(advanced.next_back(), Some(8));
    assert_eq!(advanced.transfer_len(), 2);
    assert_eq!(belt.append(advanced), 4);
    assert_eq!(items(&mut belt), [1, 2, 3, 4, 6, 7]);
}

#[test]
fn vector_iterators() {
    let mut belt = VecBelt::new(1);
    assert_eq!(belt.append(vec![1, 2, 3].into_iter()), 0);
    let mut advanced = vec![5, 6, 7, 8].into_iter();
    assert_eq!(advanced.next(), Some(5));
    assert_eq!(advanced.next_back(), Some(8));
    assert_eq!(advanced.transfer_len(), 2);
    assert_eq!(belt.append(advanced), 3);
    assert_eq!(items(&mut belt), [1, 2, 3, 6, 7]);
}

#[test]
fn slices() {
    let mut belt = VecBelt::new(1);
    let array = [3, 1, 4, 1, 5];
    assert_eq!(belt.append(&array[1..4]), 0);
    assert_eq!(TransferBelt::<i32>::transfer_len(&&array[..0]), 0);
    assert_eq!(belt.append(&array[..0]), 3);
    assert_eq!(belt.append(&array[4..]), 3);
    assert_eq!(items(&mut belt), [1, 4, 1, 5]);
}

#[test]
fn slice_iterators() {
    let mut belt = VecBelt::new(1);
    let array = [3, 1, 4, 1, 5];
    let mut advanced = array.iter();
    assert_eq!(advanced.next(), Some(&3));
    assert_eq!(advanced.next_back(), Some(&5));
    assert_eq!(advanced.transfer_len(), 3);
    assert_eq!(belt.append(advanced), 0);
    assert_eq!(belt.append(array.iter()), 3);
    assert_eq!(items(&mut belt), [1, 4, 1, 3, 1, 4, 1, 5]);
}

#[test]
fn drains() {
    let mut belt = VecBelt::new(1);
    let mut from = vec!["a".to_string(), "b".to_string(), "c".to_string(), "d".to_string()];
    assert_eq!(belt.append(Drained(from.drain(1..3))), 0);
    assert_eq!(from, ["a", "d"]);
    let mut rest = Drained(from.drain(..));
    assert_eq!(rest.next(), Some("a".to_string()));
    assert_eq!(rest.transfer_len(), 1);
    assert_eq!(belt.append(rest), 2);
    assert!(from.is_empty());
    assert_eq!(belt.append(Drained(from.drain(..))), 3);
    assert_eq!(items(&mut belt), ["b", "c", "d"]);
}

/// What a belt holds, and where a batch begins, once the batch is appended to it.
fn appended<B: TransferBelt<u32>>(batch: B) -> (usize, usize, Vec<u32>) {
    let mut belt = VecBelt::new(1);
    belt.append([9]);
    let index = belt.append(batch);
    (index, belt.len(), items(&mut belt))
}

#[test]
fn all_batches_come_to_the_same() {
    let array = [3, 1, 2];
    let expected = (1, 4, vec![9, 3, 1, 2]);
    assert_eq!(appended(array), expected);
    assert_eq!(appended(array.into_iter()), expected);
    assert_eq!(appended(Box::<[u32]>::from(array)), expected);
    assert_eq!(appended(array.to_vec()), expected);
    assert_eq!(appended(array.to_vec().into_iter()), expected);
    assert_eq!(appended(Drained(array.to_vec().drain(..))), expected);
    assert_eq!(appended(&array[..]), expected);
    assert_eq!(appended(array.iter()), expected);
}

#[test]
fn drained_ranges() {
    let mut from = vec![1, 2, 3, 4, 5];
    assert_eq!(drain_batch(&mut from, 1, 4), [2, 3, 4]);
    assert_eq!(from, [1, 5]);
    assert_eq!(drain_batch(&mut from, 1, 1), []);
    assert_eq!(drain_batch(&mut from, 0, 2), [1, 5]);
    assert!(from.is_empty());
}
