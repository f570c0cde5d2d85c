use vec_belt::{BeltError, VecBelt};

#[derive(Debug, PartialEq)]
struct Int(usize);

impl Drop for Int {
    fn drop(&mut self) {
        println!("Dropped {}", self.0);
    }
}

#[test]
fn test_vec_belt() {
    let append = [0, 1, 2, 3, 4];
    let thread_count = 8;

    // The appends arrive in whatever order.
    let mut vec = VecBelt::new(1);
    for i in [5, 2, 7, 0, 3, 6, 1, 4] {
        vec.append(append.map(|num| Int(num + i * append.len())));
    }

    vec.clear(|slice| {
        assert_eq!(slice.len(), append.len() * thread_count);
        for i in 0..thread_count {
            let slice = &slice[i * append.len()..(i + 1) * append.len()];
            for (j, num) in slice.iter().enumerate() {
                assert_eq!(num.0, append[j] + slice[0].0);
            }
        }
    })
}

#[test]
fn a_new_belt_is_empty() {
    let mut belt = VecBelt::<u64>::new(4);
    assert_eq!(belt.len(), 0);
    assert_eq!(belt.len_mut(), 0);
    assert!(belt.clear(|slice| slice.is_empty()));
}

#[test]
fn appends_return_where_their_batch_begins() {
    let mut belt = VecBelt::new(0);
    assert_eq!(belt.append(vec!['a', 'b', 'c']), 0);
    assert_eq!(belt.append(Vec::new()), 3);
    assert_eq!(belt.append(['d']), 3);
    assert_eq!(belt.append(['e', 'f']), 4);
    assert_eq!(belt.len(), 6);
    assert_eq!(belt.len_mut(), 6);
    let text: String = belt.clear(|slice| slice.into_iter().collect());
    assert_eq!(text, "abcdef");
    assert_eq!(belt.len(), 0);
}

#[test]
fn everything_comes_back_in_order_from_many_fragments() {
    let mut belt = VecBelt::new(1);
    let mut expected: Vec<u32> = Vec::new();
    for n in 0..50u32 {
        let batch: Vec<u32> = (0..n % 7).map(|k| n * 10 + k).collect();
        let index = belt.append(batch.clone());
        assert_eq!(index, expected.len());
        expected.extend(batch);
    }
    assert_eq!(belt.len(), expected.len());
    belt.clear(|slice| assert_eq!(&slice[..], &expected[..]));
}

#[test]
fn each_batch_stands_at_its_index() {
    let mut belt = VecBelt::new(2);
    let batches = [vec![1, 2, 3], vec![4], vec![5, 6, 7, 8], vec![9, 10]];
    let indices: Vec<usize> = batches.iter().map(|b| belt.append(b.clone())).collect();
    assert_eq!(indices, [0, 3, 4, 8]);
    belt.clear(|slice| {
        for (batch, index) in batches.iter().zip(indices) {
            assert_eq!(&slice[index..index + batch.len()], &batch[..]);
        }
    });
}

#[test]
fn a_cleared_belt_starts_over() {
    let mut belt = VecBelt::new(1);
    for round in 0..5u64 {
        for i in 0..10 {
            assert_eq!(belt.append([round, i]), 2 * i as usize);
        }
        let sum: u64 = belt.clear(|slice| slice.into_iter().sum());
        assert_eq!(sum, 10 * round + 45);
        assert_eq!(belt.len(), 0);
    }
}

#[test]
fn the_slice_can_leave_the_clear() {
    let mut belt = VecBelt::new(3);
    belt.append([1, 2, 3, 4]);
    let slice = belt.clear(|slice| slice);
    assert_eq!(&slice[..], [1, 2, 3, 4]);
}

#[test]
fn raw_appends_take_what_the_acceptor_makes() {
    let mut belt = VecBelt::new(1);
    assert_eq!(belt.append_raw(2, |_| vec![7u8, 8]), 0);
    assert_eq!(belt.append_raw(3, |_| vec![9, 10, 11]), 2);
    belt.clear(|slice| assert_eq!(&slice[..], [7, 8, 9, 10, 11]));
}

#[test]
fn raw_appends_are_counted_before_the_acceptor_is_called() {
    let mut belt = VecBelt::new(4);
    for (n, old) in [(3, 0), (1, 3), (2, 4), (0, 6)] {
        let mut calls = 0;
        let index = belt.append_raw(n, |reserved| {
            calls += 1;
            assert_eq!(reserved.len(), old + n);
            vec![n; n]
        });
        assert_eq!(index, old);
        assert_eq!(calls, 1);
    }
    belt.clear(|slice| assert_eq!(&slice[..], [3, 3, 3, 1, 2, 2]));
}

#[test]
fn batches_that_cannot_be_counted_are_refused() {
    let mut belt = VecBelt::<u8>::new(1);
    belt.append([1]);
    let most = isize::MAX as usize;
    assert_eq!(belt.check_append(usize::MAX), Err(BeltError::TooManyElements));
    assert_eq!(belt.check_append(most + 1), Err(BeltError::TooManyElements));
    assert_eq!(belt.check_append(most), Err(BeltError::TooManyElements));
    assert!(belt.check_append(0).is_ok());
    assert!(belt.check_append(1000).is_ok());
}

#[test]
fn batches_that_need_too_large_a_fragment_are_refused() {
    let belt = VecBelt::<u64>::new(1);
    let most = isize::MAX as usize;
    assert!(matches!(belt.check_append(most), Err(BeltError::Fragment(_))));
    assert!(matches!(belt.check_append(most / 8), Err(BeltError::Fragment(_))));
    assert!(belt.check_append(most / 8 - 3).is_ok());
}

#[test]
fn elements_without_size_are_only_counted() {
    let mut belt = VecBelt::<()>::new(0);
    assert!(belt.check_append(isize::MAX as usize).is_ok());
    assert_eq!(belt.append([(), (), ()]), 0);
    assert!(belt.check_append(isize::MAX as usize - 3).is_ok());
    assert_eq!(belt.check_append(isize::MAX as usize - 2), Err(BeltError::TooManyElements));
    assert_eq!(belt.clear(|slice| slice.len()), 3);
}

#[test]
fn belts_of_one_and_of_several_fragments_can_be_cleared() {
    let mut belt = VecBelt::<u64>::new(2);
    assert!(belt.check_clear().is_ok());
    belt.append([1, 2, 3]);
    belt.append([4, 5, 6, 7]);
    assert!(belt.check_clear().is_ok());
}
