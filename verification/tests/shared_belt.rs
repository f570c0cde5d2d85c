use vec_belt::{BeltError, SharedBelt};

#[test]
fn batches_come_in_any_order() {
    let mut belt = SharedBelt::new(2);
    assert_eq!(belt.reserve(3), Ok(0));
    assert_eq!(belt.reserve(1), Ok(3));
    assert_eq!(belt.reserve(0), Ok(4));
    assert_eq!(belt.reserve(4), Ok(4));
    assert_eq!(belt.len(), 8);
    assert!(!belt.is_settled());
    belt.place(4, vec![5, 6, 7, 8]);
    belt.place(3, vec![4]);
    belt.place(4, Vec::new());
    assert!(!belt.is_settled());
    belt.place(0, vec![1, 2, 3]);
    assert!(belt.is_settled());
    assert_eq!(belt.len(), 8);
    assert!(belt.check_clear().is_ok());
    belt.clear(|slice| assert_eq!(&slice[..], [1, 2, 3, 4, 5, 6, 7, 8]));
    assert_eq!(belt.len(), 0);
    assert!(belt.is_settled());
}

#[test]
fn eight_appends_in_every_rotation() {
    for first in 0..8 {
        let mut belt = SharedBelt::new(1);
        for i in 0..8 {
            assert_eq!(belt.reserve(5), Ok(5 * i));
        }
        for i in 0..8 {
            let i = (first + 3 * i) % 8;
            belt.place(5 * i, (0..5).map(|j| 5 * i + j).collect());
        }
        belt.clear(|slice| assert!(slice.iter().copied().eq(0..40)));
        assert_eq!(belt.reserve(1), Ok(0));
    }
}

#[test]
fn what_is_still_to_come_is_counted() {
    let mut belt = SharedBelt::<()>::new(0);
    let most = isize::MAX as usize;
    assert_eq!(belt.reserve(most - 1), Ok(0));
    assert_eq!(belt.check_reserve(1), Ok(()));
    assert_eq!(belt.check_reserve(2), Err(BeltError::TooManyElements));
    assert_eq!(belt.reserve(usize::MAX), Err(BeltError::TooManyElements));
    assert_eq!(belt.len(), most - 1);
}

#[test]
fn fragments_are_planned_ahead() {
    let mut belt = SharedBelt::<u64>::new(4);
    let most = isize::MAX as usize / 8;
    assert_eq!(belt.reserve(3), Ok(0));
    assert!(matches!(belt.reserve(most), Err(BeltError::Fragment(_))));
    assert_eq!(belt.len(), 3);
    assert_eq!(belt.reserve(1), Ok(3));
}
