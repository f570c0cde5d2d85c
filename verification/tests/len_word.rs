use vec_belt::len_word::{claim, LenWord, Reservation, FLAG, MASK};
use vec_belt::fragment::LayoutError;
use vec_belt::shared_word::Exchanged;
use vec_belt::{BeltError, SharedBelt};

#[test]
fn the_lock_bit_is_the_topmost() {
    assert_eq!(MASK, isize::MAX as usize);
    assert_eq!(FLAG, isize::MAX as usize + 1);
}

#[test]
fn claims_count_from_the_length_and_lock() {
    assert_eq!(claim(3, 4), Some((3, 7 | FLAG)));
    assert_eq!(claim(3 | FLAG, 4), Some((3, 7 | FLAG)));
    assert_eq!(claim(0, 0), Some((0, FLAG)));
    assert_eq!(claim(MASK, 0), Some((MASK, usize::MAX)));
    assert_eq!(claim(MASK - 1, 1), Some((MASK - 1, usize::MAX)));
}

#[test]
fn claims_beyond_the_mask_are_refused() {
    assert_eq!(claim(MASK, 1), None);
    assert_eq!(claim(1, MASK), None);
    assert_eq!(claim(0, FLAG), None);
    assert_eq!(claim(0, usize::MAX), None);
    assert_eq!(claim(usize::MAX, usize::MAX), None);
}

/// The length that a reservation counts from, if room was reserved.
fn reserved(reservation: Reservation) -> Option<usize> {
    match reservation {
        Reservation::Reserved(exchanged) => Some(exchanged.from()),
        _ => None,
    }
}

#[test]
fn a_reservation_locks_the_word() {
    let word = LenWord::new(3);
    assert_eq!(word.load().value(), 3);
    assert_eq!(reserved(word.reserve(4, 1)), Some(3));
    assert_eq!(word.load().value(), 7 | FLAG);
    assert!(matches!(word.reserve(1, 20), Reservation::Contended(Some(e)) if e.from() == 7));
    assert_eq!(word.load().value(), 7 | FLAG);
    assert_eq!(word.release(7).value(), 7);
    assert_eq!(word.load().value(), 7);
    assert_eq!(reserved(word.reserve(0, 1)), Some(7));
}

#[test]
fn a_reservation_that_counts_too_far_locks_nothing() {
    let word = LenWord::new(3);
    assert!(matches!(
        word.reserve(MASK - 2, 1),
        Reservation::TooManyElements(read) if read.value() == 3
    ));
    assert!(matches!(word.reserve(usize::MAX, 1), Reservation::TooManyElements(_)));
    assert!(matches!(word.reserve(1, 0), Reservation::Contended(None)));
    assert_eq!(word.load().value(), 3);
}

/// Takes the lock, with room claimed for `additional` elements.
fn lock(word: &LenWord, additional: usize) -> Exchanged {
    match word.reserve(additional, 1) {
        Reservation::Reserved(exchanged) => exchanged,
        _ => panic!("the word is locked"),
    }
}

#[test]
fn both_turns_of_an_append_publish_the_length() {
    let word = LenWord::new(0);
    let mut belt = SharedBelt::new(1);
    for n in 0..4usize {
        let exchanged = lock(&word, 3);
        assert_eq!(exchanged.from(), 3 * n);
        let (index, released) = belt.reserve_locked(&word, exchanged, 3);
        assert_eq!(index, Ok(3 * n));
        assert_eq!(released.value(), 3 * n + 3);
        assert_eq!(word.load().value(), 3 * n + 3);
        let exchanged = lock(&word, 0);
        assert_eq!(exchanged.from(), 3 * n + 3);
        let released = belt.place_locked(&word, exchanged, 3 * n, vec![n, n, n]);
        assert_eq!(released.value(), 3 * n + 3);
        assert_eq!(word.load().value(), 3 * n + 3);
    }
    belt.clear(|slice| assert_eq!(&slice[..], [0, 0, 0, 1, 1, 1, 2, 2, 2, 3, 3, 3]));
}

#[test]
fn a_refused_turn_leaves_the_belt_as_it_is() {
    let word = LenWord::new(0);
    let mut belt = SharedBelt::<u64>::new(1);
    let exchanged = lock(&word, 2);
    assert_eq!(belt.reserve_locked(&word, exchanged, 2).0, Ok(0));
    let most = MASK - 2;
    let exchanged = lock(&word, most);
    let (refused, released) = belt.reserve_locked(&word, exchanged, most);
    assert_eq!(refused, Err(LayoutError));
    assert_eq!(released.value(), 2);
    assert_eq!(word.load().value(), 2);
    assert!(matches!(belt.reserve(most), Err(BeltError::Fragment(_))));
    assert_eq!(belt.reserve(MASK), Err(BeltError::TooManyElements));
    belt.place(0, vec![5, 6]);
    belt.clear(|slice| assert_eq!(&slice[..], [5, 6]));
}
