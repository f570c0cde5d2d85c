use crossbeam_utils::CachePadded;
use std::alloc::Layout as Memory;
use vec_belt::fragment::{Layout, LayoutError};
use vec_belt::Fragment;

/// The memory of a fragment, put together piece by piece.
fn memory_of<T>(capacity: usize) -> Result<Memory, std::alloc::LayoutError> {
    let (memory, _) = Memory::new::<&[T]>().extend(Memory::new::<usize>())?;
    let (memory, _) = memory.extend(Memory::array::<T>(capacity)?)?;
    Ok(memory.pad_to_align())
}

fn agrees<T>() {
    let size = std::mem::size_of::<T>().max(1);
    let most = isize::MAX as usize / size;
    for capacity in (0..20).chain(most.saturating_sub(80)..most).chain([most, usize::MAX]) {
        match (Fragment::<T>::layout(capacity), memory_of::<T>(capacity)) {
            (Ok(layout), Ok(memory)) => {
                assert_eq!(layout.size, memory.size());
                assert_eq!(layout.align, memory.align());
            }
            (Err(LayoutError), Err(_)) => {}
            (ours, theirs) => panic!("{capacity}: {ours:?} against {theirs:?}"),
        }
    }
}

#[test]
fn layouts_are_those_of_the_memory() {
    agrees::<()>();
    agrees::<u8>();
    agrees::<u16>();
    agrees::<[u8; 3]>();
    agrees::<u64>();
    agrees::<u128>();
    agrees::<String>();
    agrees::<CachePadded<u8>>();
    agrees::<[CachePadded<u8>; 0]>();
    agrees::<CachePadded<[u8; 300]>>();
}

#[test]
fn a_fragment_of_words() {
    let word = std::mem::size_of::<usize>();
    let layout = Fragment::<usize>::layout(10).unwrap();
    assert_eq!(layout.size, 13 * word);
    assert_eq!(layout.align, std::mem::align_of::<usize>());
}

#[test]
fn a_fragment_of_bytes_is_padded() {
    let word = std::mem::size_of::<usize>();
    assert_eq!(Fragment::<u8>::layout(0).unwrap().size, 3 * word);
    assert_eq!(Fragment::<u8>::layout(1).unwrap().size, 4 * word);
}

#[test]
fn fragments_can_be_too_large() {
    assert_eq!(Fragment::<u8>::layout(usize::MAX), Err(LayoutError));
    assert_eq!(Fragment::<u64>::layout(isize::MAX as usize), Err(LayoutError));
    assert!(Fragment::<u64>::new(isize::MAX as usize).is_err());
}

#[test]
fn layouts_extend_and_pad() {
    let byte = Layout::of::<u8>();
    let (pair, offset) = byte.extend(Layout { size: 4, align: 4 }).unwrap();
    assert_eq!((pair, offset), (Layout { size: 8, align: 4 }, 4));
    let (more, offset) = pair.extend(byte).unwrap();
    assert_eq!((more, offset), (Layout { size: 9, align: 4 }, 8));
    assert_eq!(more.pad_to_align(), Layout { size: 12, align: 4 });
    assert_eq!(pair.pad_to_align(), pair);
    let most = Layout { size: isize::MAX as usize, align: 1 };
    assert_eq!(most.extend(byte), Err(LayoutError));
    assert_eq!(Layout::array::<u16>(3), Ok(Layout { size: 6, align: 2 }));
    assert_eq!(Layout::array::<u16>(usize::MAX), Err(LayoutError));
}

#[test]
fn fragments_fill_up_and_are_emptied() {
    let mut fragment = Fragment::new(5).unwrap();
    assert_eq!(fragment.capacity(), 5);
    fragment.fill(vec![1, 2]);
    fragment.fill(vec![3]);
    assert_eq!(fragment.take(), [1, 2, 3]);
    assert_eq!(fragment.take(), []);
    assert_eq!(fragment.capacity(), 5);
}
