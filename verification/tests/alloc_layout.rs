use zeronix::alloc_layout::{allocation_for_block, align_up, normalize_layout, required_block_size, user_ptr_for_block,
    AllocationGeometry, Layout};

const GEOMETRY: AllocationGeometry = AllocationGeometry {
    header_size: 24,
    block_align: 8,
    back_ptr_size: 8,
};

#[test]
fn aligns_user_pointer_to_requested_layout() {
    let layout = Layout::from_size_align(13, 64).unwrap();
    let placement = allocation_for_block(0x1003, 512, layout, GEOMETRY).unwrap();

    assert_eq!(placement.user_ptr % 64, 0);
    assert!(placement.used_size >= GEOMETRY.header_size + GEOMETRY.back_ptr_size + 13);
    assert_eq!((0x1003 + placement.used_size) % GEOMETRY.block_align, 0);
}

#[test]
fn reserves_space_for_back_pointer_before_user_memory() {
    let layout = Layout::from_size_align(1, 8).unwrap();
    let placement = allocation_for_block(0x1000, 128, layout, GEOMETRY).unwrap();

    assert!(placement.user_ptr >= 0x1000 + GEOMETRY.header_size + GEOMETRY.back_ptr_size);
    assert_eq!((placement.user_ptr - GEOMETRY.back_ptr_size) % GEOMETRY.back_ptr_size, 0);
}

#[test]
fn rejects_blocks_that_are_too_small() {
    let layout = Layout::from_size_align(128, 16).unwrap();
    assert!(allocation_for_block(0x1000, 32, layout, GEOMETRY).is_none());
}

#[test]
fn detects_overflow() {
    let layout = Layout::from_size_align(16, 8).unwrap();
    assert!(allocation_for_block(usize::MAX - 4, 128, layout, GEOMETRY).is_none());
}

#[test]
fn layout_rejects_alignment_that_is_not_a_power_of_two() {
    assert!(Layout::from_size_align(8, 3).is_err());
    assert!(Layout::from_size_align(8, 0).is_err());
    assert!(Layout::from_size_align(usize::MAX, 8).is_err());
    let layout = Layout::from_size_align(8, 16).unwrap();
    assert_eq!(layout.size(), 8);
    assert_eq!(layout.align(), 16);
}

#[test]
fn align_up_rounds_to_next_multiple() {
    assert_eq!(align_up(0x1001, 0x1000), Some(0x2000));
    assert_eq!(align_up(0x1000, 0x1000), Some(0x1000));
    assert_eq!(align_up(usize::MAX - 2, 8), None);
}

#[test]
fn normalize_layout_raises_small_alignment() {
    let layout = Layout::from_size_align(3, 1).unwrap();
    let normalized = normalize_layout(layout, 8);
    assert_eq!(normalized.size(), 3);
    assert_eq!(normalized.align(), 8);
    let empty = Layout::from_size_align(0, 32).unwrap();
    let normalized = normalize_layout(empty, 8);
    assert_eq!(normalized.size(), 1);
    assert_eq!(normalized.align(), 32);
}

#[test]
fn user_pointer_and_required_size_agree_with_placement() {
    let layout = Layout::from_size_align(13, 64).unwrap();
    let user_ptr = user_ptr_for_block(0x1003, layout, GEOMETRY).unwrap();
    assert_eq!(user_ptr, 0x1040);
    let required = required_block_size(0x1003, layout, GEOMETRY).unwrap();
    assert_eq!(required, 0x1040 + 13 - 0x1003 + 3);
    let placement = allocation_for_block(0x1003, 512, layout, GEOMETRY).unwrap();
    assert_eq!(placement.user_ptr, user_ptr);
    assert_eq!(placement.used_size, required);
}
