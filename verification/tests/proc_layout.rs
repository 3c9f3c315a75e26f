use zeronix::task::proc_layout::{align_down, consume_tick, user_code_base, user_stack_top, DEFAULT_TIME_SLICE_TICKS,
    USER_SLOT_SIZE};

#[test]
fn user_slots_do_not_overlap() {
    let first_code = user_code_base(1);
    let second_code = user_code_base(2);
    let first_stack_top = user_stack_top(1);
    let second_stack_top = user_stack_top(2);

    assert_eq!(second_code - first_code, USER_SLOT_SIZE);
    assert_eq!(first_stack_top - second_stack_top, USER_SLOT_SIZE);
}

#[test]
fn time_slice_expires_and_reloads() {
    let mut ticks = 2;

    assert!(!consume_tick(&mut ticks, DEFAULT_TIME_SLICE_TICKS));
    assert_eq!(ticks, 1);

    assert!(consume_tick(&mut ticks, DEFAULT_TIME_SLICE_TICKS));
    assert_eq!(ticks, DEFAULT_TIME_SLICE_TICKS);
}

#[test]
fn align_down_rounds_to_lower_boundary() {
    assert_eq!(align_down(0x12345, 0x1000), 0x12000);
    assert_eq!(align_down(0x12000, 0x1000), 0x12000);
}

#[test]
fn slot_addresses_have_exact_values() {
    assert_eq!(user_code_base(0), 0x40_0000);
    assert_eq!(user_code_base(3), 0x40_0000 + 3 * 0x20_0000);
    assert_eq!(user_stack_top(0), 0x7fff_ffff_f000);
    assert_eq!(user_stack_top(1), 0x7fff_ffff_f000 - 0x20_0000);
}
