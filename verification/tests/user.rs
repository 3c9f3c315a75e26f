use zeronix::user::syscall_write_smoke_program;

#[test]
fn smoke_program_uses_rip_relative_message() {
    let code = syscall_write_smoke_program();
    let lea_start = 10;
    let disp = i32::from_le_bytes([
        code[lea_start + 3],
        code[lea_start + 4],
        code[lea_start + 5],
        code[lea_start + 6],
    ]) as isize;
    let message = b"user syscall write ok\n";
    let message_offset = code.len() - message.len();
    let target = lea_start as isize + 7 + disp;

    assert_eq!(target as usize, message_offset);
    assert_eq!(&code[message_offset..], message);
    assert!(code.len() < 4096);
}

#[test]
fn smoke_program_loads_write_arguments() {
    let code = syscall_write_smoke_program();
    assert_eq!(&code[0..5], &[0xb8, 6, 0, 0, 0]);
    assert_eq!(&code[5..10], &[0xbf, 1, 0, 0, 0]);
    assert_eq!(&code[17..22], &[0xba, 22, 0, 0, 0]);
    assert_eq!(&code[22..26], &[0x0f, 0x05, 0xeb, 0xfe]);
    assert_eq!(code.len(), 48);
}
