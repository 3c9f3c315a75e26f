use vstd::prelude::*;
use crate::user::elf::{le_bytes32, push_all, push_u32_le, SYS_WRITE, STDOUT};

pub mod commands;
pub mod elf;

verus! {

/// The line the smoke program prints: "user syscall write ok" and LF.
pub open spec fn smoke_message() -> Seq<u8> {
    seq![
        0x75u8, 0x73, 0x65, 0x72, 0x20, 0x73, 0x79, 0x73, 0x63, 0x61, 0x6c, 0x6c, 0x20, 0x77, 0x72, 0x69, 0x74, 0x65,
        0x20, 0x6f, 0x6b, 0x0a,
    ]
}

/// The smoke program: `write(1, message, 22)` with the message addressed
/// relative to RIP, then a jump to itself.
pub open spec fn smoke_code() -> Seq<u8> {
    seq![0xb8u8] + le_bytes32(SYS_WRITE) + seq![0xbfu8] + le_bytes32(STDOUT) + seq![0x48u8, 0x8d, 0x35] + le_bytes32(9)
        + seq![0xbau8] + le_bytes32(22) + seq![0x0fu8, 0x05, 0xeb, 0xfe] + smoke_message()
}

/// Machine code of a user program that writes one line through the `write`
/// system call and then spins; it finds its message relative to RIP, so it
/// runs wherever its page is mapped.
pub fn syscall_write_smoke_program() -> (code: Vec<u8>)
    ensures
        code@ == smoke_code(),
{
    let message: [u8; 22] = [
        0x75, 0x73, 0x65, 0x72, 0x20, 0x73, 0x79, 0x73, 0x63, 0x61, 0x6c, 0x6c, 0x20, 0x77, 0x72, 0x69, 0x74, 0x65,
        0x20, 0x6f, 0x6b, 0x0a,
    ];
    let mut code: Vec<u8> = Vec::new();
    code.push(0xb8);
    push_u32_le(&mut code, SYS_WRITE);
    code.push(0xbf);
    push_u32_le(&mut code, STDOUT);
    let lea_start = code.len();
    let lea: [u8; 7] = [0x48, 0x8d, 0x35, 0, 0, 0, 0];
    push_all(&mut code, &lea);
    let lea_next = code.len();
    code.push(0xba);
    push_u32_le(&mut code, 22);
    let tail: [u8; 4] = [0x0f, 0x05, 0xeb, 0xfe];
    push_all(&mut code, &tail);
    let message_offset = code.len();
    let displacement = (message_offset - lea_next) as u32;
    code.set(lea_start + 3, displacement as u8);
    code.set(lea_start + 4, (displacement >> 8) as u8);
    code.set(lea_start + 5, (displacement >> 16) as u8);
    code.set(lea_start + 6, (displacement >> 24) as u8);
    push_all(&mut code, &message);
    assert(message@ =~= smoke_message());
    assert(code@ =~= smoke_code());
    code
}

} // verus!
