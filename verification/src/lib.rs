pub mod alloc_layout;
pub mod arith;
pub mod fs;
pub mod mem;
pub mod task;
pub mod user;
pub mod syscall;
pub mod text;
pub mod trap;
pub mod shell;
pub mod stdio;
