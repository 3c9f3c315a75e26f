use zeronix::fs::ramfs::{FsError, RamFs};
use zeronix::syscall::{SysError, SyscallNumber, SyscallTable};

#[test]
fn fs_errors_map_to_sys_errors() {
    assert_eq!(SysError::from(FsError::NotFound), SysError::NoEntry);
    assert_eq!(SysError::from(FsError::AlreadyExists), SysError::Exists);
    assert_eq!(SysError::from(FsError::NotDirectory), SysError::NotDir);
}

#[test]
fn every_fs_error_has_its_sys_error() {
    assert_eq!(SysError::from(FsError::InvalidPath), SysError::InvalidArgument);
    assert_eq!(SysError::from(FsError::IsDirectory), SysError::IsDir);
    assert_eq!(SysError::from(FsError::DirectoryNotEmpty), SysError::NotEmpty);
}

#[test]
fn file_system_calls_report_counts_and_errors() {
    let mut fs = RamFs::new();
    assert_eq!(SyscallTable::mkdir(&mut fs, "/home/d"), Ok(0));
    assert_eq!(SyscallTable::mkdir(&mut fs, "/home/d"), Err(SysError::Exists));
    assert_eq!(SyscallTable::rename(&mut fs, "/home/d", "/home/e"), Ok(0));
    assert_eq!(SyscallTable::unlink(&mut fs, "/home/d"), Err(SysError::NoEntry));
    assert_eq!(SyscallTable::unlink(&mut fs, "/home/e"), Ok(0));
    assert_eq!(SyscallTable::fork(), Err(SysError::Unsupported));
    assert_eq!(SyscallTable::exec("/bin/ls", &["ls"]), Err(SysError::Unsupported));
}

#[test]
fn syscall_numbers_follow_the_table() {
    assert_eq!(SyscallNumber::Fork.number(), 1);
    assert_eq!(SyscallNumber::Write.number(), 6);
    assert_eq!(SyscallNumber::Mkdir.number(), 12);
}
