use zeronix::fs::ramfs::{FsError, RamFs};
use zeronix::syscall::fd::{FdError, FileDescriptorTable, OpenFlags};
use zeronix::syscall::SysError;

#[test]
fn stdin_stdout_work() {
    let mut fs = RamFs::new();
    let mut table = FileDescriptorTable::new();
    table.set_stdin(b"abc");

    let mut buf = [0u8; 2];
    assert_eq!(table.read(&fs, 0, &mut buf).unwrap(), 2);
    assert_eq!(&buf, b"ab");

    assert_eq!(table.write(&mut fs, 1, b"ok").unwrap(), 2);
    assert_eq!(table.stdout(), b"ok");
}

#[test]
fn dup2_redirects_stdout_to_file() {
    let mut fs = RamFs::new();
    let mut table = FileDescriptorTable::new();

    let fd = table
        .open(
            &mut fs,
            "/home/out",
            OpenFlags::create() | OpenFlags::write() | OpenFlags::trunc(),
        )
        .unwrap();
    table.dup2(fd, 1).unwrap();
    table.write(&mut fs, 1, b"redirected").unwrap();

    assert_eq!(fs.read("/home/out").unwrap(), b"redirected");
}

#[test]
fn file_offsets_advance() {
    let mut fs = RamFs::new();
    fs.write("/home/data", b"abcdef").unwrap();
    let mut table = FileDescriptorTable::new();
    let fd = table.open(&mut fs, "/home/data", OpenFlags::read()).unwrap();

    let mut buf = [0u8; 3];
    assert_eq!(table.read(&fs, fd, &mut buf).unwrap(), 3);
    assert_eq!(&buf, b"abc");
    assert_eq!(table.read(&fs, fd, &mut buf).unwrap(), 3);
    assert_eq!(&buf, b"def");
}

#[test]
fn new_descriptors_take_the_lowest_free_slot() {
    let mut fs = RamFs::new();
    let mut table = FileDescriptorTable::default();
    let flags = OpenFlags::create() | OpenFlags::write();
    assert_eq!(table.open(&mut fs, "/tmp/a", flags).unwrap(), 3);
    assert_eq!(table.open(&mut fs, "/tmp/b", flags).unwrap(), 4);
    assert_eq!(table.close(3), Ok(0));
    assert_eq!(table.open(&mut fs, "/tmp/c", flags).unwrap(), 3);
    assert_eq!(table.close(3), Ok(0));
    assert_eq!(table.close(3), Err(FdError::BadFd));
    assert_eq!(table.close(99), Err(FdError::BadFd));
}

#[test]
fn permissions_follow_the_open_flags() {
    let mut fs = RamFs::new();
    fs.write("/tmp/r", b"xyz").unwrap();
    let mut table = FileDescriptorTable::new();
    let fd = table.open(&mut fs, "/tmp/r", OpenFlags::read()).unwrap();
    assert_eq!(table.write(&mut fs, fd, b"no"), Err(FdError::Permission));
    let mut buf = [0u8; 4];
    assert_eq!(table.read(&fs, 1, &mut buf), Err(FdError::Permission));
    assert_eq!(table.write(&mut fs, 0, b"no"), Err(FdError::Permission));
    assert_eq!(table.read(&fs, 42, &mut buf), Err(FdError::BadFd));
}

#[test]
fn open_without_create_needs_an_existing_file() {
    let mut fs = RamFs::new();
    let mut table = FileDescriptorTable::new();
    assert_eq!(
        table.open(&mut fs, "/tmp/missing", OpenFlags::read()),
        Err(FdError::Fs(FsError::NotFound))
    );
    assert_eq!(
        table.open(&mut fs, "/home", OpenFlags::read()),
        Err(FdError::Fs(FsError::IsDirectory))
    );
}

#[test]
fn writes_at_the_offset_pad_and_overwrite() {
    let mut fs = RamFs::new();
    fs.write("/tmp/f", b"abcdef").unwrap();
    let mut table = FileDescriptorTable::new();
    let fd = table.open(&mut fs, "/tmp/f", OpenFlags::read() | OpenFlags::write()).unwrap();
    let mut buf = [0u8; 2];
    table.read(&fs, fd, &mut buf).unwrap();
    assert_eq!(table.write(&mut fs, fd, b"XY"), Ok(2));
    assert_eq!(fs.read("/tmp/f").unwrap(), b"abXYef");
    assert_eq!(table.write(&mut fs, fd, b"123456"), Ok(6));
    assert_eq!(fs.read("/tmp/f").unwrap(), b"abXY123456");
}

#[test]
fn append_descriptors_write_at_the_end() {
    let mut fs = RamFs::new();
    fs.write("/tmp/log", b"one").unwrap();
    let mut table = FileDescriptorTable::new();
    let fd = table.open(&mut fs, "/tmp/log", OpenFlags::write() | OpenFlags::append()).unwrap();
    table.write(&mut fs, fd, b"two").unwrap();
    table.write(&mut fs, fd, b"three").unwrap();
    assert_eq!(fs.read("/tmp/log").unwrap(), b"onetwothree");
}

#[test]
fn stderr_collects_and_reads_stop_at_the_end() {
    let mut fs = RamFs::new();
    let mut table = FileDescriptorTable::new();
    table.write(&mut fs, 2, b"err").unwrap();
    assert_eq!(table.stderr(), b"err");
    assert_eq!(table.stdout(), b"");
    table.set_stdin(b"x");
    let mut buf = [9u8; 3];
    assert_eq!(table.read(&fs, 0, &mut buf), Ok(1));
    assert_eq!(buf, [b'x', 9, 9]);
    assert_eq!(table.read(&fs, 0, &mut buf), Ok(0));
}

#[test]
fn fd_errors_map_to_sys_errors() {
    assert_eq!(SysError::from(FdError::BadFd), SysError::BadFd);
    assert_eq!(SysError::from(FdError::Permission), SysError::Permission);
    assert_eq!(SysError::from(FdError::Fs(FsError::NotFound)), SysError::NoEntry);
    assert_eq!(FdError::from(FsError::IsDirectory), FdError::Fs(FsError::IsDirectory));
}

#[test]
fn flags_combine_and_test() {
    let mut flags = OpenFlags::empty();
    assert!(!flags.contains(OpenFlags::read()));
    flags |= OpenFlags::read();
    assert!(flags.contains(OpenFlags::read()));
    assert!(!flags.contains(OpenFlags::read() | OpenFlags::write()));
    assert!(flags.contains(OpenFlags::empty()));
}
