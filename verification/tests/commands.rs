use zeronix::fs::ramfs::{FsError, RamFs};
use zeronix::user::commands::{run_command, CommandError};

#[test]
fn implements_basic_file_commands() {
    let mut fs = RamFs::new();

    run_command(&mut fs, "touch /home/a", b"").unwrap();
    run_command(&mut fs, "echo hello > /home/a", b"").unwrap();
    assert_eq!(
        run_command(&mut fs, "cat /home/a", b"").unwrap().stdout,
        b"hello\n"
    );

    run_command(&mut fs, "cp /home/a /home/b", b"").unwrap();
    run_command(&mut fs, "mv /home/b /home/c", b"").unwrap();
    assert_eq!(
        run_command(&mut fs, "cat /home/c", b"").unwrap().stdout,
        b"hello\n"
    );

    run_command(&mut fs, "rm /home/c", b"").unwrap();
    assert!(matches!(
        run_command(&mut fs, "cat /home/c", b""),
        Err(CommandError::Fs(FsError::NotFound))
    ));
}

#[test]
fn supports_stdout_append_and_stdin_redirect() {
    let mut fs = RamFs::new();

    run_command(&mut fs, "echo first > /home/log", b"").unwrap();
    run_command(&mut fs, "echo second >> /home/log", b"").unwrap();
    assert_eq!(
        run_command(&mut fs, "cat /home/log", b"").unwrap().stdout,
        b"first\nsecond\n"
    );

    assert_eq!(
        run_command(&mut fs, "cat < /home/log", b"ignored").unwrap().stdout,
        b"first\nsecond\n"
    );
}

#[test]
fn ls_lists_directory_entries() {
    let mut fs = RamFs::new();
    run_command(&mut fs, "touch /home/z", b"").unwrap();
    run_command(&mut fs, "touch /home/a", b"").unwrap();

    assert_eq!(
        run_command(&mut fs, "ls /home", b"").unwrap().stdout,
        b"a\nz\n"
    );
}

#[test]
fn command_errors_are_reported() {
    let mut fs = RamFs::new();
    assert_eq!(run_command(&mut fs, "   \t ", b""), Err(CommandError::Empty));
    assert_eq!(run_command(&mut fs, "frobnicate", b""), Err(CommandError::Unknown));
    assert_eq!(run_command(&mut fs, "rm", b""), Err(CommandError::MissingArgument));
    assert_eq!(run_command(&mut fs, "mv /a", b""), Err(CommandError::MissingArgument));
    assert_eq!(run_command(&mut fs, "echo hi >", b""), Err(CommandError::MissingArgument));
    assert_eq!(run_command(&mut fs, "> /tmp/x", b""), Err(CommandError::Empty));
    assert_eq!(
        run_command(&mut fs, "cat < /tmp/none", b""),
        Err(CommandError::Fs(FsError::NotFound))
    );
}

#[test]
fn cat_reads_stdin_and_concatenates_files() {
    let mut fs = RamFs::new();
    assert_eq!(run_command(&mut fs, "cat", b"in").unwrap().stdout, b"in");
    fs.write("/tmp/a", b"A").unwrap();
    fs.write("/tmp/b", b"B").unwrap();
    assert_eq!(run_command(&mut fs, "cat /tmp/a /tmp/b /tmp/a", b"").unwrap().stdout, b"ABA");
}

#[test]
fn ls_without_argument_lists_the_root_and_echo_joins_words() {
    let mut fs = RamFs::new();
    assert_eq!(run_command(&mut fs, "ls", b"").unwrap().stdout, b"bin\nhome\nlib\ntmp\n");
    assert_eq!(run_command(&mut fs, "  echo   a  b\tc ", b"").unwrap().stdout, b"a b c\n");
    assert_eq!(run_command(&mut fs, "echo", b"").unwrap().stdout, b"\n");
    let out = run_command(&mut fs, "echo x > /tmp/o", b"").unwrap();
    assert!(out.stdout.is_empty() && out.stderr.is_empty());
}
