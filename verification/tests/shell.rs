use zeronix::fs::ramfs::RamFs;
use zeronix::shell::{parse_u32, parse_u64, tick_job, Job, JobKind, Shell, ShellAction};
use zeronix::user::elf::{build_program_image, install_programs, ProgramId};

const PROMPT: &[u8] = b"zeronix:/home$ ";

fn system() -> (Shell, RamFs) {
    let mut fs = RamFs::new();
    install_programs(&mut fs);
    (Shell::new(), fs)
}

fn type_line(shell: &mut Shell, fs: &mut RamFs, line: &str) -> (Vec<u8>, ShellAction) {
    let mut out = Vec::new();
    for b in line.bytes() {
        let a = shell.handle_byte(b, fs, &mut out);
        assert!(matches!(a, ShellAction::Done));
    }
    let mut out2 = Vec::new();
    let a = shell.handle_byte(b'\r', fs, &mut out2);
    assert_eq!(out, line.as_bytes());
    (out2, a)
}

fn expect(parts: &[&[u8]]) -> Vec<u8> {
    parts.concat()
}

#[test]
fn jobs_with_no_jobs() {
    let (mut shell, mut fs) = system();
    let (out, a) = type_line(&mut shell, &mut fs, "jobs");
    assert!(matches!(a, ShellAction::Done));
    assert_eq!(out, expect(&[b"\r\n", b"no background jobs\r\n", PROMPT]));
    assert!(shell.line().is_empty());
}

#[test]
fn prompt_text() {
    let shell = Shell::new();
    let mut out = Vec::new();
    shell.print_prompt(&mut out);
    assert_eq!(out, PROMPT);
}

#[test]
fn background_sleep_finishes_after_its_seconds() {
    let (mut shell, mut fs) = system();
    let (out, _) = type_line(&mut shell, &mut fs, "sleep 2 &");
    assert_eq!(out, expect(&[b"\r\n", b"[1] sleep\r\n", PROMPT]));
    assert_eq!(shell.background_jobs().len(), 1);
    assert_eq!(shell.next_job_id(), 2);
    let mut out = Vec::new();
    shell.poll_jobs(150, &mut out);
    assert!(out.is_empty());
    assert_eq!(shell.background_jobs()[0].remaining, 1);
    shell.poll_jobs(299, &mut out);
    assert_eq!(out, expect(&[b"\r\n[1] done sleep\r\n", PROMPT]));
    assert!(shell.background_jobs().is_empty());
    let mut again = Vec::new();
    shell.poll_jobs(299, &mut again);
    assert!(again.is_empty());
}

#[test]
fn foreground_count_prints_each_second() {
    let (mut shell, mut fs) = system();
    let (out, _) = type_line(&mut shell, &mut fs, "count 2");
    assert_eq!(out, expect(&[b"\r\n", b"count running; Ctrl-Z sends it to background\r\n", PROMPT]));
    let job = shell.active_job().unwrap();
    assert_eq!(job.kind, JobKind::Count);
    assert_eq!((job.remaining, job.total, job.background), (2, 2, false));
    let mut out = Vec::new();
    shell.poll_jobs(200, &mut out);
    assert_eq!(out, expect(&[b"count: 1\r\n", b"count: 2\r\n", b"count done\r\n", PROMPT]));
    assert!(shell.active_job().is_none());
}

#[test]
fn typing_is_ignored_while_a_job_runs() {
    let (mut shell, mut fs) = system();
    type_line(&mut shell, &mut fs, "sleep");
    assert_eq!(shell.active_job().unwrap().remaining, 5);
    let mut out = Vec::new();
    let a = shell.handle_byte(b'x', &mut fs, &mut out);
    assert!(matches!(a, ShellAction::Done));
    assert!(out.is_empty());
    assert!(shell.line().is_empty());
}

#[test]
fn ctrl_z_then_jobs_then_fg() {
    let (mut shell, mut fs) = system();
    type_line(&mut shell, &mut fs, "sleep 0");
    assert_eq!(shell.active_job().unwrap().remaining, 1);
    let mut out = Vec::new();
    shell.handle_byte(26, &mut fs, &mut out);
    assert_eq!(out, expect(&[b"\r\n[1] stopped sleep\r\n", PROMPT]));
    assert!(shell.active_job().is_none());
    assert!(shell.background_jobs()[0].background);
    let (out, _) = type_line(&mut shell, &mut fs, "jobs");
    assert_eq!(out, expect(&[b"\r\n", b"[1] sleep 1s remaining\r\n", PROMPT]));
    let (out, _) = type_line(&mut shell, &mut fs, "fg 1");
    assert_eq!(out, expect(&[b"\r\n", b"sleep foreground\r\n", PROMPT]));
    let job = shell.active_job().unwrap();
    assert_eq!((job.id, job.background), (1, false));
    assert!(shell.background_jobs().is_empty());
}

#[test]
fn fg_errors() {
    let (mut shell, mut fs) = system();
    let (out, _) = type_line(&mut shell, &mut fs, "fg");
    assert_eq!(out, expect(&[b"\r\n", b"usage: fg <job-id>\r\n", PROMPT]));
    let (out, _) = type_line(&mut shell, &mut fs, "fg x1");
    assert_eq!(out, expect(&[b"\r\n", b"usage: fg <job-id>\r\n", PROMPT]));
    let (out, _) = type_line(&mut shell, &mut fs, "fg 9");
    assert_eq!(out, expect(&[b"\r\n", b"fg: no such job\r\n", PROMPT]));
}

#[test]
fn run_asks_for_the_program_image() {
    let (mut shell, mut fs) = system();
    let (out, a) = type_line(&mut shell, &mut fs, "run /bin/ls");
    assert_eq!(out, b"\r\n");
    match a {
        ShellAction::Spawn(image) => assert_eq!(image, build_program_image(ProgramId::Ls)),
        _ => panic!("expected an image to start"),
    }
    let mut out = Vec::new();
    shell.finish_spawn(Some(3), &mut out);
    assert_eq!(out, expect(&[b"started pid 3\r\n", PROMPT]));
    let mut out = Vec::new();
    shell.finish_spawn(None, &mut out);
    assert_eq!(out, expect(&[b"run: invalid executable\r\n", PROMPT]));
}

#[test]
fn exec_strips_every_bin_prefix() {
    let (mut shell, mut fs) = system();
    let (_, a) = type_line(&mut shell, &mut fs, "exec /bin//bin/cat");
    match a {
        ShellAction::Spawn(image) => assert_eq!(image, build_program_image(ProgramId::Cat)),
        _ => panic!("expected an image to start"),
    }
}

#[test]
fn run_errors() {
    let (mut shell, mut fs) = system();
    let (out, _) = type_line(&mut shell, &mut fs, "run");
    assert_eq!(out, expect(&[b"\r\n", b"usage: run <program>\r\n", PROMPT]));
    let (out, _) = type_line(&mut shell, &mut fs, "run nothing");
    assert_eq!(out, expect(&[b"\r\n", b"run: executable not found\r\n", PROMPT]));
}

#[test]
fn timed_job_needs_its_program() {
    let mut fs = RamFs::new();
    let mut shell = Shell::new();
    let (out, _) = type_line(&mut shell, &mut fs, "sleep 3");
    assert_eq!(out, expect(&[b"\r\n", b"shell: executable not found\r\n", PROMPT]));
    assert!(shell.active_job().is_none());
    assert_eq!(shell.next_job_id(), 1);
}

#[test]
fn other_lines_run_file_commands() {
    let (mut shell, mut fs) = system();
    let (out, _) = type_line(&mut shell, &mut fs, "  echo hi there  ");
    assert_eq!(out, expect(&[b"\r\n", b"hi there\n", PROMPT]));
    let (out, a) = type_line(&mut shell, &mut fs, "frobnicate");
    assert_eq!(out, b"\r\n");
    assert!(matches!(a, ShellAction::Failed(_)));
    let mut out = Vec::new();
    shell.finish_line(&mut out);
    assert_eq!(out, PROMPT);
}

#[test]
fn blank_and_lone_ampersand_lines_do_nothing() {
    let (mut shell, mut fs) = system();
    let (out, _) = type_line(&mut shell, &mut fs, "   ");
    assert_eq!(out, expect(&[b"\r\n", PROMPT]));
    let (out, _) = type_line(&mut shell, &mut fs, " & ");
    assert_eq!(out, expect(&[b"\r\n", PROMPT]));
}

#[test]
fn backspace_erases() {
    let mut fs = RamFs::new();
    let mut shell = Shell::new();
    let mut out = Vec::new();
    shell.handle_byte(b'a', &mut fs, &mut out);
    shell.handle_byte(b'b', &mut fs, &mut out);
    shell.handle_byte(127, &mut fs, &mut out);
    shell.handle_byte(8, &mut fs, &mut out);
    shell.handle_byte(8, &mut fs, &mut out);
    shell.handle_byte(7, &mut fs, &mut out);
    assert_eq!(out, b"ab\x08 \x08\x08 \x08");
    assert!(shell.line().is_empty());
}

#[test]
fn parse_numbers() {
    assert_eq!(parse_u32("123"), Some(123));
    assert_eq!(parse_u32(""), Some(0));
    assert_eq!(parse_u32("12a"), None);
    assert_eq!(parse_u32("4294967295"), Some(u32::MAX));
    assert_eq!(parse_u32("4294967296"), None);
    assert_eq!(parse_u64("18446744073709551615"), Some(u64::MAX));
    assert_eq!(parse_u64("18446744073709551616"), None);
    assert_eq!(parse_u64("-1"), None);
}

#[test]
fn tick_job_counts_up() {
    let mut job = Job { id: 7, kind: JobKind::Count, remaining: 3, total: 3, background: true };
    let mut out = Vec::new();
    tick_job(&mut job, &mut out);
    tick_job(&mut job, &mut out);
    assert_eq!(out, b"count: 1\r\ncount: 2\r\n");
    assert_eq!(job.remaining, 1);
    let mut sleeper = Job { id: 8, kind: JobKind::Sleep, remaining: 0, total: 2, background: false };
    tick_job(&mut sleeper, &mut out);
    assert_eq!(sleeper.remaining, 0);
    assert_eq!(out.len(), 20);
}
