use vstd::prelude::*;
use crate::text::{str_chars, string_from_chars, views};
use crate::user::elf::{ascii_bytes, push_all};
use crate::user::commands::{is_space, char_is_space, words_of, split_words, word_is, run_spec, run_command, CommandError};
use crate::fs::ramfs::{RamFs, PathView, NodeView, read_spec};

verus! {

/// Carriage return and line feed.
pub open spec fn crlf() -> Seq<u8> {
    seq![13u8, 10u8]
}

/// The decimal digits of `n`, most significant first, in ASCII.
pub open spec fn dec(n: nat) -> Seq<u8>
    decreases n,
{
    if n < 10 {
        seq![(48 + n) as u8]
    } else {
        dec(n / 10).push((48 + n % 10) as u8)
    }
}

/// Appends the ASCII bytes of `text` to `out`.
pub fn push_text(out: &mut Vec<u8>, text: &str)
    ensures
        final(out)@ == old(out)@ + ascii_bytes(text@),
{
    let chars = str_chars(text);
    let ghost out0 = out@;
    let mut i: usize = 0;
    while i < chars.len()
        invariant
            i <= chars@.len(),
            chars@ == text@,
            out@ == out0 + ascii_bytes(chars@.take(i as int)),
        decreases chars@.len() - i,
    {
        out.push(chars[i] as u8);
        i = i + 1;
        assert(ascii_bytes(chars@.take(i as int)) =~= ascii_bytes(chars@.take(i - 1)).push(chars@[i - 1] as u8));
        assert(out@ =~= out0 + ascii_bytes(chars@.take(i as int)));
    }
    assert(chars@.take(i as int) =~= chars@);
}

/// Appends the decimal digits of `n` to `out`.
pub fn push_decimal(out: &mut Vec<u8>, n: u64)
    ensures
        final(out)@ == old(out)@ + dec(n as nat),
    decreases n,
{
    let ghost out0 = out@;
    if n >= 10 {
        push_decimal(out, n / 10);
    }
    let digit: u8 = (n % 10) as u8;
    out.push(48 + digit);
    if n >= 10 {
        assert(out@ =~= out0 + dec(n as nat));
    } else {
        assert(out@ =~= out0 + dec(n as nat));
    }
}

/// Whether `c` is an ASCII decimal digit.
pub open spec fn is_digit(c: char) -> bool {
    '0' <= c <= '9'
}

/// Whether every character of `s` is a decimal digit.
pub open spec fn all_digits(s: Seq<char>) -> bool {
    forall|i: int| 0 <= i < s.len() ==> is_digit(#[trigger] s[i])
}

/// The number that the decimal digits `s` write.
pub open spec fn decimal_value(s: Seq<char>) -> nat
    decreases s.len(),
{
    if s.len() == 0 {
        0
    } else {
        decimal_value(s.drop_last()) * 10 + (s.last() as int - 48) as nat
    }
}

/// A prefix of a string of digits writes no larger a number than the whole.
pub proof fn lemma_decimal_prefix(s: Seq<char>, j: int)
    requires
        all_digits(s),
        0 <= j <= s.len(),
    ensures
        decimal_value(s.take(j)) <= decimal_value(s),
    decreases s.len(),
{
    if j < s.len() {
        assert(all_digits(s.drop_last()));
        assert(s.drop_last().take(j) =~= s.take(j));
        lemma_decimal_prefix(s.drop_last(), j);
    } else {
        assert(s.take(j) =~= s);
    }
}

/// `text` read as a decimal number that fits in 32 bits, if it is one.
pub open spec fn parse_u32_spec(s: Seq<char>) -> Option<u32> {
    if all_digits(s) && decimal_value(s) <= u32::MAX {
        Some(decimal_value(s) as u32)
    } else {
        None
    }
}

/// `text` read as a decimal number that fits in 64 bits, if it is one.
pub open spec fn parse_u64_spec(s: Seq<char>) -> Option<u64> {
    if all_digits(s) && decimal_value(s) <= u64::MAX {
        Some(decimal_value(s) as u64)
    } else {
        None
    }
}

/// Reads `text` as a decimal number; `None` when a character is not a digit
/// or the number does not fit in 32 bits. The empty text reads as 0.
pub fn parse_u32(text: &str) -> (r: Option<u32>)
    ensures
        r == parse_u32_spec(text@),
{
    let chars = str_chars(text);
    let ghost s = chars@;
    let mut value: u32 = 0;
    let mut i: usize = 0;
    while i < chars.len()
        invariant
            i <= s.len(),
            s == chars@,
            s == text@,
            all_digits(s.take(i as int)),
            value == decimal_value(s.take(i as int)),
        decreases s.len() - i,
    {
        let c = chars[i];
        if !('0' <= c && c <= '9') {
            assert(!all_digits(s));
            return None;
        }
        let d: u32 = (c as u32) - 48;
        assert(s.take(i + 1).drop_last() =~= s.take(i as int));
        assert(decimal_value(s.take(i + 1)) == value * 10 + d);
        let next = match value.checked_mul(10) {
            Some(t) => t.checked_add(d),
            None => None,
        };
        match next {
            Some(v) => {
                value = v;
            },
            None => {
                proof {
                    if all_digits(s) {
                        lemma_decimal_prefix(s, i + 1);
                    }
                }
                return None;
            },
        }
        i = i + 1;
        assert(all_digits(s.take(i as int)));
    }
    assert(s.take(i as int) =~= s);
    Some(value)
}

/// Reads `text` as a decimal number; `None` when a character is not a digit
/// or the number does not fit in 64 bits. The empty text reads as 0.
pub fn parse_u64(text: &str) -> (r: Option<u64>)
    ensures
        r == parse_u64_spec(text@),
{
    let chars = str_chars(text);
    let ghost s = chars@;
    let mut value: u64 = 0;
    let mut i: usize = 0;
    while i < chars.len()
        invariant
            i <= s.len(),
            s == chars@,
            s == text@,
            all_digits(s.take(i as int)),
            value == decimal_value(s.take(i as int)),
        decreases s.len() - i,
    {
        let c = chars[i];
        if !('0' <= c && c <= '9') {
            assert(!all_digits(s));
            return None;
        }
        let d: u64 = (c as u64) - 48;
        assert(s.take(i + 1).drop_last() =~= s.take(i as int));
        assert(decimal_value(s.take(i + 1)) == value * 10 + d);
        let next = match value.checked_mul(10) {
            Some(t) => t.checked_add(d),
            None => None,
        };
        match next {
            Some(v) => {
                value = v;
            },
            None => {
                proof {
                    if all_digits(s) {
                        lemma_decimal_prefix(s, i + 1);
                    }
                }
                return None;
            },
        }
        i = i + 1;
        assert(all_digits(s.take(i as int)));
    }
    assert(s.take(i as int) =~= s);
    Some(value)
}

/// What a job does each second.
#[derive(Debug, Clone, Copy, PartialEq, Eq, Structural)]
pub enum JobKind {
    /// Waits quietly.
    Sleep,
    /// Prints how many seconds have passed.
    Count,
}

/// A timed job of the shell: the program it runs, how many seconds it has
/// left out of how many, and whether it runs in the background.
#[derive(Debug, Clone, Copy, PartialEq, Eq, Structural)]
pub struct Job {
    pub id: u64,
    pub kind: JobKind,
    pub remaining: u32,
    pub total: u32,
    pub background: bool,
}

/// The name of the program a job of kind `k` runs, in ASCII.
pub open spec fn kind_name(k: JobKind) -> Seq<u8> {
    match k {
        JobKind::Sleep => ascii_bytes("sleep"@),
        JobKind::Count => ascii_bytes("count"@),
    }
}

/// Appends the name of the program of `kind`.
fn push_kind_name(out: &mut Vec<u8>, kind: JobKind)
    ensures
        final(out)@ == old(out)@ + kind_name(kind),
{
    match kind {
        JobKind::Sleep => push_text(out, "sleep"),
        JobKind::Count => push_text(out, "count"),
    }
}

/// One second of `job`: a second less remains, and a counting job prints
/// `<name>: <seconds elapsed>`. A finished job is left as it is.
pub open spec fn tick_job_spec(job: Job) -> (Job, Seq<u8>) {
    if job.remaining == 0 {
        (job, Seq::empty())
    } else {
        let j = Job { remaining: (job.remaining - 1) as u32, ..job };
        if j.kind == JobKind::Count {
            (j, kind_name(j.kind) + ascii_bytes(": "@) + dec((j.total - j.remaining) as nat) + crlf())
        } else {
            (j, Seq::empty())
        }
    }
}

/// Runs one second of `job`, appending what it prints to `out`.
pub fn tick_job(job: &mut Job, out: &mut Vec<u8>)
    requires
        old(job).remaining <= old(job).total,
    ensures
        *final(job) == tick_job_spec(*old(job)).0,
        final(out)@ == old(out)@ + tick_job_spec(*old(job)).1,
{
    if job.remaining == 0 {
        return;
    }
    job.remaining = job.remaining - 1;
    if job.kind == JobKind::Count {
        let current = job.total - job.remaining;
        let ghost out0 = out@;
        push_kind_name(out, job.kind);
        push_text(out, ": ");
        push_decimal(out, current as u64);
        out.push(13);
        out.push(10);
        assert(out@ =~= out0 + tick_job_spec(*old(job)).1);
    }
}

/// The prompt the shell prints before each line.
pub open spec fn prompt() -> Seq<u8> {
    ascii_bytes("zeronix:/home$ "@)
}

/// The state of the shell as plain values.
pub struct ShellView {
    /// The line typed so far.
    pub line: Seq<char>,
    /// The background and stopped jobs, oldest first.
    pub jobs: Seq<Job>,
    /// The job running in the foreground.
    pub active: Option<Job>,
    /// The number the next job gets.
    pub next_job_id: u64,
    /// The last whole second of uptime the jobs were run for.
    pub last_second: u64,
}

/// A job whose count of seconds stays within its total.
pub open spec fn job_ok(j: Job) -> bool {
    j.remaining <= j.total
}

/// Whether every job of the shell is consistent.
pub open spec fn view_ok(v: ShellView) -> bool {
    &&& forall|i: int| 0 <= i < v.jobs.len() ==> job_ok(#[trigger] v.jobs[i])
    &&& v.active matches Some(j) ==> job_ok(j)
}

/// `[<id>] done <name>` on a line of its own.
pub open spec fn done_line(j: Job) -> Seq<u8> {
    ascii_bytes("\r\n["@) + dec(j.id as nat) + ascii_bytes("] done "@) + kind_name(j.kind) + crlf()
}

/// One second of each job of `jobs`, in order: a job that finishes leaves
/// the list and is announced, followed by the prompt when no job runs in the
/// foreground (`idle`).
pub open spec fn tick_jobs(jobs: Seq<Job>, idle: bool) -> (Seq<Job>, Seq<u8>)
    decreases jobs.len(),
{
    if jobs.len() == 0 {
        (Seq::empty(), Seq::empty())
    } else {
        let (kept, out) = tick_jobs(jobs.drop_last(), idle);
        let (j, o) = tick_job_spec(jobs.last());
        if j.remaining == 0 {
            (kept, out + o + done_line(j) + if idle { prompt() } else { Seq::empty() })
        } else {
            (kept.push(j), out + o)
        }
    }
}

/// One more job of the list, unfolded.
proof fn lemma_tick_jobs_step(jobs: Seq<Job>, k: int, idle: bool)
    requires
        0 <= k < jobs.len(),
    ensures
        tick_jobs(jobs.take(k + 1), idle) == ({
            let (kept, out) = tick_jobs(jobs.take(k), idle);
            let (j, o) = tick_job_spec(jobs[k]);
            if j.remaining == 0 {
                (kept, out + o + done_line(j) + if idle { prompt() } else { Seq::empty() })
            } else {
                (kept.push(j), out + o)
            }
        }),
{
    assert(jobs.take(k + 1).drop_last() =~= jobs.take(k));
    assert(jobs.take(k + 1).last() == jobs[k]);
}

/// One second of the shell: the foreground job runs, and ends with
/// `<name> done` and the prompt when it finishes; then each background job runs.
pub open spec fn tick_spec(v: ShellView) -> (ShellView, Seq<u8>) {
    let (active, out1) = match v.active {
        None => (None, Seq::empty()),
        Some(job) => {
            let (j, o) = tick_job_spec(job);
            if j.remaining == 0 {
                (None, o + kind_name(j.kind) + ascii_bytes(" done\r\n"@) + prompt())
            } else {
                (Some(j), o)
            }
        },
    };
    let (jobs, out2) = tick_jobs(v.jobs, active is None);
    (ShellView { active, jobs, ..v }, out1 + out2)
}

/// `n` seconds of the shell, each counted in `last_second` before it runs.
pub open spec fn poll_steps(v: ShellView, n: nat) -> (ShellView, Seq<u8>)
    decreases n,
{
    if n == 0 {
        (v, Seq::empty())
    } else {
        let (v2, o2) = tick_spec(ShellView { last_second: (v.last_second + 1) as u64, ..v });
        let (v3, o3) = poll_steps(v2, (n - 1) as nat);
        (v3, o2 + o3)
    }
}

/// The shell brought up to `ticks` timer ticks at 100 a second: each whole
/// second not yet run is run.
pub open spec fn poll_spec(v: ShellView, ticks: u64) -> (ShellView, Seq<u8>) {
    let seconds = ticks / 100;
    if v.last_second < seconds {
        poll_steps(v, (seconds - v.last_second) as nat)
    } else {
        (v, Seq::empty())
    }
}

/// Ctrl-Z: the foreground job stops and joins the background jobs, with
/// `[<id>] stopped <name>` and the prompt.
pub open spec fn suspend_spec(v: ShellView) -> (ShellView, Seq<u8>) {
    match v.active {
        None => (v, Seq::empty()),
        Some(job) => {
            let j = Job { background: true, ..job };
            (
                ShellView { active: None, jobs: v.jobs.push(j), ..v },
                ascii_bytes("\r\n["@) + dec(j.id as nat) + ascii_bytes("] stopped "@) + kind_name(j.kind) + crlf()
                    + prompt(),
            )
        },
    }
}

/// One line per job: `[<id>] <name> <n>s remaining`.
pub open spec fn jobs_listing(jobs: Seq<Job>) -> Seq<u8>
    decreases jobs.len(),
{
    if jobs.len() == 0 {
        Seq::empty()
    } else {
        let j = jobs.last();
        jobs_listing(jobs.drop_last()) + ascii_bytes("["@) + dec(j.id as nat) + ascii_bytes("] "@) + kind_name(j.kind)
            + ascii_bytes(" "@) + dec(j.remaining as nat) + ascii_bytes("s remaining\r\n"@)
    }
}

/// What `jobs` prints.
pub open spec fn print_jobs_spec(v: ShellView) -> Seq<u8> {
    if v.jobs.len() == 0 {
        ascii_bytes("no background jobs\r\n"@)
    } else {
        jobs_listing(v.jobs)
    }
}

/// The first position of a job numbered `id`, if there is one.
pub open spec fn find_job(jobs: Seq<Job>, id: u64) -> Option<int>
    decreases jobs.len(),
{
    if jobs.len() == 0 {
        None
    } else if jobs[0].id == id {
        Some(0)
    } else {
        match find_job(jobs.drop_first(), id) {
            Some(k) => Some(k + 1),
            None => None,
        }
    }
}

/// `fg <id>`: the job numbered `id` leaves the background list and runs in
/// the foreground, with `<name> foreground`.
pub open spec fn foreground_spec(v: ShellView, word: Option<Seq<char>>) -> (ShellView, Seq<u8>) {
    let parsed = match word {
        None => None,
        Some(w) => parse_u64_spec(w),
    };
    match parsed {
        None => (v, ascii_bytes("usage: fg <job-id>\r\n"@)),
        Some(id) => match find_job(v.jobs, id) {
            Some(i) => {
                let j = Job { background: false, ..v.jobs[i] };
                (ShellView { jobs: v.jobs.remove(i), active: Some(j), ..v }, kind_name(j.kind) + ascii_bytes(" foreground\r\n"@))
            },
            None => (v, ascii_bytes("fg: no such job\r\n"@)),
        },
    }
}

/// The characters of an optional word.
pub open spec fn opt_view(w: Option<&str>) -> Option<Seq<char>> {
    match w {
        None => None,
        Some(s) => Some(s@),
    }
}

/// Appends `[<id>] done <name>` on a line of its own, and the prompt when `idle`.
fn push_done_line(out: &mut Vec<u8>, job: Job, idle: bool)
    ensures
        final(out)@ == old(out)@ + done_line(job) + if idle { prompt() } else { Seq::empty() },
{
    let ghost out0 = out@;
    push_text(out, "\r\n[");
    push_decimal(out, job.id);
    push_text(out, "] done ");
    push_kind_name(out, job.kind);
    out.push(13);
    out.push(10);
    assert(out@ =~= out0 + done_line(job));
    if idle {
        push_text(out, "zeronix:/home$ ");
    }
    assert(out@ =~= out0 + done_line(job) + if idle { prompt() } else { Seq::empty() });
}

/// Runs one second of each job of `jobs`; see `tick_jobs`.
fn tick_job_list(jobs: &mut Vec<Job>, idle: bool, out: &mut Vec<u8>)
    requires
        forall|i: int| 0 <= i < old(jobs)@.len() ==> job_ok(#[trigger] old(jobs)@[i]),
    ensures
        final(jobs)@ == tick_jobs(old(jobs)@, idle).0,
        final(out)@ == old(out)@ + tick_jobs(old(jobs)@, idle).1,
        forall|i: int| 0 <= i < final(jobs)@.len() ==> job_ok(#[trigger] final(jobs)@[i]),
{
    let ghost jobs0 = jobs@;
    let ghost out1 = out@;
    let mut index: usize = 0;
    let mut k: usize = 0;
    let n = jobs.len();
    let ghost mut kept: Seq<Job> = Seq::empty();
    let ghost mut produced: Seq<u8> = Seq::empty();
    assert(jobs0.take(0) =~= Seq::<Job>::empty());
    assert(jobs@ =~= kept + jobs0.skip(0));
    while k < n
        invariant
            n == jobs0.len(),
            k <= n,
            index <= k,
            forall|i: int| 0 <= i < jobs0.len() ==> job_ok(#[trigger] jobs0[i]),
            (kept, produced) == tick_jobs(jobs0.take(k as int), idle),
            index == kept.len(),
            jobs@ == kept + jobs0.skip(k as int),
            out@ == out1 + produced,
            forall|i: int| 0 <= i < kept.len() ==> job_ok(#[trigger] kept[i]),
        decreases n - k,
    {
        proof {
            lemma_tick_jobs_step(jobs0, k as int, idle);
        }
        assert(jobs@[index as int] == jobs0[k as int]);
        assert(job_ok(jobs0[k as int]));
        let mut job = jobs[index];
        tick_job(&mut job, out);
        if job.remaining == 0 {
            jobs.remove(index);
            push_done_line(out, job, idle);
            proof {
                produced = produced + tick_job_spec(jobs0[k as int]).1 + done_line(job) + if idle {
                    prompt()
                } else {
                    Seq::empty()
                };
            }
            assert(jobs@ =~= kept + jobs0.skip(k + 1));
        } else {
            jobs.set(index, job);
            index = index + 1;
            proof {
                produced = produced + tick_job_spec(jobs0[k as int]).1;
                kept = kept.push(job);
            }
            assert(jobs@ =~= kept + jobs0.skip(k + 1));
        }
        k = k + 1;
        assert(out@ =~= out1 + produced);
    }
    assert(jobs0.take(k as int) =~= jobs0);
    assert(jobs@ =~= kept);
}

/// The first position of a job numbered `id` is found by `find_job`.
proof fn lemma_find_job(jobs: Seq<Job>, id: u64, i: int)
    requires
        0 <= i <= jobs.len(),
        forall|k: int| 0 <= k < i ==> (#[trigger] jobs[k]).id != id,
        i < jobs.len() ==> jobs[i].id == id,
    ensures
        find_job(jobs, id) == if i < jobs.len() { Some(i) } else { None::<int> },
    decreases jobs.len(),
{
    if jobs.len() > 0 && i > 0 {
        assert(jobs[0].id != id);
        assert forall|k: int| 0 <= k < i - 1 implies (#[trigger] jobs.drop_first()[k]).id != id by {
            assert(jobs.drop_first()[k] == jobs[k + 1]);
        }
        if i < jobs.len() {
            assert(jobs.drop_first()[i - 1] == jobs[i]);
        }
        lemma_find_job(jobs.drop_first(), id, i - 1);
    }
}

/// `s` without the white space at its start.
pub open spec fn trim_start(s: Seq<char>) -> Seq<char>
    decreases s.len(),
{
    if s.len() > 0 && is_space(s[0]) {
        trim_start(s.drop_first())
    } else {
        s
    }
}

/// `s` without the white space at its end.
pub open spec fn trim_end(s: Seq<char>) -> Seq<char>
    decreases s.len(),
{
    if s.len() > 0 && is_space(s.last()) {
        trim_end(s.drop_last())
    } else {
        s
    }
}

/// `s` without white space at either end.
pub open spec fn trim(s: Seq<char>) -> Seq<char> {
    trim_end(trim_start(s))
}

/// The characters of `s` from `i` to `j`.
fn copy_range(s: &Vec<char>, i: usize, j: usize) -> (r: Vec<char>)
    requires
        i <= j <= s@.len(),
    ensures
        r@ == s@.subrange(i as int, j as int),
{
    let mut r: Vec<char> = Vec::new();
    let mut k: usize = i;
    while k < j
        invariant
            i <= k <= j,
            j <= s@.len(),
            r@ == s@.subrange(i as int, k as int),
        decreases j - k,
    {
        r.push(s[k]);
        k = k + 1;
        assert(r@ =~= s@.subrange(i as int, k as int));
    }
    r
}

/// `s` without the white space at its end.
pub fn trim_end_chars(s: &Vec<char>) -> (r: Vec<char>)
    ensures
        r@ == trim_end(s@),
{
    let mut j: usize = s.len();
    assert(s@.take(j as int) =~= s@);
    while j > 0 && char_is_space(s[j - 1])
        invariant
            j <= s@.len(),
            trim_end(s@) == trim_end(s@.take(j as int)),
        decreases j,
    {
        assert(s@.take(j as int).drop_last() =~= s@.take(j - 1));
        j = j - 1;
    }
    copy_range(s, 0, j)
}

/// `s` without white space at either end.
pub fn trim_chars(s: &Vec<char>) -> (r: Vec<char>)
    ensures
        r@ == trim(s@),
{
    let mut i: usize = 0;
    assert(s@.skip(0) =~= s@);
    while i < s.len() && char_is_space(s[i])
        invariant
            i <= s@.len(),
            trim_start(s@) == trim_start(s@.skip(i as int)),
        decreases s@.len() - i,
    {
        assert(s@.skip(i as int).drop_first() =~= s@.skip(i + 1));
        i = i + 1;
    }
    let rest = copy_range(s, i, s.len());
    assert(rest@ =~= s@.skip(i as int));
    trim_end_chars(&rest)
}

/// The word at position `i` of `words`, if there is one.
pub open spec fn word_at(words: Seq<Seq<char>>, i: int) -> Option<Seq<char>> {
    if 0 <= i < words.len() {
        Some(words[i])
    } else {
        None
    }
}

/// The prefix of the directory of programs.
pub open spec fn bin_prefix() -> Seq<char> {
    seq!['/', 'b', 'i', 'n', '/']
}

/// `p` without every leading `/bin/`.
pub open spec fn strip_bin(p: Seq<char>) -> Seq<char>
    decreases p.len(),
{
    if p.len() >= 5 && p.take(5) == bin_prefix() {
        strip_bin(p.skip(5))
    } else {
        p
    }
}

/// `run <program>` or `exec <program>`: what it prints, and the image to
/// start, read from `/bin/<program>` (a leading `/bin/` may be given).
pub open spec fn run_elf_spec(m: Map<PathView, NodeView>, program: Option<Seq<char>>) -> (Seq<u8>, Option<Seq<u8>>) {
    match program {
        None => (ascii_bytes("usage: run <program>\r\n"@), None),
        Some(p) => match read_spec(m, bin_prefix() + strip_bin(p)) {
            Ok(image) => (Seq::empty(), Some(image)),
            Err(_) => (ascii_bytes("run: executable not found\r\n"@), None),
        },
    }
}

/// The seconds a timed job runs: the number given, at least 1, or 5
/// when none is given or it does not read as a number.
pub open spec fn job_seconds(arg: Option<Seq<char>>) -> u32 {
    let parsed = match arg {
        None => None,
        Some(a) => parse_u32_spec(a),
    };
    match parsed {
        None => 5,
        Some(n) => if n < 1 {
            1
        } else {
            n
        },
    }
}

/// `sleep [seconds]` or `count [seconds]`: when `/bin/<command>` can be
/// read, a new job starts, numbered with the next number, in the background
/// (`[<id>] <name>`) or in the foreground.
pub open spec fn start_long_job_spec(
    v: ShellView,
    m: Map<PathView, NodeView>,
    command: Seq<char>,
    arg: Option<Seq<char>>,
    background: bool,
) -> (ShellView, Seq<u8>) {
    match read_spec(m, bin_prefix() + command) {
        Err(_) => (v, ascii_bytes("shell: executable not found\r\n"@)),
        Ok(_) => {
            let seconds = job_seconds(arg);
            let kind = if command == "count"@ {
                JobKind::Count
            } else {
                JobKind::Sleep
            };
            let job = Job { id: v.next_job_id, kind, remaining: seconds, total: seconds, background };
            let v1 = ShellView { next_job_id: (v.next_job_id + 1) as u64, ..v };
            if background {
                (
                    ShellView { jobs: v.jobs.push(job), ..v1 },
                    ascii_bytes("["@) + dec(job.id as nat) + ascii_bytes("] "@) + kind_name(kind) + crlf(),
                )
            } else {
                (
                    ShellView { active: Some(job), ..v1 },
                    kind_name(kind) + ascii_bytes(" running; Ctrl-Z sends it to background\r\n"@),
                )
            }
        },
    }
}

/// A built-in command of the shell: whether `line` is one (a line with no
/// words counts as handled), the state after it, what it prints, and the
/// image it asks to start.
pub open spec fn run_shell_command_spec(v: ShellView, m: Map<PathView, NodeView>, line: Seq<char>, background: bool) -> (
    bool,
    ShellView,
    Seq<u8>,
    Option<Seq<u8>>,
) {
    let words = words_of(line);
    if words.len() == 0 {
        (true, v, Seq::empty(), None)
    } else {
        let command = words[0];
        let arg = word_at(words, 1);
        if command == "jobs"@ {
            (true, v, print_jobs_spec(v), None)
        } else if command == "fg"@ {
            let (v2, o) = foreground_spec(v, arg);
            (true, v2, o, None)
        } else if command == "run"@ || command == "exec"@ {
            let (o, image) = run_elf_spec(m, arg);
            (true, v, o, image)
        } else if command == "sleep"@ || command == "count"@ {
            let (v2, o) = start_long_job_spec(v, m, command, arg, background);
            (true, v2, o, None)
        } else {
            (false, v, Seq::empty(), None)
        }
    }
}

/// What the shell asks of its caller after a line.
pub enum ActionView {
    /// Nothing: the line is done and the prompt printed.
    Done,
    /// Start a program with this image, then call `finish_spawn`.
    Spawn(Seq<u8>),
    /// Report that a command failed, then call `finish_line`.
    Failed(CommandError),
}

/// What the shell asks of its caller after a line.
#[derive(Debug)]
pub enum ShellAction {
    /// Nothing: the line is done and the prompt printed.
    Done,
    /// Start a program with this image, then call `finish_spawn`.
    Spawn(Vec<u8>),
    /// Report that a command failed, then call `finish_line`.
    Failed(CommandError),
}

/// The action as plain values.
pub open spec fn action_view(a: ShellAction) -> ActionView {
    match a {
        ShellAction::Done => ActionView::Done,
        ShellAction::Spawn(image) => ActionView::Spawn(image@),
        ShellAction::Failed(e) => ActionView::Failed(e),
    }
}

/// A submitted line: white space around it is dropped, and a final `&`
/// sends a job to the background; a built-in command runs, and any other
/// line is run as a file command, printing its standard output and then its
/// standard error.
pub open spec fn run_line_spec(v: ShellView, m: Map<PathView, NodeView>, line: Seq<char>) -> (
    ShellView,
    Seq<u8>,
    ActionView,
    Map<PathView, NodeView>,
) {
    let t = trim(line);
    let background = t.len() > 0 && t.last() == '&';
    let cmd = if background {
        trim_end(t.drop_last())
    } else {
        t
    };
    if cmd.len() == 0 {
        (v, Seq::empty(), ActionView::Done, m)
    } else {
        let (handled, v2, o2, image) = run_shell_command_spec(v, m, cmd, background);
        if handled {
            (
                v2,
                o2,
                match image {
                    Some(img) => ActionView::Spawn(img),
                    None => ActionView::Done,
                },
                m,
            )
        } else {
            let (res, m2) = run_spec(m, cmd, Seq::empty());
            match res {
                Ok((so, se)) => (v, so + se, ActionView::Done, m2),
                Err(e) => (v, Seq::empty(), ActionView::Failed(e), m2),
            }
        }
    }
}

/// One byte typed at the console. While a job runs in the foreground only
/// Ctrl-Z (26) counts. Otherwise a carriage return or line feed submits the
/// line (the prompt follows unless an action is pending), backspace or
/// delete erases a character, and a printable character or space is echoed
/// and added to the line.
pub open spec fn handle_byte_spec(v: ShellView, m: Map<PathView, NodeView>, byte: u8) -> (
    ShellView,
    Seq<u8>,
    ActionView,
    Map<PathView, NodeView>,
) {
    if v.active is Some {
        if byte == 26 {
            let (v2, o) = suspend_spec(v);
            (v2, o, ActionView::Done, m)
        } else {
            (v, Seq::empty(), ActionView::Done, m)
        }
    } else if byte == 13 || byte == 10 {
        let (v2, o, a, m2) = run_line_spec(v, m, v.line);
        (
            ShellView { line: Seq::empty(), ..v2 },
            crlf() + o + if a is Done {
                prompt()
            } else {
                Seq::empty()
            },
            a,
            m2,
        )
    } else if byte == 8 || byte == 127 {
        if v.line.len() > 0 {
            (ShellView { line: v.line.drop_last(), ..v }, seq![8u8, 32u8, 8u8], ActionView::Done, m)
        } else {
            (v, Seq::empty(), ActionView::Done, m)
        }
    } else if 0x20 <= byte <= 0x7e {
        (ShellView { line: v.line.push(byte as char), ..v }, seq![byte], ActionView::Done, m)
    } else {
        (v, Seq::empty(), ActionView::Done, m)
    }
}

/// How a started program is announced, with the prompt after it.
pub open spec fn finish_spawn_spec(pid: Option<u64>) -> Seq<u8> {
    match pid {
        Some(p) => ascii_bytes("started pid "@) + dec(p as nat) + crlf() + prompt(),
        None => ascii_bytes("run: invalid executable\r\n"@) + prompt(),
    }
}

/// Whether `/bin/` starts at position `i` of `p`.
fn bin_at(p: &Vec<char>, i: usize) -> (r: bool)
    requires
        i <= p@.len(),
    ensures
        r == (p@.len() - i >= 5 && p@.skip(i as int).take(5) == bin_prefix()),
{
    if p.len() - i < 5 {
        return false;
    }
    let r = p[i] == '/' && p[i + 1] == 'b' && p[i + 2] == 'i' && p[i + 3] == 'n' && p[i + 4] == '/';
    if r {
        assert(p@.skip(i as int).take(5) =~= bin_prefix());
    } else {
        proof {
            if p@.skip(i as int).take(5) == bin_prefix() {
                assert(p@.skip(i as int).take(5)[0] == p@[i as int]);
                assert(p@.skip(i as int).take(5)[1] == p@[i + 1]);
                assert(p@.skip(i as int).take(5)[2] == p@[i + 2]);
                assert(p@.skip(i as int).take(5)[3] == p@[i + 3]);
                assert(p@.skip(i as int).take(5)[4] == p@[i + 4]);
            }
        }
    }
    r
}

/// `/bin/` followed by `p` without its leading `/bin/`s.
fn program_path(p: &Vec<char>) -> (r: String)
    ensures
        r@ == bin_prefix() + strip_bin(p@),
{
    let mut i: usize = 0;
    assert(p@.skip(0) =~= p@);
    let mut more = bin_at(p, i);
    let n = p.len();
    while more
        invariant
            n == p@.len(),
            i <= p@.len(),
            more == (p@.len() - i >= 5 && p@.skip(i as int).take(5) == bin_prefix()),
            strip_bin(p@) == strip_bin(p@.skip(i as int)),
        decreases p@.len() - i,
    {
        assert(p@.skip(i as int).skip(5) =~= p@.skip(i + 5));
        i = i + 5;
        more = bin_at(p, i);
    }
    let mut path: Vec<char> = vec!['/', 'b', 'i', 'n', '/'];
    let mut k: usize = i;
    assert(path@ =~= bin_prefix() + p@.subrange(i as int, i as int));
    while k < p.len()
        invariant
            i <= k <= p@.len(),
            path@ == bin_prefix() + p@.subrange(i as int, k as int),
        decreases p@.len() - k,
    {
        path.push(p[k]);
        k = k + 1;
        assert(path@ =~= bin_prefix() + p@.subrange(i as int, k as int));
    }
    assert(p@.subrange(i as int, k as int) =~= p@.skip(i as int));
    string_from_chars(&path)
}

/// An optional word as a string.
fn word_string(words: &Vec<Vec<char>>, i: usize) -> (r: Option<String>)
    ensures
        match r {
            None => word_at(views(words@), i as int) is None,
            Some(t) => word_at(views(words@), i as int) == Some(t@),
        },
{
    if i < words.len() {
        Some(string_from_chars(&words[i]))
    } else {
        None
    }
}

/// A borrowed view of an optional string.
fn opt_str(w: &Option<String>) -> (r: Option<&str>)
    ensures
        opt_view(r) == match w {
            None => None,
            Some(t) => Some(t@),
        },
{
    match w {
        None => None,
        Some(t) => Some(t.as_str()),
    }
}

/// When some job is numbered `id`, `find_job` finds the first of them.
proof fn lemma_find_job_some(jobs: Seq<Job>, id: u64, k: int)
    requires
        0 <= k < jobs.len(),
        jobs[k].id == id,
    ensures
        find_job(jobs, id) matches Some(i) && 0 <= i <= k && jobs[i].id == id,
    decreases jobs.len(),
{
    if jobs[0].id != id {
        assert(jobs.drop_first()[k - 1] == jobs[k]);
        lemma_find_job_some(jobs.drop_first(), id, k - 1);
        let i = find_job(jobs.drop_first(), id)->Some_0;
        assert(jobs.drop_first()[i] == jobs[i + 1]);
    }
}

/// `fg <id>` with a background job numbered `id` brings that job to the
/// foreground: the new foreground job is a job of the background list with
/// that number, no longer in the background, and exactly that job leaves the
/// list; the rest of the shell is untouched. When job numbers are distinct,
/// no job numbered `id` stays in the background.
pub proof fn law_fg_brings_named_job(v: ShellView, word: Seq<char>, id: u64, k: int)
    requires
        parse_u64_spec(word) == Some(id),
        0 <= k < v.jobs.len(),
        v.jobs[k].id == id,
    ensures
        ({
            let (v2, o) = foreground_spec(v, Some(word));
            &&& v2.active matches Some(j) && j.id == id && !j.background
            &&& exists|i: int|
                0 <= i < v.jobs.len() && (#[trigger] v.jobs[i]).id == id && v2.active == Some(
                    Job { background: false, ..v.jobs[i] },
                ) && v2.jobs == v.jobs.remove(i)
            &&& v2.line == v.line && v2.next_job_id == v.next_job_id
            &&& (forall|x: int, y: int| 0 <= x < y < v.jobs.len() ==> v.jobs[x].id != v.jobs[y].id) ==> forall|x: int|
                0 <= x < v2.jobs.len() ==> (#[trigger] v2.jobs[x]).id != id
        }),
{
    lemma_find_job_some(v.jobs, id, k);
    let i = find_job(v.jobs, id)->Some_0;
    let (v2, o) = foreground_spec(v, Some(word));
    assert(v.jobs[i].id == id);
    if forall|x: int, y: int| 0 <= x < y < v.jobs.len() ==> v.jobs[x].id != v.jobs[y].id {
        assert forall|x: int| 0 <= x < v2.jobs.len() implies (#[trigger] v2.jobs[x]).id != id by {
            if x < i {
                assert(v2.jobs[x] == v.jobs[x]);
                assert(v.jobs[x].id != v.jobs[i].id);
            } else {
                assert(v2.jobs[x] == v.jobs[x + 1]);
                assert(v.jobs[i].id != v.jobs[x + 1].id);
            }
        }
    }
}

/// Typing a printable character and then backspace leaves the shell as it
/// was, and echoes the character and then erases it on the screen.
pub proof fn law_backspace_undoes_char(v: ShellView, m: Map<PathView, NodeView>, byte: u8)
    requires
        v.active is None,
        0x20 <= byte <= 0x7e,
    ensures
        handle_byte_spec(handle_byte_spec(v, m, byte).0, m, 8).0 == v,
        handle_byte_spec(v, m, byte).1 + handle_byte_spec(handle_byte_spec(v, m, byte).0, m, 8).1 == seq![byte, 8u8, 32u8, 8u8],
{
    assert(v.line.push(byte as char).drop_last() =~= v.line);
    assert(seq![byte] + seq![8u8, 32u8, 8u8] =~= seq![byte, 8u8, 32u8, 8u8]);
}

/// Each step of `poll_steps` counts one second.
proof fn lemma_poll_steps_seconds(v: ShellView, n: nat)
    requires
        v.last_second + n <= u64::MAX,
    ensures
        poll_steps(v, n).0.last_second == v.last_second + n,
    decreases n,
{
    if n > 0 {
        let v1 = ShellView { last_second: (v.last_second + 1) as u64, ..v };
        lemma_poll_steps_seconds(tick_spec(v1).0, (n - 1) as nat);
    }
}

/// Polling twice at the same tick count runs each second once: the second
/// poll changes nothing and prints nothing.
pub proof fn law_poll_twice(v: ShellView, ticks: u64)
    ensures
        poll_spec(poll_spec(v, ticks).0, ticks).0 == poll_spec(v, ticks).0,
        poll_spec(poll_spec(v, ticks).0, ticks).1 == Seq::<u8>::empty(),
{
    let seconds = ticks / 100;
    if v.last_second < seconds {
        lemma_poll_steps_seconds(v, (seconds - v.last_second) as nat);
    }
}

/// ASCII bytes read as characters.
pub open spec fn byte_chars(b: Seq<u8>) -> Seq<char> {
    b.map_values(|x: u8| x as char)
}

/// The decimal text the shell prints for a number reads back as that
/// number: a job announced as `[<id>]` is the job that `fg <id>` names.
pub proof fn law_decimal_round_trip(n: nat)
    ensures
        all_digits(byte_chars(dec(n))),
        decimal_value(byte_chars(dec(n))) == n,
        n <= u64::MAX ==> parse_u64_spec(byte_chars(dec(n))) == Some(n as u64),
    decreases n,
{
    if n < 10 {
        let d = (48 + n) as u8;
        assert(byte_chars(dec(n)) =~= seq![d as char]);
        assert(byte_chars(dec(n)).drop_last() =~= Seq::<char>::empty());
        assert((d as char) as int == d as int);
        assert(decimal_value(Seq::<char>::empty()) == 0);
        assert(byte_chars(dec(n)).last() == d as char);
    } else {
        law_decimal_round_trip(n / 10);
        let d = (48 + n % 10) as u8;
        assert(byte_chars(dec(n)) =~= byte_chars(dec(n / 10)).push(d as char));
        assert(byte_chars(dec(n)).drop_last() =~= byte_chars(dec(n / 10)));
        assert((d as char) as int == d as int);
        vstd::arithmetic::div_mod::lemma_fundamental_div_mod(n as int, 10);
        assert(decimal_value(byte_chars(dec(n))) == (n / 10) * 10 + ((d as char) as int - 48) as nat);
        assert forall|i: int| 0 <= i < byte_chars(dec(n)).len() implies is_digit(#[trigger] byte_chars(dec(n))[i]) by {
            if i < byte_chars(dec(n / 10)).len() {
                assert(byte_chars(dec(n))[i] == byte_chars(dec(n / 10))[i]);
            }
        }
    }
}

/// An interactive shell over the serial console. It runs built-in job
/// control (`jobs`, `fg`, `run`/`exec`, `sleep`, `count`) and passes other
/// lines to the file commands. Its methods append what they print to `out`.
pub struct Shell {
    line: Vec<char>,
    jobs: Vec<Job>,
    active: Option<Job>,
    next_job_id: u64,
    last_second: u64,
}

impl View for Shell {
    type V = ShellView;

    closed spec fn view(&self) -> ShellView {
        ShellView {
            line: self.line@,
            jobs: self.jobs@,
            active: self.active,
            next_job_id: self.next_job_id,
            last_second: self.last_second,
        }
    }
}

impl Shell {
    /// Whether the jobs of the shell are consistent.
    pub open spec fn wf(&self) -> bool {
        view_ok(self@)
    }

    /// A shell with an empty line and no jobs; the first job is numbered 1.
    pub fn new() -> (s: Self)
        ensures
            s.wf(),
            s@ == (ShellView {
                line: Seq::empty(),
                jobs: Seq::empty(),
                active: None,
                next_job_id: 1,
                last_second: 0,
            }),
    {
        let s = Shell { line: Vec::new(), jobs: Vec::new(), active: None, next_job_id: 1, last_second: 0 };
        assert(s@.jobs =~= Seq::<Job>::empty());
        assert(s@.line =~= Seq::<char>::empty());
        s
    }

    /// The job running in the foreground.
    pub fn active_job(&self) -> (r: Option<Job>)
        ensures
            r == self@.active,
    {
        self.active
    }

    /// The background and stopped jobs, oldest first.
    pub fn background_jobs(&self) -> (r: Vec<Job>)
        ensures
            r@ == self@.jobs,
    {
        self.jobs.clone()
    }

    /// The line typed so far.
    pub fn line(&self) -> (r: Vec<char>)
        ensures
            r@ == self@.line,
    {
        self.line.clone()
    }

    /// The number the next job gets.
    pub fn next_job_id(&self) -> (r: u64)
        ensures
            r == self@.next_job_id,
    {
        self.next_job_id
    }

    /// Prints the prompt.
    pub fn print_prompt(&self, out: &mut Vec<u8>)
        ensures
            final(out)@ == old(out)@ + prompt(),
    {
        push_text(out, "zeronix:/home$ ");
    }
}


impl Shell {
    /// Runs one second of every job; see `tick_spec`.
    pub fn tick_one_second(&mut self, out: &mut Vec<u8>)
        requires
            old(self).wf(),
        ensures
            final(self).wf(),
            final(self)@ == tick_spec(old(self)@).0,
            final(out)@ == old(out)@ + tick_spec(old(self)@).1,
    {
        let ghost v0 = self@;
        let ghost out0 = out@;
        if let Some(job) = self.active {
            let mut job = job;
            tick_job(&mut job, out);
            if job.remaining == 0 {
                push_kind_name(out, job.kind);
                push_text(out, " done\r\n");
                self.print_prompt(out);
                self.active = None;
            } else {
                self.active = Some(job);
            }
        }
        let ghost out1 = out@;
        let ghost jobs0 = self.jobs@;
        assert(out1 =~= out0 + (match v0.active {
            None => Seq::empty(),
            Some(job) => {
                let (j, o) = tick_job_spec(job);
                if j.remaining == 0 {
                    o + kind_name(j.kind) + ascii_bytes(" done\r\n"@) + prompt()
                } else {
                    o
                }
            },
        }));
        let idle = self.active.is_none();
        tick_job_list(&mut self.jobs, idle, out);
        assert(out@ =~= out0 + tick_spec(v0).1);
        assert(self@.jobs == tick_spec(v0).0.jobs);
        assert(self@.active == tick_spec(v0).0.active);
    }

    /// Runs each whole second of uptime, at 100 timer ticks a second, that
    /// has not been run yet; see `poll_spec`.
    pub fn poll_jobs(&mut self, ticks: u64, out: &mut Vec<u8>)
        requires
            old(self).wf(),
        ensures
            final(self).wf(),
            final(self)@ == poll_spec(old(self)@, ticks).0,
            final(out)@ == old(out)@ + poll_spec(old(self)@, ticks).1,
    {
        let seconds = ticks / 100;
        let ghost v0 = self@;
        let ghost out0 = out@;
        if self.last_second >= seconds {
            return;
        }
        let ghost n0 = (seconds - v0.last_second) as nat;
        while self.last_second < seconds
            invariant
                self.wf(),
                self.last_second <= seconds,
                poll_steps(self@, (seconds - self.last_second) as nat).0 == poll_steps(v0, n0).0,
                out@ + poll_steps(self@, (seconds - self.last_second) as nat).1 == out0 + poll_steps(v0, n0).1,
            decreases seconds - self.last_second,
        {
            let ghost cur = self@;
            let ghost r = (seconds - self.last_second) as nat;
            let ghost out_prev = out@;
            self.last_second = self.last_second + 1;
            assert(self@ == ShellView { last_second: (cur.last_second + 1) as u64, ..cur });
            self.tick_one_second(out);
            assert(tick_spec(ShellView { last_second: (cur.last_second + 1) as u64, ..cur }).0.last_second
                == cur.last_second + 1);
            assert((seconds - self.last_second) as nat == (r - 1) as nat);
            assert(out_prev + poll_steps(cur, r).1 =~= out@ + poll_steps(self@, (r - 1) as nat).1);
        }
        assert(poll_steps(self@, 0).1 =~= Seq::<u8>::empty());
        assert(out@ =~= out0 + poll_steps(v0, n0).1);
    }

    /// Ctrl-Z; see `suspend_spec`.
    pub fn suspend_active_job(&mut self, out: &mut Vec<u8>)
        requires
            old(self).wf(),
        ensures
            final(self).wf(),
            final(self)@ == suspend_spec(old(self)@).0,
            final(out)@ == old(out)@ + suspend_spec(old(self)@).1,
    {
        let ghost out0 = out@;
        let mut job = match self.active {
            None => {
                return;
            },
            Some(job) => job,
        };
        self.active = None;
        job.background = true;
        push_text(out, "\r\n[");
        push_decimal(out, job.id);
        push_text(out, "] stopped ");
        push_kind_name(out, job.kind);
        out.push(13);
        out.push(10);
        self.jobs.push(job);
        self.print_prompt(out);
        assert(out@ =~= out0 + suspend_spec(old(self)@).1);
        assert(self@ == suspend_spec(old(self)@).0);
    }

    /// `jobs`; see `print_jobs_spec`.
    pub fn print_jobs(&self, out: &mut Vec<u8>)
        ensures
            final(out)@ == old(out)@ + print_jobs_spec(self@),
    {
        if self.jobs.len() == 0 {
            push_text(out, "no background jobs\r\n");
            return;
        }
        let ghost out0 = out@;
        let mut i: usize = 0;
        assert(self.jobs@.take(0) =~= Seq::<Job>::empty());
        while i < self.jobs.len()
            invariant
                i <= self.jobs@.len(),
                out@ == out0 + jobs_listing(self.jobs@.take(i as int)),
            decreases self.jobs@.len() - i,
        {
            let job = self.jobs[i];
            push_text(out, "[");
            push_decimal(out, job.id);
            push_text(out, "] ");
            push_kind_name(out, job.kind);
            push_text(out, " ");
            push_decimal(out, job.remaining as u64);
            push_text(out, "s remaining\r\n");
            assert(self.jobs@.take(i + 1).drop_last() =~= self.jobs@.take(i as int));
            i = i + 1;
            assert(out@ =~= out0 + jobs_listing(self.jobs@.take(i as int)));
        }
        assert(self.jobs@.take(i as int) =~= self.jobs@);
    }

    /// `fg <id>`, with `id` the word after `fg`; see `foreground_spec`.
    pub fn foreground_job(&mut self, id: Option<&str>, out: &mut Vec<u8>)
        requires
            old(self).wf(),
        ensures
            final(self).wf(),
            final(self)@ == foreground_spec(old(self)@, opt_view(id)).0,
            final(out)@ == old(out)@ + foreground_spec(old(self)@, opt_view(id)).1,
    {
        let parsed = match id {
            None => None,
            Some(w) => parse_u64(w),
        };
        let num = match parsed {
            None => {
                push_text(out, "usage: fg <job-id>\r\n");
                return;
            },
            Some(n) => n,
        };
        let mut i: usize = 0;
        while i < self.jobs.len() && self.jobs[i].id != num
            invariant
                i <= self.jobs@.len(),
                forall|k: int| 0 <= k < i ==> (#[trigger] self.jobs@[k]).id != num,
            decreases self.jobs@.len() - i,
        {
            i = i + 1;
        }
        let ghost v0 = self@;
        proof {
            lemma_find_job(v0.jobs, num, i as int);
        }
        if i == self.jobs.len() {
            push_text(out, "fg: no such job\r\n");
            return;
        }
        let ghost out0 = out@;
        let mut job = self.jobs.remove(i);
        job.background = false;
        push_kind_name(out, job.kind);
        push_text(out, " foreground\r\n");
        self.active = Some(job);
        assert(out@ =~= out0 + foreground_spec(v0, opt_view(id)).1);
    }
}

impl Shell {
    /// `run <program>`; see `run_elf_spec`. Gives back the image to start.
    pub fn run_elf(&self, program: Option<&str>, fs: &RamFs, out: &mut Vec<u8>) -> (image: Option<Vec<u8>>)
        requires
            fs.wf(),
        ensures
            final(out)@ == old(out)@ + run_elf_spec(fs.view(), opt_view(program)).0,
            match image {
                None => run_elf_spec(fs.view(), opt_view(program)).1 is None,
                Some(img) => run_elf_spec(fs.view(), opt_view(program)).1 == Some(img@),
            },
    {
        let program = match program {
            None => {
                push_text(out, "usage: run <program>\r\n");
                return None;
            },
            Some(p) => p,
        };
        let chars = str_chars(program);
        let path = program_path(&chars);
        match fs.read(path.as_str()) {
            Ok(image) => {
                assert(old(out)@ + Seq::<u8>::empty() =~= old(out)@);
                Some(image)
            },
            Err(_) => {
                push_text(out, "run: executable not found\r\n");
                None
            },
        }
    }

    /// `sleep [seconds]` or `count [seconds]`, with `arg` the word after
    /// the command; see `start_long_job_spec`.
    pub fn start_long_job(&mut self, command: &str, arg: Option<&str>, background: bool, fs: &RamFs, out: &mut Vec<u8>)
        requires
            old(self).wf(),
            fs.wf(),
            old(self)@.next_job_id < u64::MAX,
        ensures
            final(self).wf(),
            final(self)@ == start_long_job_spec(old(self)@, fs.view(), command@, opt_view(arg), background).0,
            final(out)@ == old(out)@ + start_long_job_spec(old(self)@, fs.view(), command@, opt_view(arg), background).1,
    {
        let ghost v0 = self@;
        let ghost out0 = out@;
        let chars = str_chars(command);
        let mut path_chars: Vec<char> = vec!['/', 'b', 'i', 'n', '/'];
        let mut k: usize = 0;
        assert(path_chars@ =~= bin_prefix() + chars@.take(0));
        while k < chars.len()
            invariant
                k <= chars@.len(),
                path_chars@ == bin_prefix() + chars@.take(k as int),
            decreases chars@.len() - k,
        {
            path_chars.push(chars[k]);
            k = k + 1;
            assert(path_chars@ =~= bin_prefix() + chars@.take(k as int));
        }
        assert(chars@.take(k as int) =~= chars@);
        let path = string_from_chars(&path_chars);
        if fs.read(path.as_str()).is_err() {
            push_text(out, "shell: executable not found\r\n");
            return;
        }
        let parsed = match arg {
            None => None,
            Some(a) => parse_u32(a),
        };
        let seconds: u32 = match parsed {
            None => 5,
            Some(n) => if n < 1 {
                1
            } else {
                n
            },
        };
        let id = self.next_job_id;
        self.next_job_id = self.next_job_id + 1;
        let kind = if word_is(&chars, "count") {
            JobKind::Count
        } else {
            JobKind::Sleep
        };
        let job = Job { id, kind, remaining: seconds, total: seconds, background };
        if background {
            push_text(out, "[");
            push_decimal(out, job.id);
            push_text(out, "] ");
            push_kind_name(out, kind);
            out.push(13);
            out.push(10);
            self.jobs.push(job);
        } else {
            push_kind_name(out, kind);
            push_text(out, " running; Ctrl-Z sends it to background\r\n");
            self.active = Some(job);
        }
        assert(out@ =~= out0 + start_long_job_spec(v0, fs.view(), command@, opt_view(arg), background).1);
        assert(self@.jobs == start_long_job_spec(v0, fs.view(), command@, opt_view(arg), background).0.jobs);
    }

    /// A built-in command; see `run_shell_command_spec`. Gives back whether
    /// `line` was one, and the image to start.
    pub fn run_shell_command(&mut self, line: &str, background: bool, fs: &RamFs, out: &mut Vec<u8>) -> (r: (
        bool,
        Option<Vec<u8>>,
    ))
        requires
            old(self).wf(),
            fs.wf(),
            old(self)@.next_job_id < u64::MAX,
        ensures
            final(self).wf(),
            ({
                let (handled, v2, o, image) = run_shell_command_spec(old(self)@, fs.view(), line@, background);
                &&& r.0 == handled
                &&& final(self)@ == v2
                &&& final(out)@ == old(out)@ + o
                &&& match r.1 {
                    None => image is None,
                    Some(img) => image == Some(img@),
                }
            }),
    {
        let chars = str_chars(line);
        let words = split_words(&chars);
        if words.len() == 0 {
            assert(old(out)@ + Seq::<u8>::empty() =~= old(out)@);
            return (true, None);
        }
        let arg_text = word_string(&words, 1);
        let arg = opt_str(&arg_text);
        assert(views(words@)[0] == words@[0]@);
        let command = &words[0];
        if word_is(command, "jobs") {
            self.print_jobs(out);
            (true, None)
        } else if word_is(command, "fg") {
            self.foreground_job(arg, out);
            (true, None)
        } else if word_is(command, "run") || word_is(command, "exec") {
            let image = self.run_elf(arg, fs, out);
            (true, image)
        } else if word_is(command, "sleep") || word_is(command, "count") {
            let name = string_from_chars(command);
            self.start_long_job(name.as_str(), arg, background, fs, out);
            (true, None)
        } else {
            assert(old(out)@ + Seq::<u8>::empty() =~= old(out)@);
            (false, None)
        }
    }
}

impl Shell {
    /// Runs the line typed so far; see `run_line_spec`. The line itself is
    /// left as it is.
    pub fn run_line(&mut self, fs: &mut RamFs, out: &mut Vec<u8>) -> (a: ShellAction)
        requires
            old(self).wf(),
            old(fs).wf(),
            old(self)@.next_job_id < u64::MAX,
        ensures
            final(self).wf(),
            final(fs).wf(),
            ({
                let (v2, o, act, m2) = run_line_spec(old(self)@, old(fs).view(), old(self)@.line);
                &&& final(self)@ == v2
                &&& final(out)@ == old(out)@ + o
                &&& action_view(a) == act
                &&& final(fs).view() == m2
            }),
    {
        let t = trim_chars(&self.line);
        if t.len() == 0 {
            assert(old(out)@ + Seq::<u8>::empty() =~= old(out)@);
            return ShellAction::Done;
        }
        let background = t[t.len() - 1] == '&';
        let cmd = if background {
            let u = copy_range(&t, 0, t.len() - 1);
            assert(u@ =~= t@.drop_last());
            trim_end_chars(&u)
        } else {
            t
        };
        if cmd.len() == 0 {
            assert(old(out)@ + Seq::<u8>::empty() =~= old(out)@);
            return ShellAction::Done;
        }
        let text = string_from_chars(&cmd);
        let (handled, image) = self.run_shell_command(text.as_str(), background, fs, out);
        if handled {
            return match image {
                Some(img) => ShellAction::Spawn(img),
                None => ShellAction::Done,
            };
        }
        let empty: Vec<u8> = Vec::new();
        assert(empty@ =~= Seq::<u8>::empty());
        match run_command(fs, text.as_str(), empty.as_slice()) {
            Ok(output) => {
                let ghost out1 = out@;
                push_all(out, output.stdout.as_slice());
                push_all(out, output.stderr.as_slice());
                assert(out@ =~= out1 + (output.stdout@ + output.stderr@));
                ShellAction::Done
            },
            Err(e) => {
                assert(old(out)@ + Seq::<u8>::empty() =~= old(out)@);
                ShellAction::Failed(e)
            },
        }
    }

    /// One byte typed at the console; see `handle_byte_spec`. When it gives
    /// back an action other than `Done`, the caller performs it and then
    /// calls `finish_spawn` or `finish_line`, which print the prompt.
    pub fn handle_byte(&mut self, byte: u8, fs: &mut RamFs, out: &mut Vec<u8>) -> (a: ShellAction)
        requires
            old(self).wf(),
            old(fs).wf(),
            old(self)@.next_job_id < u64::MAX || !(byte == 13 || byte == 10),
        ensures
            final(self).wf(),
            final(fs).wf(),
            ({
                let (v2, o, act, m2) = handle_byte_spec(old(self)@, old(fs).view(), byte);
                &&& final(self)@ == v2
                &&& final(out)@ == old(out)@ + o
                &&& action_view(a) == act
                &&& final(fs).view() == m2
            }),
    {
        let ghost out0 = out@;
        if self.active.is_some() {
            if byte == 26 {
                self.suspend_active_job(out);
            } else {
                assert(out0 + Seq::<u8>::empty() =~= out0);
            }
            return ShellAction::Done;
        }
        if byte == 13 || byte == 10 {
            out.push(13);
            out.push(10);
            let a = self.run_line(fs, out);
            self.line = Vec::new();
            let is_done = match a {
                ShellAction::Done => true,
                _ => false,
            };
            if is_done {
                self.print_prompt(out);
            }
            proof {
                let (v2, o, act, m2) = run_line_spec(old(self)@, old(fs).view(), old(self)@.line);
                assert(out@ =~= out0 + (crlf() + o + if act is Done { prompt() } else { Seq::<u8>::empty() }));
                assert(self@.line =~= Seq::<char>::empty());
            }
            return a;
        }
        if byte == 8 || byte == 127 {
            if self.line.len() > 0 {
                self.line.pop();
                out.push(8);
                out.push(32);
                out.push(8);
                assert(out@ =~= out0 + seq![8u8, 32u8, 8u8]);
            } else {
                assert(out0 + Seq::<u8>::empty() =~= out0);
            }
            return ShellAction::Done;
        }
        if 0x20 <= byte && byte <= 0x7e {
            self.line.push(byte as char);
            out.push(byte);
            assert(out@ =~= out0 + seq![byte]);
        } else {
            assert(out0 + Seq::<u8>::empty() =~= out0);
        }
        ShellAction::Done
    }

    /// After a `Spawn` action: announces the program started with process
    /// number `pid`, or that the image was not a valid program, then prints
    /// the prompt.
    pub fn finish_spawn(&self, pid: Option<u64>, out: &mut Vec<u8>)
        ensures
            final(out)@ == old(out)@ + finish_spawn_spec(pid),
    {
        let ghost out0 = out@;
        match pid {
            Some(p) => {
                push_text(out, "started pid ");
                push_decimal(out, p);
                out.push(13);
                out.push(10);
            },
            None => {
                push_text(out, "run: invalid executable\r\n");
            },
        }
        self.print_prompt(out);
        assert(out@ =~= out0 + finish_spawn_spec(pid));
    }

    /// After a `Failed` action has been reported: prints the prompt.
    pub fn finish_line(&self, out: &mut Vec<u8>)
        ensures
            final(out)@ == old(out)@ + prompt(),
    {
        self.print_prompt(out);
    }
}

} // verus!
