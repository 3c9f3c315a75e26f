use vstd::prelude::*;
use vstd::std_specs::convert::FromSpecImpl;
use vstd::utf8::encode_utf8;
use crate::text::{views, chars_eq, str_chars, string_from_chars, lex_lt, lemma_lex_irreflexive, lemma_lex_transitive};
use crate::fs::ramfs::{FsError, RamFs, PathView, NodeView, strictly_sorted, children, list_target, read_spec,
    remove_spec, rename_spec, copy_spec, touch_spec, write_spec, append_spec};

verus! {

/// Whether `c` has the Unicode `White_Space` property.
pub open spec fn is_space(c: char) -> bool {
    ||| '\u{9}' <= c <= '\u{d}'
    ||| c == ' '
    ||| c == '\u{85}'
    ||| c == '\u{a0}'
    ||| c == '\u{1680}'
    ||| '\u{2000}' <= c <= '\u{200a}'
    ||| c == '\u{2028}'
    ||| c == '\u{2029}'
    ||| c == '\u{202f}'
    ||| c == '\u{205f}'
    ||| c == '\u{3000}'
}

/// Whether `c` separates words.
pub fn char_is_space(c: char) -> (r: bool)
    ensures
        r == is_space(c),
{
    ('\u{9}' <= c && c <= '\u{d}') || c == ' ' || c == '\u{85}' || c == '\u{a0}' || c == '\u{1680}' || ('\u{2000}' <= c
        && c <= '\u{200a}') || c == '\u{2028}' || c == '\u{2029}' || c == '\u{202f}' || c == '\u{205f}' || c
        == '\u{3000}'
}

/// The words finished so far in `s`, and the word being read at its end.
pub open spec fn scan_words(s: Seq<char>) -> (Seq<Seq<char>>, Seq<char>)
    decreases s.len(),
{
    if s.len() == 0 {
        (Seq::empty(), Seq::empty())
    } else {
        let (done, cur) = scan_words(s.drop_last());
        if is_space(s.last()) {
            if cur.len() > 0 {
                (done.push(cur), Seq::empty())
            } else {
                (done, cur)
            }
        } else {
            (done, cur.push(s.last()))
        }
    }
}

/// The words of `s`: its longest runs of characters that are not white space, in order.
pub open spec fn words_of(s: Seq<char>) -> Seq<Seq<char>> {
    let (done, cur) = scan_words(s);
    if cur.len() > 0 {
        done.push(cur)
    } else {
        done
    }
}

/// The words of `line`.
pub fn split_words(line: &Vec<char>) -> (r: Vec<Vec<char>>)
    ensures
        views(r@) == words_of(line@),
{
    let mut done: Vec<Vec<char>> = Vec::new();
    let mut cur: Vec<char> = Vec::new();
    let mut i: usize = 0;
    assert(line@.take(0) =~= Seq::<char>::empty());
    assert(views(done@) =~= Seq::<Seq<char>>::empty());
    while i < line.len()
        invariant
            i <= line@.len(),
            views(done@) == scan_words(line@.take(i as int)).0,
            cur@ == scan_words(line@.take(i as int)).1,
        decreases line@.len() - i,
    {
        let c = line[i];
        proof {
            assert(line@.take(i + 1).drop_last() =~= line@.take(i as int));
            assert(line@.take(i + 1).last() == c);
        }
        if char_is_space(c) {
            if cur.len() > 0 {
                let ghost before = views(done@);
                done.push(cur);
                assert(views(done@) =~= before.push(cur@));
                cur = Vec::new();
                assert(cur@ =~= Seq::<char>::empty());
            }
        } else {
            cur.push(c);
        }
        i = i + 1;
    }
    assert(line@.take(i as int) =~= line@);
    if cur.len() > 0 {
        let ghost before = views(done@);
        done.push(cur);
        assert(views(done@) =~= before.push(cur@));
    }
    done
}

/// Why a command failed.
#[derive(Debug, Clone, PartialEq, Eq, Structural)]
pub enum CommandError {
    Empty,
    Unknown,
    MissingArgument,
    Fs(FsError),
}

impl From<FsError> for CommandError {
    fn from(value: FsError) -> (r: Self) {
        CommandError::Fs(value)
    }
}

impl FromSpecImpl<FsError> for CommandError {
    open spec fn obeys_from_spec() -> bool {
        true
    }

    open spec fn from_spec(v: FsError) -> CommandError {
        CommandError::Fs(v)
    }
}

/// What a command printed.
#[derive(Debug, Clone, PartialEq, Eq)]
pub struct CommandOutput {
    pub stdout: Vec<u8>,
    pub stderr: Vec<u8>,
}

/// Standard output and standard error of a command, or why it failed.
pub type OutputView = Result<(Seq<u8>, Seq<u8>), CommandError>;

/// The bytes of a command's outcome.
pub open spec fn output_view(r: Result<CommandOutput, CommandError>) -> OutputView {
    match r {
        Ok(out) => Ok((out.stdout@, out.stderr@)),
        Err(e) => Err(e),
    }
}

/// A command that printed `text` on standard output and nothing else.
pub open spec fn printed(text: Seq<u8>) -> OutputView {
    Ok((text, Seq::empty()))
}

/// The outcome of a command that only changes the file system.
pub open spec fn fs_outcome(r: Result<(), FsError>) -> OutputView {
    match r {
        Ok(_) => printed(Seq::empty()),
        Err(e) => Err(CommandError::Fs(e)),
    }
}

impl CommandOutput {
    /// Output holding `text` on standard output.
    fn stdout_of(text: Vec<u8>) -> (r: Self)
        ensures
            r.stdout@ == text@,
            r.stderr@ == Seq::<u8>::empty(),
    {
        CommandOutput { stdout: text, stderr: Vec::new() }
    }

    /// Output with nothing on either stream.
    fn empty() -> (r: Self)
        ensures
            r.stdout@ == Seq::<u8>::empty(),
            r.stderr@ == Seq::<u8>::empty(),
    {
        CommandOutput { stdout: Vec::new(), stderr: Vec::new() }
    }
}

/// The UTF-8 bytes of `chars`.
fn utf8_of(chars: &Vec<char>) -> (r: Vec<u8>)
    ensures
        r@ == encode_utf8(chars@),
{
    let s = string_from_chars(chars);
    vstd::slice::slice_to_vec(s.as_str().as_bytes())
}

/// The path that a word names, as a string.
pub(crate) fn word_text(word: &Vec<char>) -> (r: String)
    ensures
        r@ == word@,
{
    string_from_chars(word)
}

/// Whether `word` is the text `s`.
pub(crate) fn word_is(word: &Vec<char>, s: &str) -> (r: bool)
    ensures
        r == (word@ == s@),
{
    let t = str_chars(s);
    chars_eq(word, &t)
}

/// Each name followed by a line feed.
pub open spec fn lines(names: Seq<Seq<char>>) -> Seq<char>
    decreases names.len(),
{
    if names.len() == 0 {
        Seq::empty()
    } else {
        lines(names.drop_last()) + names.last() + seq!['\n']
    }
}

/// The words separated by single spaces.
pub open spec fn joined(ws: Seq<Seq<char>>) -> Seq<char>
    decreases ws.len(),
{
    if ws.len() == 0 {
        Seq::empty()
    } else if ws.len() == 1 {
        ws[0]
    } else {
        joined(ws.drop_last()) + seq![' '] + ws.last()
    }
}

/// The names in directory `parts`, in code-point order.
pub open spec fn listing(m: Map<PathView, NodeView>, parts: PathView) -> Seq<Seq<char>> {
    choose|s: Seq<Seq<char>>|
        strictly_sorted(s) && forall|n: Seq<char>| s.contains(n) <==> #[trigger] children(m, parts).contains(n)
}

/// Two sorted sequences with the same elements are the same sequence.
pub proof fn lemma_sorted_unique(a: Seq<Seq<char>>, b: Seq<Seq<char>>)
    requires
        strictly_sorted(a),
        strictly_sorted(b),
        forall|n: Seq<char>| a.contains(n) <==> b.contains(n),
    ensures
        a == b,
    decreases a.len(),
{
    if a.len() == 0 {
        if b.len() > 0 {
            assert(b.contains(b[0]));
        }
        assert(a =~= b);
    } else {
        assert(a.contains(a[0]));
        assert(b.len() > 0);
        assert(b.contains(b[0]));
        let j = choose|j: int| 0 <= j < b.len() && b[j] == a[0];
        let k = choose|k: int| 0 <= k < a.len() && a[k] == b[0];
        if j > 0 {
            assert(lex_lt(b[0], b[j]));
            if k > 0 {
                assert(lex_lt(a[0], a[k]));
                lemma_lex_transitive(a[0], b[0], a[0]);
                lemma_lex_irreflexive(a[0]);
            } else {
                lemma_lex_irreflexive(a[0]);
            }
        }
        assert(a[0] == b[0]);
        let a1 = a.drop_first();
        let b1 = b.drop_first();
        assert forall|n: Seq<char>| a1.contains(n) <==> b1.contains(n) by {
            if a1.contains(n) {
                let x = choose|x: int| 0 <= x < a1.len() && a1[x] == n;
                assert(a[x + 1] == n);
                assert(lex_lt(a[0], a[x + 1]));
                assert(b.contains(n));
                let y = choose|y: int| 0 <= y < b.len() && b[y] == n;
                if y == 0 {
                    lemma_lex_irreflexive(n);
                }
                assert(b1[y - 1] == n);
            }
            if b1.contains(n) {
                let x = choose|x: int| 0 <= x < b1.len() && b1[x] == n;
                assert(b[x + 1] == n);
                assert(lex_lt(b[0], b[x + 1]));
                assert(a.contains(n));
                let y = choose|y: int| 0 <= y < a.len() && a[y] == n;
                if y == 0 {
                    lemma_lex_irreflexive(n);
                }
                assert(a1[y - 1] == n);
            }
        }
        lemma_sorted_unique(a1, b1);
        assert(a =~= seq![a[0]] + a1);
        assert(b =~= seq![b[0]] + b1);
    }
}

/// What `ls` prints: the names in the directory its argument names (the
/// root without one), one per line.
pub open spec fn ls_spec(m: Map<PathView, NodeView>, ws: Seq<Seq<char>>) -> OutputView {
    let path = if ws.len() > 1 { ws[1] } else { seq!['/'] };
    match list_target(m, path) {
        Err(e) => Err(CommandError::Fs(e)),
        Ok(parts) => printed(encode_utf8(lines(listing(m, parts)))),
    }
}

/// The contents of the files `paths`, one after the other.
pub open spec fn cat_files(m: Map<PathView, NodeView>, paths: Seq<Seq<char>>) -> Result<Seq<u8>, FsError>
    decreases paths.len(),
{
    if paths.len() == 0 {
        Ok(Seq::empty())
    } else {
        match read_spec(m, paths[0]) {
            Err(e) => Err(e),
            Ok(d) => match cat_files(m, paths.drop_first()) {
                Err(e) => Err(e),
                Ok(rest) => Ok(d + rest),
            },
        }
    }
}

/// `cat` of one file gives what reading that file gives.
pub proof fn law_cat_one_file(m: Map<PathView, NodeView>, path: Seq<char>)
    ensures
        cat_files(m, seq![path]) == read_spec(m, path),
{
    assert(seq![path].drop_first() =~= Seq::<Seq<char>>::empty());
    assert(cat_files(m, seq![path].drop_first()) == Ok::<Seq<u8>, FsError>(Seq::empty()));
    match read_spec(m, path) {
        Ok(d) => {
            assert(d + Seq::<u8>::empty() =~= d);
        },
        Err(_) => {},
    }
}

/// `cat` of the files `first` and then `second` gives the contents of
/// `first` followed by those of `second`; the first file that cannot be read
/// gives the error.
pub proof fn law_cat_in_order(m: Map<PathView, NodeView>, first: Seq<Seq<char>>, second: Seq<Seq<char>>)
    ensures
        cat_files(m, first + second) == match cat_files(m, first) {
            Err(e) => Err::<Seq<u8>, FsError>(e),
            Ok(a) => match cat_files(m, second) {
                Err(e) => Err::<Seq<u8>, FsError>(e),
                Ok(b) => Ok::<Seq<u8>, FsError>(a + b),
            },
        },
    decreases first.len(),
{
    if first.len() == 0 {
        assert(first + second =~= second);
        match cat_files(m, second) {
            Ok(b) => {
                assert(Seq::<u8>::empty() + b =~= b);
            },
            Err(_) => {},
        }
    } else {
        assert((first + second).drop_first() =~= first.drop_first() + second);
        assert((first + second)[0] == first[0]);
        law_cat_in_order(m, first.drop_first(), second);
        match read_spec(m, first[0]) {
            Ok(d) => match cat_files(m, first.drop_first()) {
                Ok(a) => match cat_files(m, second) {
                    Ok(b) => {
                        assert(d + (a + b) =~= (d + a) + b);
                    },
                    Err(_) => {},
                },
                Err(_) => {},
            },
            Err(_) => {},
        }
    }
}

/// `cat <file> <more files>` prints the named file's contents first, then
/// those of the files after it.
pub proof fn law_cat_prints_in_order(
    m: Map<PathView, NodeView>,
    cmd: Seq<char>,
    path: Seq<char>,
    more: Seq<Seq<char>>,
    input: Seq<u8>,
)
    ensures
        cat_spec(m, seq![cmd, path] + more, input) == match read_spec(m, path) {
            Err(e) => Err::<(Seq<u8>, Seq<u8>), CommandError>(CommandError::Fs(e)),
            Ok(a) => match cat_files(m, more) {
                Err(e) => Err::<(Seq<u8>, Seq<u8>), CommandError>(CommandError::Fs(e)),
                Ok(b) => printed(a + b),
            },
        },
{
    assert((seq![cmd, path] + more).skip(1) =~= seq![path] + more);
    law_cat_in_order(m, seq![path], more);
    law_cat_one_file(m, path);
}

/// What `cat` prints: its input without arguments, else the files it names.
pub open spec fn cat_spec(m: Map<PathView, NodeView>, ws: Seq<Seq<char>>, input: Seq<u8>) -> OutputView {
    if ws.len() == 1 {
        printed(input)
    } else {
        match cat_files(m, ws.skip(1)) {
            Err(e) => Err(CommandError::Fs(e)),
            Ok(d) => printed(d),
        }
    }
}

/// What `echo` prints: its arguments separated by spaces, and a line feed.
pub open spec fn echo_spec(ws: Seq<Seq<char>>) -> OutputView {
    printed(encode_utf8(joined(ws.skip(1)) + seq!['\n']))
}

/// Outcome and new file system of a command that takes `n` path arguments
/// and applies `op` to them.
pub open spec fn rm_spec(m: Map<PathView, NodeView>, ws: Seq<Seq<char>>) -> (OutputView, Map<PathView, NodeView>) {
    if ws.len() < 2 {
        (Err(CommandError::MissingArgument), m)
    } else {
        (fs_outcome(remove_spec(m, ws[1]).0), remove_spec(m, ws[1]).1)
    }
}

/// Outcome and new file system of `touch`.
pub open spec fn touch_cmd_spec(m: Map<PathView, NodeView>, ws: Seq<Seq<char>>) -> (OutputView, Map<PathView, NodeView>) {
    if ws.len() < 2 {
        (Err(CommandError::MissingArgument), m)
    } else {
        (fs_outcome(touch_spec(m, ws[1]).0), touch_spec(m, ws[1]).1)
    }
}

/// Outcome and new file system of `mv`.
pub open spec fn mv_spec(m: Map<PathView, NodeView>, ws: Seq<Seq<char>>) -> (OutputView, Map<PathView, NodeView>) {
    if ws.len() < 3 {
        (Err(CommandError::MissingArgument), m)
    } else {
        (fs_outcome(rename_spec(m, ws[1], ws[2]).0), rename_spec(m, ws[1], ws[2]).1)
    }
}

/// Outcome and new file system of `cp`.
pub open spec fn cp_spec(m: Map<PathView, NodeView>, ws: Seq<Seq<char>>) -> (OutputView, Map<PathView, NodeView>) {
    if ws.len() < 3 {
        (Err(CommandError::MissingArgument), m)
    } else {
        (fs_outcome(copy_spec(m, ws[1], ws[2]).0), copy_spec(m, ws[1], ws[2]).1)
    }
}

/// Outcome and new file system of the command `ws` with input `input`.
pub open spec fn dispatch_spec(m: Map<PathView, NodeView>, ws: Seq<Seq<char>>, input: Seq<u8>) -> (OutputView, Map<PathView, NodeView>) {
    if ws.len() == 0 {
        (Err(CommandError::Empty), m)
    } else if ws[0] == seq!['l', 's'] {
        (ls_spec(m, ws), m)
    } else if ws[0] == seq!['r', 'm'] {
        rm_spec(m, ws)
    } else if ws[0] == seq!['m', 'v'] {
        mv_spec(m, ws)
    } else if ws[0] == seq!['c', 'p'] {
        cp_spec(m, ws)
    } else if ws[0] == seq!['t', 'o', 'u', 'c', 'h'] {
        touch_cmd_spec(m, ws)
    } else if ws[0] == seq!['c', 'a', 't'] {
        (cat_spec(m, ws, input), m)
    } else if ws[0] == seq!['e', 'c', 'h', 'o'] {
        (echo_spec(ws), m)
    } else {
        (Err(CommandError::Unknown), m)
    }
}

/// Where standard output goes: a path, and whether it is appended to.
pub type RedirectView = Option<(Seq<char>, bool)>;

/// `pre` before the words that remain in `r`.
pub open spec fn prepend(pre: Seq<Seq<char>>, r: Result<(Seq<Seq<char>>, Seq<u8>, RedirectView), CommandError>) -> Result<(Seq<Seq<char>>, Seq<u8>, RedirectView), CommandError> {
    match r {
        Ok((rest, input, out)) => Ok((pre + rest, input, out)),
        Err(e) => Err(e),
    }
}

/// Whether a word is a redirection: `<`, `>` or `>>`.
pub open spec fn is_redirect(w: Seq<char>) -> bool {
    w == seq!['<'] || w == seq!['>'] || w == seq!['>', '>']
}

/// Takes the redirections out of `ws`: `< path` makes the file the input,
/// `> path` and `>> path` send the output to the file (the last one counts);
/// the other words remain, in order.
pub open spec fn strip_redirects(ws: Seq<Seq<char>>, m: Map<PathView, NodeView>, input: Seq<u8>, out: RedirectView) -> Result<(Seq<Seq<char>>, Seq<u8>, RedirectView), CommandError>
    decreases ws.len(),
{
    if ws.len() == 0 {
        Ok((Seq::empty(), input, out))
    } else if is_redirect(ws[0]) {
        if ws.len() < 2 {
            Err(CommandError::MissingArgument)
        } else if ws[0] == seq!['<'] {
            match read_spec(m, ws[1]) {
                Err(e) => Err(CommandError::Fs(e)),
                Ok(d) => strip_redirects(ws.skip(2), m, d, out),
            }
        } else {
            strip_redirects(ws.skip(2), m, input, Some((ws[1], ws[0] == seq!['>', '>'])))
        }
    } else {
        prepend(seq![ws[0]], strip_redirects(ws.drop_first(), m, input, out))
    }
}

/// Outcome and new file system of the command line `line` with input `stdin`.
pub open spec fn run_spec(m: Map<PathView, NodeView>, line: Seq<char>, stdin: Seq<u8>) -> (OutputView, Map<PathView, NodeView>) {
    let ws = words_of(line);
    if ws.len() == 0 {
        (Err(CommandError::Empty), m)
    } else {
        match strip_redirects(ws, m, stdin, None) {
            Err(e) => (Err(e), m),
            Ok((rest, input, out)) => {
                let (r, m1) = dispatch_spec(m, rest, input);
                match r {
                    Err(e) => (Err(e), m1),
                    Ok((text, errs)) => match out {
                        None => (Ok((text, errs)), m1),
                        Some((path, append)) => {
                            let (w, m2) = if append {
                                append_spec(m1, path, text)
                            } else {
                                write_spec(m1, path, text)
                            };
                            (fs_outcome(w), m2)
                        },
                    },
                }
            },
        }
    }
}

fn cmd_ls(fs: &RamFs, words: &Vec<Vec<char>>) -> (r: Result<CommandOutput, CommandError>)
    requires
        fs.wf(),
        words@.len() >= 1,
    ensures
        output_view(r) == ls_spec(fs.view(), views(words@)),
{
    let mut path_chars: Vec<char> = Vec::new();
    if words.len() > 1 {
        path_chars = copy_word(&words[1]);
    } else {
        path_chars.push('/');
        assert(path_chars@ =~= seq!['/']);
    }
    let path = word_text(&path_chars);
    let names = match fs.list(path.as_str()) {
        Ok(names) => names,
        Err(e) => {
            return Err(CommandError::Fs(e));
        },
    };
    let ghost ns = names@.map_values(|s: String| s@);
    let mut out: Vec<char> = Vec::new();
    let mut i: usize = 0;
    assert(ns.take(0) =~= Seq::<Seq<char>>::empty());
    while i < names.len()
        invariant
            i <= names@.len(),
            ns == names@.map_values(|s: String| s@),
            out@ == lines(ns.take(i as int)),
        decreases names@.len() - i,
    {
        let name = str_chars(names[i].as_str());
        let mut j: usize = 0;
        let ghost before = out@;
        while j < name.len()
            invariant
                j <= name@.len(),
                out@ == before + name@.take(j as int),
            decreases name@.len() - j,
        {
            out.push(name[j]);
            j = j + 1;
            assert(out@ =~= before + name@.take(j as int));
        }
        out.push('\n');
        proof {
            assert(name@.take(j as int) =~= name@);
            assert(ns.take(i + 1).drop_last() =~= ns.take(i as int));
            assert(ns.take(i + 1).last() == name@);
        }
        i = i + 1;
        assert(out@ =~= lines(ns.take(i as int)));
    }
    proof {
        assert(ns.take(i as int) =~= ns);
        let parts = list_target(fs.view(), path_chars@)->Ok_0;
        let l = listing(fs.view(), parts);
        assert(strictly_sorted(l) && forall|n: Seq<char>| l.contains(n) <==> #[trigger] children(fs.view(), parts).contains(n));
        lemma_sorted_unique(ns, l);
    }
    let bytes = utf8_of(&out);
    Ok(CommandOutput::stdout_of(bytes))
}

/// A copy of `w`.
fn copy_word(w: &Vec<char>) -> (r: Vec<char>)
    ensures
        r@ == w@,
{
    let mut r: Vec<char> = Vec::new();
    let mut i: usize = 0;
    while i < w.len()
        invariant
            i <= w@.len(),
            r@ == w@.take(i as int),
        decreases w@.len() - i,
    {
        r.push(w[i]);
        i = i + 1;
        assert(r@ =~= w@.take(i as int));
    }
    assert(w@.take(i as int) =~= w@);
    r
}

fn cmd_rm(fs: &mut RamFs, words: &Vec<Vec<char>>) -> (r: Result<CommandOutput, CommandError>)
    requires
        old(fs).wf(),
    ensures
        final(fs).wf(),
        (output_view(r), final(fs).view()) == rm_spec(old(fs).view(), views(words@)),
{
    if words.len() < 2 {
        return Err(CommandError::MissingArgument);
    }
    let path = word_text(&words[1]);
    match fs.remove(path.as_str()) {
        Ok(()) => Ok(CommandOutput::empty()),
        Err(e) => Err(CommandError::Fs(e)),
    }
}

fn cmd_mv(fs: &mut RamFs, words: &Vec<Vec<char>>) -> (r: Result<CommandOutput, CommandError>)
    requires
        old(fs).wf(),
    ensures
        final(fs).wf(),
        (output_view(r), final(fs).view()) == mv_spec(old(fs).view(), views(words@)),
{
    if words.len() < 3 {
        return Err(CommandError::MissingArgument);
    }
    let from = word_text(&words[1]);
    let to = word_text(&words[2]);
    match fs.rename(from.as_str(), to.as_str()) {
        Ok(()) => Ok(CommandOutput::empty()),
        Err(e) => Err(CommandError::Fs(e)),
    }
}

fn cmd_cp(fs: &mut RamFs, words: &Vec<Vec<char>>) -> (r: Result<CommandOutput, CommandError>)
    requires
        old(fs).wf(),
    ensures
        final(fs).wf(),
        (output_view(r), final(fs).view()) == cp_spec(old(fs).view(), views(words@)),
{
    if words.len() < 3 {
        return Err(CommandError::MissingArgument);
    }
    let src = word_text(&words[1]);
    let dst = word_text(&words[2]);
    match fs.copy(src.as_str(), dst.as_str()) {
        Ok(()) => Ok(CommandOutput::empty()),
        Err(e) => Err(CommandError::Fs(e)),
    }
}

fn cmd_touch(fs: &mut RamFs, words: &Vec<Vec<char>>) -> (r: Result<CommandOutput, CommandError>)
    requires
        old(fs).wf(),
    ensures
        final(fs).wf(),
        (output_view(r), final(fs).view()) == touch_cmd_spec(old(fs).view(), views(words@)),
{
    if words.len() < 2 {
        return Err(CommandError::MissingArgument);
    }
    let path = word_text(&words[1]);
    match fs.touch(path.as_str()) {
        Ok(()) => Ok(CommandOutput::empty()),
        Err(e) => Err(CommandError::Fs(e)),
    }
}

fn cmd_cat(fs: &RamFs, words: &Vec<Vec<char>>, stdin: &Vec<u8>) -> (r: Result<CommandOutput, CommandError>)
    requires
        fs.wf(),
        words@.len() >= 1,
    ensures
        output_view(r) == cat_spec(fs.view(), views(words@), stdin@),
{
    if words.len() == 1 {
        return Ok(CommandOutput::stdout_of(vstd::slice::slice_to_vec(stdin.as_slice())));
    }
    let ghost paths = views(words@).skip(1);
    let ghost m = fs.view();
    let mut out: Vec<u8> = Vec::new();
    let mut i: usize = 1;
    assert(views(words@).skip(1) =~= paths.skip(0));
    while i < words.len()
        invariant
            fs.wf(),
            m == fs.view(),
            1 <= i <= words@.len(),
            paths == views(words@).skip(1),
            match cat_files(m, paths.skip(i - 1)) {
                Ok(rest) => cat_files(m, paths) == Ok::<Seq<u8>, FsError>(out@ + rest),
                Err(e) => cat_files(m, paths) == Err::<Seq<u8>, FsError>(e),
            },
        decreases words@.len() - i,
    {
        let path = word_text(&words[i]);
        proof {
            let rest = paths.skip(i - 1);
            assert(rest[0] == words@[i as int]@);
            assert(rest.drop_first() =~= paths.skip(i as int));
        }
        let mut data = match fs.read(path.as_str()) {
            Ok(d) => d,
            Err(e) => {
                return Err(CommandError::Fs(e));
            },
        };
        let ghost before = out@;
        out.append(&mut data);
        proof {
            let rest = paths.skip(i - 1);
            match cat_files(m, paths.skip(i as int)) {
                Ok(r2) => {
                    assert(before + (read_spec(m, rest[0])->Ok_0 + r2) =~= out@ + r2);
                },
                Err(e) => {},
            }
        }
        i = i + 1;
    }
    proof {
        assert(paths.skip(i - 1) =~= Seq::<Seq<char>>::empty());
        assert(out@ + Seq::<u8>::empty() =~= out@);
    }
    Ok(CommandOutput::stdout_of(out))
}

fn cmd_echo(words: &Vec<Vec<char>>) -> (r: Result<CommandOutput, CommandError>)
    requires
        words@.len() >= 1,
    ensures
        output_view(r) == echo_spec(views(words@)),
{
    let ghost ws = views(words@).skip(1);
    let mut out: Vec<char> = Vec::new();
    let mut first = true;
    let mut i: usize = 1;
    while i < words.len()
        invariant
            1 <= i <= words@.len(),
            ws == views(words@).skip(1),
            first == (i == 1),
            out@ == joined(ws.take(i - 1)),
        decreases words@.len() - i,
    {
        let ghost before = out@;
        if !first {
            out.push(' ');
        }
        first = false;
        let w = &words[i];
        let mut j: usize = 0;
        let ghost mid = out@;
        while j < w.len()
            invariant
                j <= w@.len(),
                out@ == mid + w@.take(j as int),
            decreases w@.len() - j,
        {
            out.push(w[j]);
            j = j + 1;
            assert(out@ =~= mid + w@.take(j as int));
        }
        proof {
            assert(w@.take(j as int) =~= w@);
            let t = ws.take(i as int);
            assert(t.drop_last() =~= ws.take(i - 1));
            assert(t.last() == w@);
            if i == 1 {
                assert(t.len() == 1);
                assert(out@ =~= t[0]);
            } else {
                assert(out@ =~= joined(t.drop_last()) + seq![' '] + t.last());
            }
        }
        i = i + 1;
    }
    proof {
        assert(ws.take(i - 1) =~= ws);
    }
    let ghost body = out@;
    out.push('\n');
    assert(out@ =~= joined(ws) + seq!['\n']);
    let bytes = utf8_of(&out);
    Ok(CommandOutput::stdout_of(bytes))
}

/// Runs the command `words`, with `stdin` as its input.
fn dispatch(fs: &mut RamFs, words: &Vec<Vec<char>>, stdin: &Vec<u8>) -> (r: Result<CommandOutput, CommandError>)
    requires
        old(fs).wf(),
    ensures
        final(fs).wf(),
        (output_view(r), final(fs).view()) == dispatch_spec(old(fs).view(), views(words@), stdin@),
{
    if words.len() == 0 {
        return Err(CommandError::Empty);
    }
    let cmd = &words[0];
    proof {
        reveal_strlit("ls");
        reveal_strlit("rm");
        reveal_strlit("mv");
        reveal_strlit("cp");
        reveal_strlit("touch");
        reveal_strlit("cat");
        reveal_strlit("echo");
        assert(views(words@)[0] == cmd@);
    }
    if word_is(cmd, "ls") {
        assert("ls"@ =~= seq!['l', 's']);
        cmd_ls(fs, words)
    } else if word_is(cmd, "rm") {
        assert("ls"@ =~= seq!['l', 's']);
        assert("rm"@ =~= seq!['r', 'm']);
        cmd_rm(fs, words)
    } else if word_is(cmd, "mv") {
        assert("ls"@ =~= seq!['l', 's']);
        assert("rm"@ =~= seq!['r', 'm']);
        assert("mv"@ =~= seq!['m', 'v']);
        cmd_mv(fs, words)
    } else if word_is(cmd, "cp") {
        assert("ls"@ =~= seq!['l', 's']);
        assert("rm"@ =~= seq!['r', 'm']);
        assert("mv"@ =~= seq!['m', 'v']);
        assert("cp"@ =~= seq!['c', 'p']);
        cmd_cp(fs, words)
    } else if word_is(cmd, "touch") {
        assert("ls"@ =~= seq!['l', 's']);
        assert("rm"@ =~= seq!['r', 'm']);
        assert("mv"@ =~= seq!['m', 'v']);
        assert("cp"@ =~= seq!['c', 'p']);
        assert("touch"@ =~= seq!['t', 'o', 'u', 'c', 'h']);
        cmd_touch(fs, words)
    } else if word_is(cmd, "cat") {
        assert("ls"@ =~= seq!['l', 's']);
        assert("rm"@ =~= seq!['r', 'm']);
        assert("mv"@ =~= seq!['m', 'v']);
        assert("cp"@ =~= seq!['c', 'p']);
        assert("touch"@ =~= seq!['t', 'o', 'u', 'c', 'h']);
        assert("cat"@ =~= seq!['c', 'a', 't']);
        cmd_cat(fs, words, stdin)
    } else if word_is(cmd, "echo") {
        assert("ls"@ =~= seq!['l', 's']);
        assert("rm"@ =~= seq!['r', 'm']);
        assert("mv"@ =~= seq!['m', 'v']);
        assert("cp"@ =~= seq!['c', 'p']);
        assert("touch"@ =~= seq!['t', 'o', 'u', 'c', 'h']);
        assert("cat"@ =~= seq!['c', 'a', 't']);
        assert("echo"@ =~= seq!['e', 'c', 'h', 'o']);
        cmd_echo(words)
    } else {
        assert("ls"@ =~= seq!['l', 's']);
        assert("rm"@ =~= seq!['r', 'm']);
        assert("mv"@ =~= seq!['m', 'v']);
        assert("cp"@ =~= seq!['c', 'p']);
        assert("touch"@ =~= seq!['t', 'o', 'u', 'c', 'h']);
        assert("cat"@ =~= seq!['c', 'a', 't']);
        assert("echo"@ =~= seq!['e', 'c', 'h', 'o']);
        Err(CommandError::Unknown)
    }
}

/// The redirection a word is: 0 for none, 1 for `<`, 2 for `>`, 3 for `>>`.
fn redirect_kind(w: &Vec<char>) -> (k: u8)
    ensures
        k == 0 <==> !is_redirect(w@),
        k == 1 <==> w@ == seq!['<'],
        k == 2 <==> w@ == seq!['>'],
        k == 3 <==> w@ == seq!['>', '>'],
{
    if w.len() == 1 && w[0] == '<' {
        assert(w@ =~= seq!['<']);
        1
    } else if w.len() == 1 && w[0] == '>' {
        assert(w@ =~= seq!['>']);
        2
    } else if w.len() == 2 && w[0] == '>' && w[1] == '>' {
        assert(w@ =~= seq!['>', '>']);
        3
    } else {
        assert(w@ != seq!['<']) by {
            if w@ == seq!['<'] {
                assert(w@.len() == 1 && w@[0] == '<');
            }
        }
        assert(w@ != seq!['>']) by {
            if w@ == seq!['>'] {
                assert(w@.len() == 1 && w@[0] == '>');
            }
        }
        assert(w@ != seq!['>', '>']) by {
            if w@ == seq!['>', '>'] {
                assert(w@.len() == 2 && w@[0] == '>' && w@[1] == '>');
            }
        }
        0
    }
}

/// Where output goes, as character sequences.
pub open spec fn redirect_view(r: Option<(Vec<char>, bool)>) -> RedirectView {
    match r {
        None => None,
        Some((p, a)) => Some((p@, a)),
    }
}

/// Runs one shell command line on `fs`: `ls`, `rm`, `mv`, `cp`, `touch`,
/// `cat` or `echo`, with the redirections `> path` (write standard output to
/// the file), `>> path` (append it) and `< path` (read input from the file).
/// When output is redirected, nothing is printed.
pub fn run_command(fs: &mut RamFs, line: &str, stdin: &[u8]) -> (r: Result<CommandOutput, CommandError>)
    requires
        old(fs).wf(),
    ensures
        final(fs).wf(),
        (output_view(r), final(fs).view()) == run_spec(old(fs).view(), line@, stdin@),
{
    let chars = str_chars(line);
    let mut words = split_words(&chars);
    if words.len() == 0 {
        return Err(CommandError::Empty);
    }
    let ghost m = fs.view();
    let ghost w0 = views(words@);
    let mut input = vstd::slice::slice_to_vec(stdin);
    let mut redirect: Option<(Vec<char>, bool)> = None;
    let mut index: usize = 0;
    assert(views(words@).take(0) =~= Seq::<Seq<char>>::empty());
    assert(views(words@).skip(0) =~= views(words@));
    assert(prepend(Seq::empty(), strip_redirects(w0, m, stdin@, None)) =~~= strip_redirects(w0, m, stdin@, None));
    while index < words.len()
        invariant
            fs.wf(),
            fs.view() == m,
            index <= words@.len(),
            w0 == words_of(line@),
            strip_redirects(w0, m, stdin@, None) == prepend(
                views(words@).take(index as int),
                strip_redirects(views(words@).skip(index as int), m, input@, redirect_view(redirect)),
            ),
        decreases words@.len() - index,
    {
        let ghost ws = views(words@);
        let kind = redirect_kind(&words[index]);
        proof {
            assert(ws.skip(index as int)[0] == ws[index as int]);
            assert(ws[index as int] == words@[index as int]@);
        }
        if kind == 0 {
            proof {
                assert(ws.skip(index as int).drop_first() =~= ws.skip(index + 1));
                assert(ws.take(index + 1) =~= ws.take(index as int) + seq![ws[index as int]]);
                let x = strip_redirects(ws.skip(index + 1), m, input@, redirect_view(redirect));
                match x {
                    Ok((rest, i2, o2)) => {
                        assert(ws.take(index as int) + (seq![ws[index as int]] + rest) =~= ws.take(index + 1) + rest);
                    },
                    Err(_) => {},
                }
            }
            index = index + 1;
        } else {
            if index + 1 >= words.len() {
                return Err(CommandError::MissingArgument);
            }
            let path = words.remove(index + 1);
            words.remove(index);
            proof {
                assert(views(words@).take(index as int) =~= ws.take(index as int));
                assert(views(words@).skip(index as int) =~= ws.skip(index + 2));
                assert(ws.skip(index as int).skip(2) =~= ws.skip(index + 2));
                assert(ws.skip(index as int)[1] == path@);
            }
            if kind == 1 {
                let text = word_text(&path);
                input = match fs.read(text.as_str()) {
                    Ok(d) => d,
                    Err(e) => {
                        return Err(CommandError::Fs(e));
                    },
                };
            } else {
                redirect = Some((path, kind == 3));
            }
        }
    }
    proof {
        assert(views(words@).skip(index as int) =~= Seq::<Seq<char>>::empty());
        assert(views(words@).take(index as int) + Seq::<Seq<char>>::empty() =~= views(words@));
    }
    let output = match dispatch(fs, &words, &input) {
        Ok(out) => out,
        Err(e) => {
            return Err(e);
        },
    };
    match redirect {
        None => Ok(output),
        Some((path, append)) => {
            let text = word_text(&path);
            let r = if append {
                fs.append(text.as_str(), output.stdout.as_slice())
            } else {
                fs.write(text.as_str(), output.stdout.as_slice())
            };
            match r {
                Ok(()) => Ok(CommandOutput::empty()),
                Err(e) => Err(CommandError::Fs(e)),
            }
        },
    }
}

} // verus!
