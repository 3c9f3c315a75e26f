use vstd::prelude::*;
use crate::text::{views, path_parts, split_components, chars_eq, chars_lt, lex_lt, str_chars, string_from_chars,
    lemma_lex_transitive, lemma_lex_total, lemma_lex_irreflexive, lemma_lex_asymmetric};

verus! {

/// Why a file-system operation failed.
#[derive(Debug, Clone, Copy, PartialEq, Eq, Structural)]
pub enum FsError {
    InvalidPath,
    NotFound,
    AlreadyExists,
    NotDirectory,
    IsDirectory,
    DirectoryNotEmpty,
}

/// What a path names: a file with its contents, or a directory.
pub enum NodeView {
    File(Seq<u8>),
    Dir,
}

/// A path as its sequence of components.
pub type PathView = Seq<Seq<char>>;

enum Node {
    File(Vec<u8>),
    Dir,
}

struct Entry {
    path: Vec<Vec<char>>,
    node: Node,
}

/// In-memory file system: every file and directory below the root, by path.
///
/// A fresh file system holds the directories `/bin`, `/lib`, `/home` and `/tmp`.
pub struct RamFs {
    entries: Vec<Entry>,
}

spec fn path_of(e: Entry) -> PathView {
    views(e.path@)
}

spec fn node_of(e: Entry) -> NodeView {
    match e.node {
        Node::File(d) => NodeView::File(d@),
        Node::Dir => NodeView::Dir,
    }
}

spec fn has_path(entries: Seq<Entry>, p: PathView) -> bool {
    exists|i: int| 0 <= i < entries.len() && path_of(#[trigger] entries[i]) == p
}

spec fn model(entries: Seq<Entry>) -> Map<PathView, NodeView> {
    Map::new(
        |p: PathView| has_path(entries, p),
        |p: PathView| node_of(entries[choose|i: int| 0 <= i < entries.len() && path_of(#[trigger] entries[i]) == p]),
    )
}

spec fn unique(entries: Seq<Entry>) -> bool {
    forall|i: int, j: int| 0 <= i < entries.len() && 0 <= j < entries.len() && i != j ==> path_of(#[trigger] entries[i]) != path_of(#[trigger] entries[j])
}

/// Every entry's parent is the root or a directory, and the root itself is no entry.
pub open spec fn tree_closed(m: Map<PathView, NodeView>) -> bool {
    &&& !m.dom().contains(Seq::empty())
    &&& forall|p: PathView| #[trigger] m.dom().contains(p) && p.len() > 1 ==> m.dom().contains(p.drop_last())
        && m[p.drop_last()] is Dir
}

proof fn lemma_model_index(entries: Seq<Entry>, i: int)
    requires
        unique(entries),
        0 <= i < entries.len(),
    ensures
        model(entries).dom().contains(path_of(entries[i])),
        model(entries)[path_of(entries[i])] == node_of(entries[i]),
{
    let p = path_of(entries[i]);
    assert(has_path(entries, p));
    let j = choose|j: int| 0 <= j < entries.len() && path_of(#[trigger] entries[j]) == p;
    assert(j == i);
}

proof fn lemma_model_push(entries: Seq<Entry>, e: Entry)
    requires
        unique(entries),
        !model(entries).dom().contains(path_of(e)),
    ensures
        unique(entries.push(e)),
        model(entries.push(e)) == model(entries).insert(path_of(e), node_of(e)),
{
    let n = entries.push(e);
    assert forall|i: int, j: int| 0 <= i < n.len() && 0 <= j < n.len() && i != j implies path_of(#[trigger] n[i]) != path_of(#[trigger] n[j]) by {
        if i == entries.len() {
            assert(n[j] == entries[j]);
            assert(!has_path(entries, path_of(e)));
        } else if j == entries.len() {
            assert(n[i] == entries[i]);
            assert(!has_path(entries, path_of(e)));
        } else {
            assert(n[i] == entries[i] && n[j] == entries[j]);
        }
    }
    let m1 = model(n);
    let m2 = model(entries).insert(path_of(e), node_of(e));
    assert forall|p: PathView| m1.dom().contains(p) <==> m2.dom().contains(p) by {
        if has_path(n, p) {
            let i = choose|i: int| 0 <= i < n.len() && path_of(#[trigger] n[i]) == p;
            if i < entries.len() {
                assert(n[i] == entries[i]);
                assert(has_path(entries, p));
            }
        }
        if has_path(entries, p) {
            let i = choose|i: int| 0 <= i < entries.len() && path_of(#[trigger] entries[i]) == p;
            assert(n[i] == entries[i]);
            assert(has_path(n, p));
        }
        if p == path_of(e) {
            assert(n[entries.len() as int] == e);
            assert(has_path(n, p));
        }
    }
    assert forall|p: PathView| m1.dom().contains(p) implies m1[p] == m2[p] by {
        let i = choose|i: int| 0 <= i < n.len() && path_of(#[trigger] n[i]) == p;
        lemma_model_index(n, i);
        if i < entries.len() {
            assert(n[i] == entries[i]);
            lemma_model_index(entries, i);
        }
    }
    assert(m1 =~= m2);
}

proof fn lemma_model_update(entries: Seq<Entry>, i: int, e: Entry)
    requires
        unique(entries),
        0 <= i < entries.len(),
        path_of(e) == path_of(entries[i]),
    ensures
        unique(entries.update(i, e)),
        model(entries.update(i, e)) == model(entries).insert(path_of(e), node_of(e)),
{
    let n = entries.update(i, e);
    assert forall|a: int, b: int| 0 <= a < n.len() && 0 <= b < n.len() && a != b implies path_of(#[trigger] n[a]) != path_of(#[trigger] n[b]) by {
        assert(path_of(n[a]) == path_of(entries[a]));
        assert(path_of(n[b]) == path_of(entries[b]));
    }
    let m1 = model(n);
    let m2 = model(entries).insert(path_of(e), node_of(e));
    assert forall|p: PathView| m1.dom().contains(p) <==> m2.dom().contains(p) by {
        if has_path(n, p) {
            let k = choose|k: int| 0 <= k < n.len() && path_of(#[trigger] n[k]) == p;
            assert(path_of(entries[k]) == p);
            assert(has_path(entries, p));
        }
        if has_path(entries, p) {
            let k = choose|k: int| 0 <= k < entries.len() && path_of(#[trigger] entries[k]) == p;
            assert(path_of(n[k]) == p);
            assert(has_path(n, p));
        }
        lemma_model_index(entries, i);
    }
    assert forall|p: PathView| m1.dom().contains(p) implies m1[p] == m2[p] by {
        let k = choose|k: int| 0 <= k < n.len() && path_of(#[trigger] n[k]) == p;
        lemma_model_index(n, k);
        if k != i {
            assert(n[k] == entries[k]);
            lemma_model_index(entries, k);
        }
    }
    assert(m1 =~= m2);
}

proof fn lemma_model_remove(entries: Seq<Entry>, i: int)
    requires
        unique(entries),
        0 <= i < entries.len(),
    ensures
        unique(entries.remove(i)),
        model(entries.remove(i)) == model(entries).remove(path_of(entries[i])),
{
    let n = entries.remove(i);
    assert forall|a: int, b: int| 0 <= a < n.len() && 0 <= b < n.len() && a != b implies path_of(#[trigger] n[a]) != path_of(#[trigger] n[b]) by {
        let a2 = if a < i { a } else { a + 1 };
        let b2 = if b < i { b } else { b + 1 };
        assert(n[a] == entries[a2] && n[b] == entries[b2]);
    }
    let m1 = model(n);
    let m2 = model(entries).remove(path_of(entries[i]));
    assert forall|p: PathView| m1.dom().contains(p) <==> m2.dom().contains(p) by {
        if has_path(n, p) {
            let k = choose|k: int| 0 <= k < n.len() && path_of(#[trigger] n[k]) == p;
            let k2 = if k < i { k } else { k + 1 };
            assert(n[k] == entries[k2]);
            assert(has_path(entries, p));
        }
        if has_path(entries, p) && p != path_of(entries[i]) {
            let k = choose|k: int| 0 <= k < entries.len() && path_of(#[trigger] entries[k]) == p;
            assert(k != i);
            let k2 = if k < i { k } else { k - 1 };
            assert(n[k2] == entries[k]);
            assert(has_path(n, p));
        }
    }
    assert forall|p: PathView| m1.dom().contains(p) implies m1[p] == m2[p] by {
        let k = choose|k: int| 0 <= k < n.len() && path_of(#[trigger] n[k]) == p;
        let k2 = if k < i { k } else { k + 1 };
        assert(n[k] == entries[k2]);
        lemma_model_index(n, k);
        lemma_model_index(entries, k2);
    }
    assert(m1 =~= m2);
}

} // verus!

verus! {

/// What `parts` names in `m`: the root for no components, else its entry.
pub open spec fn node_at(m: Map<PathView, NodeView>, p: PathView) -> NodeView {
    if p.len() == 0 { NodeView::Dir } else { m[p] }
}

/// Walks `parts` from component `i` on, the prefix of length `i` being a
/// node already reached: every prefix passed must be a directory and the next
/// component must exist in it.
pub open spec fn resolve_from(m: Map<PathView, NodeView>, parts: PathView, i: nat) -> Result<NodeView, FsError>
    decreases parts.len() - i,
{
    if i >= parts.len() {
        Ok(node_at(m, parts))
    } else if node_at(m, parts.take(i as int)) is File {
        Err(FsError::NotDirectory)
    } else if !m.dom().contains(parts.take((i + 1) as int)) {
        Err(FsError::NotFound)
    } else {
        resolve_from(m, parts, (i + 1) as nat)
    }
}

/// What `parts` names, walking from the root.
pub open spec fn resolve(m: Map<PathView, NodeView>, parts: PathView) -> Result<NodeView, FsError> {
    resolve_from(m, parts, 0)
}

/// `parts` names a directory, or the error that says why not.
pub open spec fn dir_check(m: Map<PathView, NodeView>, parts: PathView) -> Result<(), FsError> {
    match resolve(m, parts) {
        Ok(NodeView::Dir) => Ok(()),
        Ok(NodeView::File(_)) => Err(FsError::NotDirectory),
        Err(e) => Err(e),
    }
}

/// The components of an absolute path; other paths are invalid.
pub open spec fn parse_path(path: Seq<char>) -> Result<PathView, FsError> {
    if path.len() > 0 && path[0] == '/' {
        Ok(path_parts(path))
    } else {
        Err(FsError::InvalidPath)
    }
}

/// The components of a path that names an entry in an existing directory.
pub open spec fn target(m: Map<PathView, NodeView>, path: Seq<char>) -> Result<PathView, FsError> {
    match parse_path(path) {
        Err(e) => Err(e),
        Ok(parts) => if parts.len() == 0 {
            Err(FsError::InvalidPath)
        } else {
            match dir_check(m, parts.drop_last()) {
                Err(e) => Err(e),
                Ok(_) => Ok(parts),
            }
        },
    }
}

impl RamFs {
    /// The file system as a map from paths to files and directories.
    pub closed spec fn view(&self) -> Map<PathView, NodeView> {
        model(self.entries@)
    }

    /// The invariant: paths are unique and the tree is closed.
    pub closed spec fn wf(&self) -> bool {
        &&& unique(self.entries@)
        &&& tree_closed(model(self.entries@))
        &&& forall|i: int| 0 <= i < self.entries@.len() ==> (#[trigger] self.entries@[i]).path@.len() > 0
    }

    /// A well-formed file system is a closed tree: the root is no entry, and
    /// the parent of every entry is a directory.
    pub proof fn law_wf_tree_closed(&self)
        requires
            self.wf(),
        ensures
            tree_closed(self.view()),
    {
    }

    /// Whether the path of entry `i` is the first `k` components of `parts`.
    fn entry_matches(&self, i: usize, parts: &Vec<Vec<char>>, k: usize) -> (r: bool)
        requires
            i < self.entries@.len(),
            k <= parts@.len(),
        ensures
            r == (path_of(self.entries@[i as int]) == views(parts@).take(k as int)),
    {
        let path = &self.entries[i].path;
        if path.len() != k {
            assert(views(path@).len() != views(parts@).take(k as int).len());
            return false;
        }
        let mut j: usize = 0;
        while j < k
            invariant
                j <= k,
                k <= parts@.len(),
                path@.len() == k,
                path == &self.entries@[i as int].path,
                forall|x: int| 0 <= x < j ==> path@[x]@ == parts@[x]@,
            decreases k - j,
        {
            if !chars_eq(&path[j], &parts[j]) {
                assert(views(path@)[j as int] != views(parts@).take(k as int)[j as int]);
                return false;
            }
            j = j + 1;
        }
        assert(views(path@) =~= views(parts@).take(k as int));
        true
    }

    /// The entry whose path is the first `k` components of `parts`.
    fn find(&self, parts: &Vec<Vec<char>>, k: usize) -> (r: Option<usize>)
        requires
            self.wf(),
            k <= parts@.len(),
        ensures
            match r {
                Some(i) => i < self.entries@.len() && path_of(self.entries@[i as int]) == views(parts@).take(k as int),
                None => !self.view().dom().contains(views(parts@).take(k as int)),
            },
    {
        let mut i: usize = 0;
        while i < self.entries.len()
            invariant
                i <= self.entries@.len(),
                k <= parts@.len(),
                forall|x: int| 0 <= x < i ==> path_of(#[trigger] self.entries@[x]) != views(parts@).take(k as int),
            decreases self.entries@.len() - i,
        {
            if self.entry_matches(i, parts, k) {
                return Some(i);
            }
            i = i + 1;
        }
        None
    }

    /// Walks the first `len` components of `parts`: the entry reached (`None`
    /// for the root), or why the walk fails.
    fn resolve_parts(&self, parts: &Vec<Vec<char>>, len: usize) -> (r: Result<Option<usize>, FsError>)
        requires
            self.wf(),
            len <= parts@.len(),
        ensures
            ({
                let p = views(parts@).take(len as int);
                match r {
                    Ok(None) => len == 0 && resolve(self.view(), p) == Ok::<NodeView, FsError>(NodeView::Dir),
                    Ok(Some(i)) => i < self.entries@.len() && path_of(self.entries@[i as int]) == p
                        && resolve(self.view(), p) == Ok::<NodeView, FsError>(node_of(self.entries@[i as int])),
                    Err(e) => resolve(self.view(), p) == Err::<NodeView, FsError>(e),
                }
            }),
    {
        let ghost p = views(parts@).take(len as int);
        let ghost m = self.view();
        let mut cur: Option<usize> = None;
        let mut i: usize = 0;
        while i < len
            invariant
                self.wf(),
                i <= len,
                len <= parts@.len(),
                p == views(parts@).take(len as int),
                m == self.view(),
                resolve(m, p) == resolve_from(m, p, i as nat),
                match cur {
                    None => i == 0,
                    Some(c) => c < self.entries@.len() && path_of(self.entries@[c as int]) == p.take(i as int)
                        && i > 0,
                },
            decreases len - i,
        {
            proof {
                assert(p.take(i + 1) =~= views(parts@).take(i + 1));
                assert(p.take(i as int).len() == i);
            }
            match cur {
                Some(c) => {
                    proof {
                        lemma_model_index(self.entries@, c as int);
                    }
                    match &self.entries[c].node {
                        Node::File(_) => {
                            return Err(FsError::NotDirectory);
                        },
                        Node::Dir => {},
                    }
                },
                None => {},
            }
            match self.find(parts, i + 1) {
                None => {
                    return Err(FsError::NotFound);
                },
                Some(j) => {
                    cur = Some(j);
                },
            }
            i = i + 1;
        }
        proof {
            assert(p.take(len as int) =~= p);
        }
        match cur {
            None => {},
            Some(c) => {
                proof {
                    lemma_model_index(self.entries@, c as int);
                }
            },
        }
        Ok(cur)
    }

    /// Whether the first `len` components of `parts` name a directory.
    fn check_dir(&self, parts: &Vec<Vec<char>>, len: usize) -> (r: Result<(), FsError>)
        requires
            self.wf(),
            len <= parts@.len(),
        ensures
            r == dir_check(self.view(), views(parts@).take(len as int)),
    {
        match self.resolve_parts(parts, len) {
            Err(e) => Err(e),
            Ok(None) => Ok(()),
            Ok(Some(i)) => match &self.entries[i].node {
                Node::Dir => Ok(()),
                Node::File(_) => Err(FsError::NotDirectory),
            },
        }
    }
}

/// The components of `path` when it is absolute.
fn parse(path: &Vec<char>) -> (r: Result<Vec<Vec<char>>, FsError>)
    ensures
        match r {
            Ok(parts) => parse_path(path@) == Ok::<PathView, FsError>(views(parts@)),
            Err(e) => parse_path(path@) == Err::<PathView, FsError>(e),
        },
{
    if path.len() == 0 || path[0] != '/' {
        return Err(FsError::InvalidPath);
    }
    Ok(split_components(path))
}

} // verus!

verus! {

/// Whether `prefix` is a prefix of `p`: `p` is `prefix` or lies below it.
pub open spec fn under(prefix: PathView, p: PathView) -> bool {
    prefix.len() <= p.len() && p.take(prefix.len() as int) == prefix
}

/// Whether the directory at `p` holds any entry.
pub open spec fn has_children(m: Map<PathView, NodeView>, p: PathView) -> bool {
    exists|q: PathView| #[trigger] m.dom().contains(q) && q.len() == p.len() + 1 && q.take(p.len() as int) == p
}

/// The names of the entries directly inside `p`.
pub open spec fn children(m: Map<PathView, NodeView>, p: PathView) -> Set<Seq<char>> {
    Set::new(|n: Seq<char>| m.dom().contains(p.push(n)))
}

/// `m` without `p` and everything below it.
pub open spec fn prune(m: Map<PathView, NodeView>, p: PathView) -> Map<PathView, NodeView> {
    Map::new(|q: PathView| m.dom().contains(q) && !under(p, q), |q: PathView| m[q])
}

/// The subtree of `m` at `from`, placed at `to`.
pub open spec fn graft(m: Map<PathView, NodeView>, from: PathView, to: PathView) -> Map<PathView, NodeView> {
    Map::new(
        |q: PathView| under(to, q) && m.dom().contains(from + q.skip(to.len() as int)),
        |q: PathView| m[from + q.skip(to.len() as int)],
    )
}

/// Outcome and new state of `mkdir(path)`.
pub open spec fn mkdir_spec(m: Map<PathView, NodeView>, path: Seq<char>) -> (Result<(), FsError>, Map<PathView, NodeView>) {
    match parse_path(path) {
        Err(e) => (Err(e), m),
        Ok(parts) => if parts.len() == 0 {
            (Err(FsError::AlreadyExists), m)
        } else {
            match dir_check(m, parts.drop_last()) {
                Err(e) => (Err(e), m),
                Ok(_) => if m.dom().contains(parts) {
                    (Err(FsError::AlreadyExists), m)
                } else {
                    (Ok(()), m.insert(parts, NodeView::Dir))
                },
            }
        },
    }
}

/// Outcome and new state of `touch(path)`.
pub open spec fn touch_spec(m: Map<PathView, NodeView>, path: Seq<char>) -> (Result<(), FsError>, Map<PathView, NodeView>) {
    match target(m, path) {
        Err(e) => (Err(e), m),
        Ok(parts) => if !m.dom().contains(parts) {
            (Ok(()), m.insert(parts, NodeView::File(Seq::empty())))
        } else if m[parts] is Dir {
            (Err(FsError::IsDirectory), m)
        } else {
            (Ok(()), m)
        },
    }
}

/// Outcome and new state of `write(path, data)`: the file holds `data` alone.
pub open spec fn write_spec(m: Map<PathView, NodeView>, path: Seq<char>, data: Seq<u8>) -> (Result<(), FsError>, Map<PathView, NodeView>) {
    match target(m, path) {
        Err(e) => (Err(e), m),
        Ok(parts) => if m.dom().contains(parts) && m[parts] is Dir {
            (Err(FsError::IsDirectory), m)
        } else {
            (Ok(()), m.insert(parts, NodeView::File(data)))
        },
    }
}

/// Outcome and new state of `append(path, data)`: `data` goes after what the
/// file held; a missing file is created with `data`.
pub open spec fn append_spec(m: Map<PathView, NodeView>, path: Seq<char>, data: Seq<u8>) -> (Result<(), FsError>, Map<PathView, NodeView>) {
    match target(m, path) {
        Err(e) => (Err(e), m),
        Ok(parts) => if !m.dom().contains(parts) {
            (Ok(()), m.insert(parts, NodeView::File(data)))
        } else {
            match m[parts] {
                NodeView::Dir => (Err(FsError::IsDirectory), m),
                NodeView::File(c) => (Ok(()), m.insert(parts, NodeView::File(c + data))),
            }
        },
    }
}

/// What `read(path)` gives back.
pub open spec fn read_spec(m: Map<PathView, NodeView>, path: Seq<char>) -> Result<Seq<u8>, FsError> {
    match parse_path(path) {
        Err(e) => Err(e),
        Ok(parts) => match resolve(m, parts) {
            Err(e) => Err(e),
            Ok(NodeView::File(c)) => Ok(c),
            Ok(NodeView::Dir) => Err(FsError::IsDirectory),
        },
    }
}

/// The directory that `list(path)` lists, or why it cannot.
pub open spec fn list_target(m: Map<PathView, NodeView>, path: Seq<char>) -> Result<PathView, FsError> {
    match parse_path(path) {
        Err(e) => Err(e),
        Ok(parts) => match resolve(m, parts) {
            Err(e) => Err(e),
            Ok(NodeView::File(_)) => Err(FsError::NotDirectory),
            Ok(NodeView::Dir) => Ok(parts),
        },
    }
}

/// Each name comes before the next in code-point order.
pub open spec fn strictly_sorted(s: Seq<Seq<char>>) -> bool {
    forall|a: int, b: int| 0 <= a < b < s.len() ==> lex_lt(#[trigger] s[a], #[trigger] s[b])
}

/// Outcome and new state of `remove(path)`: a file or an empty directory goes.
pub open spec fn remove_spec(m: Map<PathView, NodeView>, path: Seq<char>) -> (Result<(), FsError>, Map<PathView, NodeView>) {
    match target(m, path) {
        Err(e) => (Err(e), m),
        Ok(parts) => if !m.dom().contains(parts) {
            (Err(FsError::NotFound), m)
        } else if m[parts] is Dir && has_children(m, parts) {
            (Err(FsError::DirectoryNotEmpty), m)
        } else {
            (Ok(()), m.remove(parts))
        },
    }
}

/// Outcome and new state of `rename(old, new)`. The subtree at `old` is taken
/// out first; when the place at `new` then turns out unusable, the error comes
/// back and the subtree stays out.
pub open spec fn rename_spec(m: Map<PathView, NodeView>, old: Seq<char>, new: Seq<char>) -> (Result<(), FsError>, Map<PathView, NodeView>) {
    match parse_path(old) {
        Err(e) => (Err(e), m),
        Ok(op) => match parse_path(new) {
            Err(e) => (Err(e), m),
            Ok(np) => if op.len() == 0 || np.len() == 0 {
                (Err(FsError::InvalidPath), m)
            } else {
                match dir_check(m, op.drop_last()) {
                    Err(e) => (Err(e), m),
                    Ok(_) => if !m.dom().contains(op) {
                        (Err(FsError::NotFound), m)
                    } else {
                        let m1 = prune(m, op);
                        match dir_check(m1, np.drop_last()) {
                            Err(e) => (Err(e), m1),
                            Ok(_) => if m1.dom().contains(np) {
                                (Err(FsError::AlreadyExists), m1)
                            } else {
                                (Ok(()), m1.union_prefer_right(graft(m, op, np)))
                            },
                        }
                    },
                }
            },
        },
    }
}

/// Outcome and new state of `copy(src, dst)`: a read of `src`, then a write of
/// what it gave to `dst`.
pub open spec fn copy_spec(m: Map<PathView, NodeView>, src: Seq<char>, dst: Seq<char>) -> (Result<(), FsError>, Map<PathView, NodeView>) {
    match read_spec(m, src) {
        Err(e) => (Err(e), m),
        Ok(data) => write_spec(m, dst, data),
    }
}

proof fn lemma_resolve_from_ok(m: Map<PathView, NodeView>, q: PathView, i: nat, v: NodeView)
    requires
        i <= q.len(),
        q.len() > 0,
        resolve_from(m, q, i) == Ok::<NodeView, FsError>(v),
        i > 0 ==> m.dom().contains(q.take(i as int)),
    ensures
        m.dom().contains(q),
        m[q] == v,
    decreases q.len() - i,
{
    if i >= q.len() {
        assert(q.take(i as int) =~= q);
    } else {
        lemma_resolve_from_ok(m, q, (i + 1) as nat, v);
    }
}

/// A path that resolves below the root is an entry, and resolves to it.
proof fn lemma_resolve_ok(m: Map<PathView, NodeView>, q: PathView)
    requires
        q.len() > 0,
        resolve(m, q) is Ok,
    ensures
        m.dom().contains(q),
        resolve(m, q) == Ok::<NodeView, FsError>(m[q]),
{
    lemma_resolve_from_ok(m, q, 0, resolve(m, q)->Ok_0);
}

proof fn lemma_resolve_child_from(m: Map<PathView, NodeView>, p: PathView, i: nat)
    requires
        p.len() > 0,
        i <= p.len() - 1,
        resolve_from(m, p.drop_last(), i) == Ok::<NodeView, FsError>(NodeView::Dir),
    ensures
        resolve_from(m, p, i) == (if m.dom().contains(p) {
            Ok::<NodeView, FsError>(m[p])
        } else {
            Err::<NodeView, FsError>(FsError::NotFound)
        }),
    decreases p.len() - 1 - i,
{
    let q = p.drop_last();
    assert(p.take(i as int) =~= q.take(i as int));
    if i == p.len() - 1 {
        assert(q.take(i as int) =~= q);
        assert(p.take((i + 1) as int) =~= p);
        if m.dom().contains(p) {
            assert(resolve_from(m, p, (i + 1) as nat) == Ok::<NodeView, FsError>(node_at(m, p)));
        }
    } else {
        assert(p.take((i + 1) as int) =~= q.take((i + 1) as int));
        lemma_resolve_child_from(m, p, (i + 1) as nat);
    }
}

/// Below a directory, a path resolves to its entry, or is not found.
proof fn lemma_resolve_child(m: Map<PathView, NodeView>, p: PathView)
    requires
        p.len() > 0,
        dir_check(m, p.drop_last()) == Ok::<(), FsError>(()),
    ensures
        resolve(m, p) == (if m.dom().contains(p) {
            Ok::<NodeView, FsError>(m[p])
        } else {
            Err::<NodeView, FsError>(FsError::NotFound)
        }),
{
    lemma_resolve_child_from(m, p, 0);
}

/// In a closed tree every entry resolves to itself.
proof fn lemma_resolve_present(m: Map<PathView, NodeView>, p: PathView)
    requires
        tree_closed(m),
        m.dom().contains(p),
    ensures
        p.len() > 0,
        resolve(m, p) == Ok::<NodeView, FsError>(m[p]),
        dir_check(m, p.drop_last()) == Ok::<(), FsError>(()),
    decreases p.len(),
{
    assert(p.len() > 0) by {
        if p.len() == 0 {
            assert(p =~= Seq::<Seq<char>>::empty());
        }
    }
    let q = p.drop_last();
    if p.len() > 1 {
        lemma_resolve_present(m, q);
    } else {
        assert(resolve(m, q) == Ok::<NodeView, FsError>(node_at(m, q)));
    }
    lemma_resolve_child(m, p);
}

/// An entry whose parent is the root or a directory keeps the tree closed.
proof fn lemma_tree_insert(m: Map<PathView, NodeView>, p: PathView, v: NodeView)
    requires
        tree_closed(m),
        p.len() > 0,
        dir_check(m, p.drop_last()) == Ok::<(), FsError>(()),
        v is Dir || !m.dom().contains(p) || m[p] is File,
    ensures
        tree_closed(m.insert(p, v)),
{
    let m2 = m.insert(p, v);
    if p.len() > 1 {
        lemma_resolve_ok(m, p.drop_last());
    }
    assert forall|q: PathView| #[trigger] m2.dom().contains(q) && q.len() > 1 implies m2.dom().contains(q.drop_last())
        && m2[q.drop_last()] is Dir by {
        if q != p {
            assert(m.dom().contains(q));
            if q.drop_last() == p {
                assert(m.dom().contains(p));
            }
        }
    }
}

/// Taking out an entry that has no children keeps the tree closed.
proof fn lemma_tree_remove(m: Map<PathView, NodeView>, p: PathView)
    requires
        tree_closed(m),
        !has_children(m, p),
    ensures
        tree_closed(m.remove(p)),
{
    let m2 = m.remove(p);
    assert forall|q: PathView| #[trigger] m2.dom().contains(q) && q.len() > 1 implies m2.dom().contains(q.drop_last())
        && m2[q.drop_last()] is Dir by {
        if q.drop_last() == p {
            assert(q.take(p.len() as int) =~= q.drop_last());
            assert(m.dom().contains(q) && q.len() == p.len() + 1 && q.take(p.len() as int) == p);
        }
    }
}

} // verus!

verus! {

impl RamFs {
    /// The components of `path` when it names an entry in an existing directory.
    fn target_parts(&self, path: &str) -> (r: Result<Vec<Vec<char>>, FsError>)
        requires
            self.wf(),
        ensures
            match r {
                Ok(parts) => target(self.view(), path@) == Ok::<PathView, FsError>(views(parts@)),
                Err(e) => target(self.view(), path@) == Err::<PathView, FsError>(e),
            },
    {
        let chars = str_chars(path);
        let parts = match parse(&chars) {
            Ok(parts) => parts,
            Err(e) => {
                return Err(e);
            },
        };
        if parts.len() == 0 {
            return Err(FsError::InvalidPath);
        }
        proof {
            assert(views(parts@).take(parts@.len() - 1) =~= views(parts@).drop_last());
        }
        match self.check_dir(&parts, parts.len() - 1) {
            Ok(()) => Ok(parts),
            Err(e) => Err(e),
        }
    }

    /// Stores `node` at `parts`, which names an entry in an existing directory;
    /// an entry already there is replaced.
    fn put(&mut self, parts: Vec<Vec<char>>, node: Node, at: Option<usize>)
        requires
            old(self).wf(),
            views(parts@).len() > 0,
            dir_check(old(self).view(), views(parts@).drop_last()) == Ok::<(), FsError>(()),
            node is Dir || !old(self).view().dom().contains(views(parts@)) || old(self).view()[views(parts@)] is File,
            match at {
                Some(i) => i < old(self).entries@.len() && path_of(old(self).entries@[i as int]) == views(parts@),
                None => !old(self).view().dom().contains(views(parts@)),
            },
        ensures
            final(self).wf(),
            final(self).view() == old(self).view().insert(views(parts@), node_of(Entry { path: parts, node })),
    {
        let ghost m = self.view();
        let ghost p = views(parts@);
        let ghost old_entries = self.entries@;
        let e = Entry { path: parts, node };
        let ghost v = node_of(e);
        proof {
            lemma_tree_insert(m, p, v);
        }
        match at {
            Some(i) => {
                proof {
                    lemma_model_update(old_entries, i as int, e);
                }
                self.entries.set(i, e);
                assert forall|k: int| 0 <= k < self.entries@.len() implies (#[trigger] self.entries@[k]).path@.len() > 0 by {
                    if k != i {
                        assert(self.entries@[k] == old_entries[k]);
                    }
                }
            },
            None => {
                proof {
                    lemma_model_push(old_entries, e);
                }
                self.entries.push(e);
                assert forall|k: int| 0 <= k < self.entries@.len() implies (#[trigger] self.entries@[k]).path@.len() > 0 by {
                    if k < old_entries.len() {
                        assert(self.entries@[k] == old_entries[k]);
                    }
                }
            },
        }
    }

    /// Creates the directory `path`.
    pub fn mkdir(&mut self, path: &str) -> (r: Result<(), FsError>)
        requires
            old(self).wf(),
        ensures
            final(self).wf(),
            (r, final(self).view()) == mkdir_spec(old(self).view(), path@),
    {
        let chars = str_chars(path);
        let parts = match parse(&chars) {
            Ok(parts) => parts,
            Err(e) => {
                return Err(e);
            },
        };
        if parts.len() == 0 {
            return Err(FsError::AlreadyExists);
        }
        proof {
            assert(views(parts@).take(parts@.len() - 1) =~= views(parts@).drop_last());
            assert(views(parts@).take(parts@.len() as int) =~= views(parts@));
        }
        match self.check_dir(&parts, parts.len() - 1) {
            Ok(()) => {},
            Err(e) => {
                return Err(e);
            },
        }
        match self.find(&parts, parts.len()) {
            Some(_) => Err(FsError::AlreadyExists),
            None => {
                self.put(parts, Node::Dir, None);
                Ok(())
            },
        }
    }

    /// Creates an empty file at `path` unless a file is already there.
    pub fn touch(&mut self, path: &str) -> (r: Result<(), FsError>)
        requires
            old(self).wf(),
        ensures
            final(self).wf(),
            (r, final(self).view()) == touch_spec(old(self).view(), path@),
    {
        let parts = match self.target_parts(path) {
            Ok(parts) => parts,
            Err(e) => {
                return Err(e);
            },
        };
        proof {
            assert(views(parts@).take(parts@.len() as int) =~= views(parts@));
        }
        match self.find(&parts, parts.len()) {
            Some(i) => {
                proof {
                    lemma_model_index(self.entries@, i as int);
                }
                match &self.entries[i].node {
                    Node::Dir => Err(FsError::IsDirectory),
                    Node::File(_) => Ok(()),
                }
            },
            None => {
                let empty: Vec<u8> = Vec::new();
                assert(empty@ =~= Seq::<u8>::empty());
                self.put(parts, Node::File(empty), None);
                Ok(())
            },
        }
    }

    /// Makes the file at `path` hold `data`, creating it when missing.
    pub fn write(&mut self, path: &str, data: &[u8]) -> (r: Result<(), FsError>)
        requires
            old(self).wf(),
        ensures
            final(self).wf(),
            (r, final(self).view()) == write_spec(old(self).view(), path@, data@),
    {
        let parts = match self.target_parts(path) {
            Ok(parts) => parts,
            Err(e) => {
                return Err(e);
            },
        };
        proof {
            assert(views(parts@).take(parts@.len() as int) =~= views(parts@));
        }
        let content = vstd::slice::slice_to_vec(data);
        match self.find(&parts, parts.len()) {
            Some(i) => {
                proof {
                    lemma_model_index(self.entries@, i as int);
                }
                match &self.entries[i].node {
                    Node::Dir => {
                        return Err(FsError::IsDirectory);
                    },
                    Node::File(_) => {},
                }
                self.put(parts, Node::File(content), Some(i));
                Ok(())
            },
            None => {
                self.put(parts, Node::File(content), None);
                Ok(())
            },
        }
    }

    /// Adds `data` at the end of the file at `path`, creating it when missing.
    pub fn append(&mut self, path: &str, data: &[u8]) -> (r: Result<(), FsError>)
        requires
            old(self).wf(),
        ensures
            final(self).wf(),
            (r, final(self).view()) == append_spec(old(self).view(), path@, data@),
    {
        let parts = match self.target_parts(path) {
            Ok(parts) => parts,
            Err(e) => {
                return Err(e);
            },
        };
        proof {
            assert(views(parts@).take(parts@.len() as int) =~= views(parts@));
        }
        let mut extra = vstd::slice::slice_to_vec(data);
        match self.find(&parts, parts.len()) {
            Some(i) => {
                proof {
                    lemma_model_index(self.entries@, i as int);
                }
                let mut content = match &self.entries[i].node {
                    Node::Dir => {
                        return Err(FsError::IsDirectory);
                    },
                    Node::File(c) => vstd::slice::slice_to_vec(c.as_slice()),
                };
                content.append(&mut extra);
                self.put(parts, Node::File(content), Some(i));
                Ok(())
            },
            None => {
                self.put(parts, Node::File(extra), None);
                Ok(())
            },
        }
    }

    /// The contents of the file at `path`.
    pub fn read(&self, path: &str) -> (r: Result<Vec<u8>, FsError>)
        requires
            self.wf(),
        ensures
            match r {
                Ok(data) => read_spec(self.view(), path@) == Ok::<Seq<u8>, FsError>(data@),
                Err(e) => read_spec(self.view(), path@) == Err::<Seq<u8>, FsError>(e),
            },
    {
        let chars = str_chars(path);
        let parts = match parse(&chars) {
            Ok(parts) => parts,
            Err(e) => {
                return Err(e);
            },
        };
        proof {
            assert(views(parts@).take(parts@.len() as int) =~= views(parts@));
        }
        match self.resolve_parts(&parts, parts.len()) {
            Err(e) => Err(e),
            Ok(None) => Err(FsError::IsDirectory),
            Ok(Some(i)) => match &self.entries[i].node {
                Node::Dir => Err(FsError::IsDirectory),
                Node::File(c) => Ok(vstd::slice::slice_to_vec(c.as_slice())),
            },
        }
    }

    /// Whether any entry lies directly inside the first `k` components of `parts`.
    fn any_child(&self, parts: &Vec<Vec<char>>, k: usize) -> (r: bool)
        requires
            self.wf(),
            k <= parts@.len(),
        ensures
            r == has_children(self.view(), views(parts@).take(k as int)),
    {
        let ghost p = views(parts@).take(k as int);
        let mut i: usize = 0;
        while i < self.entries.len()
            invariant
                self.wf(),
                i <= self.entries@.len(),
                k <= parts@.len(),
                p == views(parts@).take(k as int),
                forall|x: int| 0 <= x < i ==> !(path_of(#[trigger] self.entries@[x]).len() == k + 1
                    && path_of(self.entries@[x]).take(k as int) == p),
            decreases self.entries@.len() - i,
        {
            let path = &self.entries[i].path;
            if path.len() > k && path.len() - k == 1 && self.prefix_matches(i, parts, k) {
                proof {
                    lemma_model_index(self.entries@, i as int);
                    assert(self.view().dom().contains(path_of(self.entries@[i as int])));
                }
                return true;
            }
            i = i + 1;
        }
        proof {
            if has_children(self.view(), p) {
                let q = choose|q: PathView| #[trigger] self.view().dom().contains(q) && q.len() == p.len() + 1
                    && q.take(p.len() as int) == p;
                let x = choose|x: int| 0 <= x < self.entries@.len() && path_of(#[trigger] self.entries@[x]) == q;
                assert(false);
            }
        }
        false
    }

    /// Whether the first `k` components of entry `i`'s path are those of `parts`.
    fn prefix_matches(&self, i: usize, parts: &Vec<Vec<char>>, k: usize) -> (r: bool)
        requires
            i < self.entries@.len(),
            k <= parts@.len(),
        ensures
            r == under(views(parts@).take(k as int), path_of(self.entries@[i as int])),
    {
        starts_with(&self.entries[i].path, parts, k)
    }

    /// Removes the file or empty directory at `path`.
    pub fn remove(&mut self, path: &str) -> (r: Result<(), FsError>)
        requires
            old(self).wf(),
        ensures
            final(self).wf(),
            (r, final(self).view()) == remove_spec(old(self).view(), path@),
    {
        let parts = match self.target_parts(path) {
            Ok(parts) => parts,
            Err(e) => {
                return Err(e);
            },
        };
        proof {
            assert(views(parts@).take(parts@.len() as int) =~= views(parts@));
        }
        let i = match self.find(&parts, parts.len()) {
            None => {
                return Err(FsError::NotFound);
            },
            Some(i) => i,
        };
        proof {
            lemma_model_index(self.entries@, i as int);
        }
        let is_dir = match &self.entries[i].node {
            Node::Dir => true,
            Node::File(_) => false,
        };
        let ghost m = self.view();
        let ghost p = views(parts@);
        if is_dir && self.any_child(&parts, parts.len()) {
            return Err(FsError::DirectoryNotEmpty);
        }
        proof {
            if !is_dir && has_children(m, p) {
                let q = choose|q: PathView| #[trigger] m.dom().contains(q) && q.len() == p.len() + 1
                    && q.take(p.len() as int) == p;
                assert(q.drop_last() =~= p);
            }
            lemma_tree_remove(m, p);
            lemma_model_remove(self.entries@, i as int);
        }
        let ghost old_entries = self.entries@;
        self.entries.remove(i);
        assert forall|k: int| 0 <= k < self.entries@.len() implies (#[trigger] self.entries@[k]).path@.len() > 0 by {
            if k < i {
                assert(self.entries@[k] == old_entries[k]);
            } else {
                assert(self.entries@[k] == old_entries[k + 1]);
            }
        }
        Ok(())
    }
}

/// Whether `path` begins with the first `k` components of `parts`.
fn starts_with(path: &Vec<Vec<char>>, parts: &Vec<Vec<char>>, k: usize) -> (r: bool)
    requires
        k <= parts@.len(),
    ensures
        r == under(views(parts@).take(k as int), views(path@)),
{
    if path.len() < k {
        return false;
    }
    let mut j: usize = 0;
    while j < k
        invariant
            j <= k,
            k <= parts@.len(),
            k <= path@.len(),
            forall|x: int| 0 <= x < j ==> path@[x]@ == parts@[x]@,
        decreases k - j,
    {
        if !chars_eq(&path[j], &parts[j]) {
            assert(views(path@).take(k as int)[j as int] != views(parts@).take(k as int)[j as int]);
            return false;
        }
        j = j + 1;
    }
    assert(views(path@).take(k as int) =~= views(parts@).take(k as int));
    true
}

/// A copy of `v`.
fn copy_chars(v: &Vec<char>) -> (r: Vec<char>)
    ensures
        r@ == v@,
{
    let mut r: Vec<char> = Vec::new();
    let mut i: usize = 0;
    while i < v.len()
        invariant
            i <= v@.len(),
            r@ == v@.take(i as int),
        decreases v@.len() - i,
    {
        r.push(v[i]);
        i = i + 1;
        assert(r@ =~= v@.take(i as int));
    }
    assert(v@.take(i as int) =~= v@);
    r
}

/// The components `to` followed by those of `path` from `from` on.
fn joined_path(to: &Vec<Vec<char>>, path: &Vec<Vec<char>>, from: usize) -> (r: Vec<Vec<char>>)
    requires
        from <= path@.len(),
    ensures
        views(r@) == views(to@) + views(path@).skip(from as int),
{
    let mut r: Vec<Vec<char>> = Vec::new();
    let mut i: usize = 0;
    while i < to.len()
        invariant
            i <= to@.len(),
            views(r@) == views(to@).take(i as int),
        decreases to@.len() - i,
    {
        let ghost before = views(r@);
        let c = copy_chars(&to[i]);
        r.push(c);
        assert(views(r@) =~= before.push(c@));
        i = i + 1;
        assert(views(to@).take(i as int) =~= views(to@).take(i - 1).push(to@[i - 1]@));
    }
    assert(views(to@).take(i as int) =~= views(to@));
    let mut k: usize = from;
    while k < path.len()
        invariant
            from <= k <= path@.len(),
            views(r@) == views(to@) + views(path@).skip(from as int).take(k - from),
        decreases path@.len() - k,
    {
        let ghost before = views(r@);
        let c = copy_chars(&path[k]);
        r.push(c);
        assert(views(r@) =~= before.push(c@));
        k = k + 1;
        assert(views(path@).skip(from as int).take(k - from) =~= views(path@).skip(from as int).take(k - 1 - from).push(
            path@[k - 1]@));
        assert(views(r@) =~= views(to@) + views(path@).skip(from as int).take(k - from));
    }
    assert(views(path@).skip(from as int).take(k - from) =~= views(path@).skip(from as int));
    r
}

/// Puts `x` into the sorted names `v` at its place.
fn insert_sorted(v: &mut Vec<Vec<char>>, x: Vec<char>)
    requires
        strictly_sorted(views(old(v)@)),
        !views(old(v)@).contains(x@),
    ensures
        strictly_sorted(views(final(v)@)),
        forall|n: Seq<char>| views(final(v)@).contains(n) <==> (views(old(v)@).contains(n) || n == x@),
{
    let ghost s = views(v@);
    let mut j: usize = 0;
    while j < v.len() && !chars_lt(&x, &v[j])
        invariant
            j <= v@.len(),
            s == views(v@),
            !s.contains(x@),
            forall|y: int| 0 <= y < j ==> lex_lt(#[trigger] s[y], x@),
        decreases v@.len() - j,
    {
        proof {
            assert(s[j as int] == v@[j as int]@);
            if s[j as int] != x@ {
                lemma_lex_total(s[j as int], x@);
            } else {
                assert(s.contains(x@));
            }
        }
        j = j + 1;
    }
    let ghost xv = x@;
    v.insert(j, x);
    proof {
        let t = views(v@);
        assert(t =~= s.insert(j as int, xv));
        assert forall|a: int, b: int| 0 <= a < b < t.len() implies lex_lt(#[trigger] t[a], #[trigger] t[b]) by {
            if b < j {
            } else if b == j {
            } else if a < j {
                if j < s.len() {
                    assert(lex_lt(xv, s[j as int]));
                    lemma_lex_transitive(s[a], xv, s[j as int]);
                    if b - 1 > j {
                        lemma_lex_transitive(s[a], s[j as int], s[b - 1]);
                    }
                }
            } else if a == j {
                assert(lex_lt(xv, s[j as int]));
                if b - 1 > j {
                    lemma_lex_transitive(xv, s[j as int], s[b - 1]);
                }
            } else {
                assert(lex_lt(s[a - 1], s[b - 1]));
            }
        }
        assert forall|n: Seq<char>| t.contains(n) <==> (s.contains(n) || n == xv) by {
            if t.contains(n) {
                let k = choose|k: int| 0 <= k < t.len() && t[k] == n;
                if k < j {
                    assert(s[k] == n);
                } else if k > j {
                    assert(s[k - 1] == n);
                }
            }
            if s.contains(n) {
                let k = choose|k: int| 0 <= k < s.len() && s[k] == n;
                if k < j {
                    assert(t[k] == n);
                } else {
                    assert(t[k + 1] == n);
                }
            }
            if n == xv {
                assert(t[j as int] == n);
            }
        }
    }
}

impl RamFs {
    /// The names in the directory at `path`, in code-point order.
    pub fn list(&self, path: &str) -> (r: Result<Vec<String>, FsError>)
        requires
            self.wf(),
        ensures
            match r {
                Ok(names) => {
                    let ns = names@.map_values(|s: String| s@);
                    &&& list_target(self.view(), path@) is Ok
                    &&& strictly_sorted(ns)
                    &&& forall|n: Seq<char>| ns.contains(n) <==> children(self.view(), list_target(self.view(), path@)->Ok_0).contains(n)
                },
                Err(e) => list_target(self.view(), path@) == Err::<PathView, FsError>(e),
            },
    {
        let chars = str_chars(path);
        let parts = match parse(&chars) {
            Ok(parts) => parts,
            Err(e) => {
                return Err(e);
            },
        };
        let k = parts.len();
        proof {
            assert(views(parts@).take(k as int) =~= views(parts@));
        }
        match self.resolve_parts(&parts, k) {
            Err(e) => {
                return Err(e);
            },
            Ok(None) => {},
            Ok(Some(i)) => match &self.entries[i].node {
                Node::Dir => {},
                Node::File(_) => {
                    return Err(FsError::NotDirectory);
                },
            },
        }
        let ghost p = views(parts@);
        let ghost m = self.view();
        let mut names: Vec<Vec<char>> = Vec::new();
        let mut i: usize = 0;
        while i < self.entries.len()
            invariant
                self.wf(),
                m == self.view(),
                i <= self.entries@.len(),
                k == parts@.len(),
                p == views(parts@),
                strictly_sorted(views(names@)),
                forall|n: Seq<char>| views(names@).contains(n) <==> exists|x: int| 0 <= x < i && path_of(
                    #[trigger] self.entries@[x]) == p.push(n),
            decreases self.entries@.len() - i,
        {
            let path = &self.entries[i].path;
            if path.len() > k && path.len() - k == 1 && self.prefix_matches(i, &parts, k) {
                let name = copy_chars(&path[k]);
                proof {
                    assert(views(parts@).take(k as int) =~= p);
                    assert(path_of(self.entries@[i as int]) =~= p.push(name@));
                    if views(names@).contains(name@) {
                        let x = choose|x: int| 0 <= x < i && path_of(#[trigger] self.entries@[x]) == p.push(name@);
                        assert(false);
                    }
                }
                let ghost before = views(names@);
                insert_sorted(&mut names, name);
                proof {
                    assert forall|n: Seq<char>| views(names@).contains(n) <==> exists|x: int| 0 <= x < i + 1 && path_of(
                        #[trigger] self.entries@[x]) == p.push(n) by {
                        if n == name@ {
                            assert(path_of(self.entries@[i as int]) == p.push(n));
                        }
                        if exists|x: int| 0 <= x < i + 1 && path_of(#[trigger] self.entries@[x]) == p.push(n) {
                            let x = choose|x: int| 0 <= x < i + 1 && path_of(#[trigger] self.entries@[x]) == p.push(n);
                            if x == i {
                                assert(p.push(n).last() == n);
                                assert(p.push(name@).last() == name@);
                            } else {
                                assert(before.contains(n));
                            }
                        }
                    }
                }
            } else {
                proof {
                    assert(views(parts@).take(k as int) =~= p);
                    assert forall|n: Seq<char>| views(names@).contains(n) <==> exists|x: int| 0 <= x < i + 1 && path_of(
                        #[trigger] self.entries@[x]) == p.push(n) by {
                        if exists|x: int| 0 <= x < i + 1 && path_of(#[trigger] self.entries@[x]) == p.push(n) {
                            let x = choose|x: int| 0 <= x < i + 1 && path_of(#[trigger] self.entries@[x]) == p.push(n);
                            if x == i {
                                assert(p.push(n).take(k as int) =~= p);
                            }
                        }
                    }
                }
            }
            i = i + 1;
        }
        proof {
            assert(list_target(m, path@) == Ok::<PathView, FsError>(p));
            assert forall|n: Seq<char>| views(names@).contains(n) <==> children(m, p).contains(n) by {
                if m.dom().contains(p.push(n)) {
                    let x = choose|x: int| 0 <= x < self.entries@.len() && path_of(#[trigger] self.entries@[x]) == p.push(n);
                }
                if exists|x: int| 0 <= x < self.entries@.len() && path_of(#[trigger] self.entries@[x]) == p.push(n) {
                    let x = choose|x: int| 0 <= x < self.entries@.len() && path_of(#[trigger] self.entries@[x]) == p.push(n);
                    lemma_model_index(self.entries@, x);
                }
            }
        }
        let mut out: Vec<String> = Vec::new();
        let mut j: usize = 0;
        while j < names.len()
            invariant
                j <= names@.len(),
                out@.map_values(|s: String| s@) == views(names@).take(j as int),
            decreases names@.len() - j,
        {
            let ghost before = out@.map_values(|s: String| s@);
            let s = string_from_chars(&names[j]);
            out.push(s);
            assert(out@.map_values(|s: String| s@) =~= before.push(s@));
            j = j + 1;
            assert(views(names@).take(j as int) =~= views(names@).take(j - 1).push(names@[j - 1]@));
        }
        assert(views(names@).take(j as int) =~= views(names@));
        Ok(out)
    }
}

/// The part of `m` at and below `p`.
spec fn subtree(m: Map<PathView, NodeView>, p: PathView) -> Map<PathView, NodeView> {
    Map::new(|q: PathView| m.dom().contains(q) && under(p, q), |q: PathView| m[q])
}

proof fn lemma_under_parent(a: PathView, q: PathView)
    requires
        q.len() > 0,
        under(a, q.drop_last()),
    ensures
        under(a, q),
{
    assert(q.drop_last().take(a.len() as int) =~= q.take(a.len() as int));
}

/// In a closed tree nothing lies below a path that is not there.
proof fn lemma_no_descendants(m: Map<PathView, NodeView>, a: PathView, q: PathView)
    requires
        tree_closed(m),
        a.len() > 0,
        !m.dom().contains(a),
        under(a, q),
    ensures
        !m.dom().contains(q),
    decreases q.len(),
{
    if q.len() == a.len() {
        assert(q =~= q.take(a.len() as int));
    } else {
        assert(q.drop_last().take(a.len() as int) =~= q.take(a.len() as int));
        lemma_no_descendants(m, a, q.drop_last());
    }
}

proof fn lemma_tree_prune(m: Map<PathView, NodeView>, p: PathView)
    requires
        tree_closed(m),
    ensures
        tree_closed(prune(m, p)),
{
    let m1 = prune(m, p);
    assert forall|q: PathView| #[trigger] m1.dom().contains(q) && q.len() > 1 implies m1.dom().contains(q.drop_last())
        && m1[q.drop_last()] is Dir by {
        if under(p, q.drop_last()) {
            lemma_under_parent(p, q);
        }
    }
}

proof fn lemma_graft_parts(n: PathView, p: PathView, q: PathView)
    requires
        under(n, q),
    ensures
        q =~= n + q.skip(n.len() as int),
        (p + q.skip(n.len() as int)).len() == p.len() + q.len() - n.len(),
        (p + q.skip(n.len() as int)).skip(p.len() as int) =~= q.skip(n.len() as int),
        (p + q.skip(n.len() as int)).take(p.len() as int) =~= p,
{
    assert(q =~= q.take(n.len() as int) + q.skip(n.len() as int));
}

/// The tree stays closed when a subtree moves to a free place below a directory.
proof fn lemma_tree_graft(m: Map<PathView, NodeView>, p: PathView, n: PathView)
    requires
        tree_closed(m),
        p.len() > 0,
        n.len() > 0,
        dir_check(prune(m, p), n.drop_last()) == Ok::<(), FsError>(()),
        !prune(m, p).dom().contains(n),
    ensures
        tree_closed(prune(m, p).union_prefer_right(graft(m, p, n))),
{
    let m1 = prune(m, p);
    let g = graft(m, p, n);
    let m2 = m1.union_prefer_right(g);
    lemma_tree_prune(m, p);
    if n.len() > 1 {
        lemma_resolve_ok(m1, n.drop_last());
    }
    assert(!m2.dom().contains(Seq::empty()));
    assert forall|q: PathView| #[trigger] m2.dom().contains(q) && q.len() > 1 implies m2.dom().contains(q.drop_last())
        && m2[q.drop_last()] is Dir by {
        let par = q.drop_last();
        if g.dom().contains(q) {
            let s = q.skip(n.len() as int);
            lemma_graft_parts(n, p, q);
            if s.len() == 0 {
                assert(q =~= n);
                assert(!under(n, par));
                assert(!g.dom().contains(par));
            } else {
                let src = p + s;
                assert(m.dom().contains(src));
                assert(src.drop_last() =~= p + s.drop_last());
                assert(par.take(n.len() as int) =~= q.take(n.len() as int));
                assert(par.skip(n.len() as int) =~= s.drop_last());
                assert(g.dom().contains(par));
            }
        } else {
            assert(m1.dom().contains(q));
            if g.dom().contains(par) {
                lemma_under_parent(n, q);
                lemma_no_descendants(m1, n, q);
            }
        }
    }
}

/// Moving one entry of the subtree: the grafted map loses exactly its new place.
proof fn lemma_graft_step(mm: Map<PathView, NodeView>, p: PathView, n: PathView, q: PathView)
    requires
        under(p, q),
        mm.dom().contains(q),
    ensures
        graft(mm, p, n).dom().contains(n + q.skip(p.len() as int)),
        graft(mm, p, n)[n + q.skip(p.len() as int)] == mm[q],
        graft(mm.remove(q), p, n) == graft(mm, p, n).remove(n + q.skip(p.len() as int)),
{
    let t = q.skip(p.len() as int);
    let q2 = n + t;
    assert(q2.take(n.len() as int) =~= n);
    assert(q2.skip(n.len() as int) =~= t);
    lemma_graft_parts(p, n, q);
    let g1 = graft(mm.remove(q), p, n);
    let g2 = graft(mm, p, n).remove(q2);
    assert forall|r: PathView| g1.dom().contains(r) <==> g2.dom().contains(r) by {
        if under(n, r) {
            lemma_graft_parts(n, p, r);
            if p + r.skip(n.len() as int) == q {
                assert(r.skip(n.len() as int) =~= (p + r.skip(n.len() as int)).skip(p.len() as int));
                assert(r =~= q2);
            }
            if r == q2 {
                assert(p + r.skip(n.len() as int) =~= q);
            }
        }
    }
    assert(g1 =~= g2);
}

impl RamFs {
    /// Takes out the entries at and below the first components `parts`,
    /// returning them.
    fn take_subtree(&mut self, parts: &Vec<Vec<char>>) -> (moved: Vec<Entry>)
        requires
            old(self).wf(),
        ensures
            final(self).wf(),
            final(self).view() == prune(old(self).view(), views(parts@)),
            unique(moved@),
            model(moved@) == subtree(old(self).view(), views(parts@)),
            forall|y: int| 0 <= y < moved@.len() ==> (#[trigger] moved@[y]).path@.len() > 0,
    {
        let ghost m = self.view();
        let ghost p = views(parts@);
        let mut moved: Vec<Entry> = Vec::new();
        let mut i: usize = 0;
        proof {
            assert(model(moved@) =~= Map::<PathView, NodeView>::empty());
            assert(model(self.entries@).union_prefer_right(model(moved@)) =~= m);
            lemma_tree_prune(m, p);
        }
        while i < self.entries.len()
            invariant
                i <= self.entries@.len(),
                p == views(parts@),
                tree_closed(m),
                unique(self.entries@),
                unique(moved@),
                forall|x: int| 0 <= x < i ==> !under(p, path_of(#[trigger] self.entries@[x])),
                forall|q: PathView| #[trigger] model(moved@).dom().contains(q) ==> under(p, q),
                forall|q: PathView| !(#[trigger] model(self.entries@).dom().contains(q) && model(moved@).dom().contains(q)),
                model(self.entries@).union_prefer_right(model(moved@)) == m,
                forall|x: int| 0 <= x < self.entries@.len() ==> (#[trigger] self.entries@[x]).path@.len() > 0,
                forall|y: int| 0 <= y < moved@.len() ==> (#[trigger] moved@[y]).path@.len() > 0,
            decreases self.entries@.len() - i,
        {
            if self.prefix_matches(i, parts, parts.len()) {
                let ghost es = self.entries@;
                let ghost ms = moved@;
                let ghost q = path_of(es[i as int]);
                proof {
                    assert(views(parts@).take(parts@.len() as int) =~= p);
                    lemma_model_index(es, i as int);
                    lemma_model_remove(es, i as int);
                }
                let e = self.entries.remove(i);
                proof {
                    lemma_model_push(ms, e);
                }
                moved.push(e);
                proof {
                    let a = model(es);
                    let b = model(ms);
                    assert(model(self.entries@) == a.remove(q));
                    assert(model(moved@) == b.insert(q, node_of(e)));
                    assert(model(self.entries@).union_prefer_right(model(moved@)) =~= a.union_prefer_right(b));
                    assert forall|x: int| 0 <= x < i implies !under(p, path_of(#[trigger] self.entries@[x])) by {
                        assert(self.entries@[x] == es[x]);
                    }
                    assert forall|x: int| 0 <= x < self.entries@.len() implies (#[trigger] self.entries@[x]).path@.len() > 0 by {
                        if x < i {
                            assert(self.entries@[x] == es[x]);
                        } else {
                            assert(self.entries@[x] == es[x + 1]);
                        }
                    }
                    assert forall|y: int| 0 <= y < moved@.len() implies (#[trigger] moved@[y]).path@.len() > 0 by {
                        if y < ms.len() {
                            assert(moved@[y] == ms[y]);
                        }
                    }
                }
            } else {
                proof {
                    assert(views(parts@).take(parts@.len() as int) =~= p);
                }
                i = i + 1;
            }
        }
        proof {
            let a = model(self.entries@);
            let b = model(moved@);
            assert forall|q: PathView| #[trigger] a.dom().contains(q) implies !under(p, q) by {
                let x = choose|x: int| 0 <= x < self.entries@.len() && path_of(#[trigger] self.entries@[x]) == q;
            }
            assert(a =~= prune(m, p));
            assert(b =~= subtree(m, p));
        }
        moved
    }

    /// Puts the taken-out entries `moved`, which were at `from` in `m`, at `to`.
    fn graft_entries(&mut self, moved: Vec<Entry>, from: &Vec<Vec<char>>, to: &Vec<Vec<char>>, Ghost(m): Ghost<Map<PathView, NodeView>>)
        requires
            old(self).wf(),
            tree_closed(m),
            views(from@).len() > 0,
            views(to@).len() > 0,
            old(self).view() == prune(m, views(from@)),
            unique(moved@),
            model(moved@) == subtree(m, views(from@)),
            forall|y: int| 0 <= y < moved@.len() ==> (#[trigger] moved@[y]).path@.len() > 0,
            dir_check(prune(m, views(from@)), views(to@).drop_last()) == Ok::<(), FsError>(()),
            !prune(m, views(from@)).dom().contains(views(to@)),
        ensures
            final(self).wf(),
            final(self).view() == prune(m, views(from@)).union_prefer_right(graft(m, views(from@), views(to@))),
    {
        let ghost p = views(from@);
        let ghost n = views(to@);
        let ghost target_map = prune(m, p).union_prefer_right(graft(m, p, n));
        let mut moved = moved;
        proof {
            lemma_tree_prune(m, p);
            lemma_tree_graft(m, p, n);
            assert(graft(model(moved@), p, n) =~= graft(m, p, n)) by {
                assert forall|q: PathView| #[trigger] graft(m, p, n).dom().contains(q) implies graft(model(moved@), p, n).dom().contains(q) by {
                    lemma_graft_parts(n, p, q);
                }
            }
            assert forall|q: PathView| !(#[trigger] model(self.entries@).dom().contains(q) && graft(model(moved@), p, n).dom().contains(q)) by {
                if graft(model(moved@), p, n).dom().contains(q) {
                    lemma_no_descendants(prune(m, p), n, q);
                }
            }
        }
        while moved.len() > 0
            invariant
                p == views(from@),
                n == views(to@),
                p.len() > 0,
                n.len() > 0,
                unique(self.entries@),
                unique(moved@),
                forall|q: PathView| #[trigger] model(moved@).dom().contains(q) ==> under(p, q),
                forall|q: PathView| !(#[trigger] model(self.entries@).dom().contains(q) && graft(model(moved@), p, n).dom().contains(q)),
                model(self.entries@).union_prefer_right(graft(model(moved@), p, n)) == target_map,
                forall|x: int| 0 <= x < self.entries@.len() ==> (#[trigger] self.entries@[x]).path@.len() > 0,
                forall|y: int| 0 <= y < moved@.len() ==> (#[trigger] moved@[y]).path@.len() > 0,
            decreases moved@.len(),
        {
            let ghost es = self.entries@;
            let ghost ms = moved@;
            let last = moved.len() - 1;
            let ghost q = path_of(ms[last as int]);
            proof {
                lemma_model_index(ms, last as int);
                lemma_model_remove(ms, last as int);
            }
            let e = moved.remove(last);
            let Entry { path, node } = e;
            proof {
                assert(under(p, q));
                assert(path@.len() >= from@.len());
            }
            let new_path = joined_path(to, &path, from.len());
            let ne = Entry { path: new_path, node };
            let ghost q2 = path_of(ne);
            proof {
                assert(q2 == n + q.skip(p.len() as int));
                lemma_graft_step(model(ms), p, n, q);
                lemma_model_push(es, ne);
            }
            self.entries.push(ne);
            proof {
                let a = model(es);
                let g = graft(model(ms), p, n);
                assert(node_of(ne) == node_of(ms[last as int]));
                assert(model(self.entries@) == a.insert(q2, node_of(ne)));
                assert(graft(model(moved@), p, n) == g.remove(q2));
                assert(model(self.entries@).union_prefer_right(graft(model(moved@), p, n)) =~= a.union_prefer_right(g));
                assert forall|x: int| 0 <= x < self.entries@.len() implies (#[trigger] self.entries@[x]).path@.len() > 0 by {
                    if x < es.len() {
                        assert(self.entries@[x] == es[x]);
                    } else {
                        assert(self.entries@[x] == ne);
                        assert(q2.len() >= n.len());
                        assert(views(ne.path@).len() == ne.path@.len());
                    }
                }
                assert forall|y: int| 0 <= y < moved@.len() implies (#[trigger] moved@[y]).path@.len() > 0 by {
                    assert(moved@[y] == ms[y]);
                }
            }
        }
        proof {
            assert(model(moved@) =~= Map::<PathView, NodeView>::empty());
            assert(graft(model(moved@), p, n) =~= Map::<PathView, NodeView>::empty());
            assert(model(self.entries@) =~= target_map);
        }
    }

    /// Moves the file or directory at `from` to `to`.
    pub fn rename(&mut self, from: &str, to: &str) -> (r: Result<(), FsError>)
        requires
            old(self).wf(),
        ensures
            final(self).wf(),
            (r, final(self).view()) == rename_spec(old(self).view(), from@, to@),
    {
        let ghost m = self.view();
        let oc = str_chars(from);
        let op = match parse(&oc) {
            Ok(parts) => parts,
            Err(e) => {
                return Err(e);
            },
        };
        let nc = str_chars(to);
        let np = match parse(&nc) {
            Ok(parts) => parts,
            Err(e) => {
                return Err(e);
            },
        };
        if op.len() == 0 || np.len() == 0 {
            return Err(FsError::InvalidPath);
        }
        proof {
            assert(views(op@).take(op@.len() - 1) =~= views(op@).drop_last());
            assert(views(op@).take(op@.len() as int) =~= views(op@));
            assert(views(np@).take(np@.len() - 1) =~= views(np@).drop_last());
            assert(views(np@).take(np@.len() as int) =~= views(np@));
        }
        match self.check_dir(&op, op.len() - 1) {
            Ok(()) => {},
            Err(e) => {
                return Err(e);
            },
        }
        if self.find(&op, op.len()).is_none() {
            return Err(FsError::NotFound);
        }
        let moved = self.take_subtree(&op);
        match self.check_dir(&np, np.len() - 1) {
            Ok(()) => {},
            Err(e) => {
                return Err(e);
            },
        }
        if self.find(&np, np.len()).is_some() {
            return Err(FsError::AlreadyExists);
        }
        self.graft_entries(moved, &op, &np, Ghost(m));
        Ok(())
    }

    /// Writes what the file at `src` holds to `dst`.
    pub fn copy(&mut self, src: &str, dst: &str) -> (r: Result<(), FsError>)
        requires
            old(self).wf(),
        ensures
            final(self).wf(),
            (r, final(self).view()) == copy_spec(old(self).view(), src@, dst@),
    {
        let data = match self.read(src) {
            Ok(data) => data,
            Err(e) => {
                return Err(e);
            },
        };
        self.write(dst, data.as_slice())
    }
}

/// The tree of a fresh file system: the empty directories `/bin`, `/lib`,
/// `/home` and `/tmp`.
pub open spec fn initial_tree() -> Map<PathView, NodeView> {
    map![
        seq![seq!['b', 'i', 'n']] => NodeView::Dir,
        seq![seq!['l', 'i', 'b']] => NodeView::Dir,
        seq![seq!['h', 'o', 'm', 'e']] => NodeView::Dir,
        seq![seq!['t', 'm', 'p']] => NodeView::Dir,
    ]
}

impl RamFs {
    /// Adds the empty directory `name` to the root.
    fn add_top_dir(&mut self, name: Vec<char>)
        requires
            old(self).wf(),
            !old(self).view().dom().contains(seq![name@]),
        ensures
            final(self).wf(),
            final(self).view() == old(self).view().insert(seq![name@], NodeView::Dir),
    {
        let ghost nv = name@;
        let mut parts: Vec<Vec<char>> = Vec::new();
        parts.push(name);
        proof {
            assert(views(parts@) =~= seq![nv]);
            assert(views(parts@).drop_last() =~= Seq::<Seq<char>>::empty());
            assert(resolve(self.view(), Seq::<Seq<char>>::empty()) == Ok::<NodeView, FsError>(NodeView::Dir));
        }
        self.put(parts, Node::Dir, None);
    }

    /// A file system holding the directories `/bin`, `/lib`, `/home` and `/tmp`.
    pub fn new() -> (fs: Self)
        ensures
            fs.wf(),
            fs.view() == initial_tree(),
    {
        let mut fs = RamFs { entries: Vec::new() };
        proof {
            assert(model(fs.entries@) =~= Map::<PathView, NodeView>::empty());
        }
        let ghost bin = seq![seq!['b', 'i', 'n']];
        let ghost lib = seq![seq!['l', 'i', 'b']];
        let ghost home = seq![seq!['h', 'o', 'm', 'e']];
        let ghost tmp = seq![seq!['t', 'm', 'p']];
        let mut name: Vec<char> = Vec::new();
        name.push('b');
        name.push('i');
        name.push('n');
        assert(name@ =~= seq!['b', 'i', 'n']);
        assert(seq![name@] =~= bin);
        fs.add_top_dir(name);
        let mut name: Vec<char> = Vec::new();
        name.push('l');
        name.push('i');
        name.push('b');
        assert(name@ =~= seq!['l', 'i', 'b']);
        assert(seq![name@] =~= lib);
        assert(bin[0][0] != lib[0][0]);
        fs.add_top_dir(name);
        let mut name: Vec<char> = Vec::new();
        name.push('h');
        name.push('o');
        name.push('m');
        name.push('e');
        assert(name@ =~= seq!['h', 'o', 'm', 'e']);
        assert(seq![name@] =~= home);
        assert(bin[0].len() != home[0].len() && lib[0].len() != home[0].len());
        fs.add_top_dir(name);
        let mut name: Vec<char> = Vec::new();
        name.push('t');
        name.push('m');
        name.push('p');
        assert(name@ =~= seq!['t', 'm', 'p']);
        assert(seq![name@] =~= tmp);
        assert(bin[0][0] != tmp[0][0] && lib[0][0] != tmp[0][0] && home[0].len() != tmp[0].len());
        fs.add_top_dir(name);
        assert(fs.view() =~= initial_tree());
        fs
    }
}

impl Default for RamFs {
    fn default() -> (fs: Self)
        ensures
            fs.wf(),
            fs.view() == initial_tree(),
    {
        RamFs::new()
    }
}

/// A fresh file system is a closed tree.
pub proof fn law_initial_tree_closed()
    ensures
        tree_closed(initial_tree()),
{
    let m = initial_tree();
    assert forall|q: PathView| #[trigger] m.dom().contains(q) && q.len() > 1 implies m.dom().contains(q.drop_last())
        && m[q.drop_last()] is Dir by {
    }
    assert(!m.dom().contains(Seq::empty())) by {
        if m.dom().contains(Seq::<Seq<char>>::empty()) {
            assert(seq![seq!['b', 'i', 'n']].len() == 1);
        }
    }
}

/// Reading a file gives back exactly what was last written to it.
pub proof fn law_read_after_write(m: Map<PathView, NodeView>, path: Seq<char>, data: Seq<u8>)
    requires
        tree_closed(m),
        write_spec(m, path, data).0 is Ok,
    ensures
        tree_closed(write_spec(m, path, data).1),
        read_spec(write_spec(m, path, data).1, path) == Ok::<Seq<u8>, FsError>(data),
{
    let parts = target(m, path)->Ok_0;
    let v = NodeView::File(data);
    lemma_tree_insert(m, parts, v);
    lemma_resolve_present(m.insert(parts, v), parts);
}

/// Appending to a file that was written gives the written bytes followed by
/// the appended ones.
pub proof fn law_append_after_write(m: Map<PathView, NodeView>, path: Seq<char>, first: Seq<u8>, more: Seq<u8>)
    requires
        tree_closed(m),
        write_spec(m, path, first).0 is Ok,
    ensures
        append_spec(write_spec(m, path, first).1, path, more).0 is Ok,
        read_spec(append_spec(write_spec(m, path, first).1, path, more).1, path) == Ok::<Seq<u8>, FsError>(first + more),
{
    let parts = target(m, path)->Ok_0;
    let m1 = write_spec(m, path, first).1;
    lemma_tree_insert(m, parts, NodeView::File(first));
    lemma_resolve_present(m1, parts);
    assert(target(m1, path) == Ok::<PathView, FsError>(parts));
    let m2 = m1.insert(parts, NodeView::File(first + more));
    lemma_tree_insert(m1, parts, NodeView::File(first + more));
    lemma_resolve_present(m2, parts);
}

/// Copying a file makes the destination read as the source did.
pub proof fn law_copy_reads_same(m: Map<PathView, NodeView>, src: Seq<char>, dst: Seq<char>)
    requires
        tree_closed(m),
        copy_spec(m, src, dst).0 is Ok,
    ensures
        read_spec(copy_spec(m, src, dst).1, dst) == read_spec(m, src),
{
    law_read_after_write(m, dst, read_spec(m, src)->Ok_0);
}

/// After a file or directory is removed, reading its path finds nothing.
pub proof fn law_remove_then_not_found(m: Map<PathView, NodeView>, path: Seq<char>)
    requires
        tree_closed(m),
        remove_spec(m, path).0 is Ok,
    ensures
        tree_closed(remove_spec(m, path).1),
        read_spec(remove_spec(m, path).1, path) == Err::<Seq<u8>, FsError>(FsError::NotFound),
{
    let parts = target(m, path)->Ok_0;
    let m2 = m.remove(parts);
    if has_children(m, parts) {
        let q = choose|q: PathView| #[trigger] m.dom().contains(q) && q.len() == parts.len() + 1 && q.take(parts.len() as int) == parts;
        assert(q.drop_last() =~= parts);
    }
    lemma_tree_remove(m, parts);
    let par = parts.drop_last();
    if par.len() > 0 {
        lemma_resolve_ok(m, par);
        lemma_resolve_present(m2, par);
    } else {
        assert(resolve(m2, par) == Ok::<NodeView, FsError>(NodeView::Dir));
    }
    lemma_resolve_child(m2, parts);
}

/// A directory that was made cannot be made again.
pub proof fn law_mkdir_twice(m: Map<PathView, NodeView>, path: Seq<char>)
    requires
        tree_closed(m),
        mkdir_spec(m, path).0 is Ok,
    ensures
        mkdir_spec(mkdir_spec(m, path).1, path) == (Err::<(), FsError>(FsError::AlreadyExists), mkdir_spec(m, path).1),
{
    let parts = parse_path(path)->Ok_0;
    lemma_tree_insert(m, parts, NodeView::Dir);
    lemma_resolve_present(m.insert(parts, NodeView::Dir), parts);
}

/// Touching a path leaves a file there: an existing file reads as before,
/// and a new one reads as empty.
pub proof fn law_touch_reads(m: Map<PathView, NodeView>, path: Seq<char>)
    requires
        tree_closed(m),
        touch_spec(m, path).0 is Ok,
    ensures
        tree_closed(touch_spec(m, path).1),
        read_spec(touch_spec(m, path).1, path) == (match read_spec(m, path) {
            Ok(d) => Ok::<Seq<u8>, FsError>(d),
            Err(_) => Ok::<Seq<u8>, FsError>(Seq::empty()),
        }),
{
    let parts = target(m, path)->Ok_0;
    lemma_resolve_child(m, parts);
    if !m.dom().contains(parts) {
        let m1 = m.insert(parts, NodeView::File(Seq::empty()));
        lemma_tree_insert(m, parts, NodeView::File(Seq::empty()));
        lemma_resolve_present(m1, parts);
    }
}

/// Touching a path twice changes nothing the second time.
pub proof fn law_touch_idempotent(m: Map<PathView, NodeView>, path: Seq<char>)
    requires
        tree_closed(m),
        touch_spec(m, path).0 is Ok,
    ensures
        touch_spec(touch_spec(m, path).1, path) == (Ok::<(), FsError>(()), touch_spec(m, path).1),
{
    let parts = target(m, path)->Ok_0;
    if !m.dom().contains(parts) {
        let m1 = m.insert(parts, NodeView::File(Seq::empty()));
        lemma_tree_insert(m, parts, NodeView::File(Seq::empty()));
        lemma_resolve_present(m1, parts);
    }
}

/// A rename carries what was at the old path to the new one.
pub proof fn law_rename_moves(m: Map<PathView, NodeView>, from: Seq<char>, to: Seq<char>)
    requires
        tree_closed(m),
        rename_spec(m, from, to).0 is Ok,
    ensures
        tree_closed(rename_spec(m, from, to).1),
        read_spec(rename_spec(m, from, to).1, to) == read_spec(m, from),
        parse_path(from) != parse_path(to) ==> read_spec(rename_spec(m, from, to).1, from) == Err::<Seq<u8>, FsError>(
            FsError::NotFound),
{
    let p = parse_path(from)->Ok_0;
    let n = parse_path(to)->Ok_0;
    let m1 = prune(m, p);
    let g = graft(m, p, n);
    let m2 = m1.union_prefer_right(g);
    lemma_tree_graft(m, p, n);
    lemma_resolve_present(m, p);
    assert(n.take(n.len() as int) =~= n);
    assert(n.skip(n.len() as int) =~= Seq::<Seq<char>>::empty());
    assert(p + Seq::<Seq<char>>::empty() =~= p);
    assert(g.dom().contains(n));
    lemma_resolve_present(m2, n);
    if p != n {
        assert(!m1.dom().contains(p)) by {
            assert(p.take(p.len() as int) =~= p);
        }
        assert(!g.dom().contains(p)) by {
            if g.dom().contains(p) {
                let s = p.skip(n.len() as int);
                lemma_graft_parts(n, p, p);
                if s.len() == 0 {
                    assert(p =~= n);
                } else {
                    assert(under(n, p));
                    let k = n.len();
                    assert(k < p.len());
                    lemma_resolve_present(m, p);
                    lemma_ancestor_present(m, p, k as nat);
                    assert(p.take(k as int) == n);
                    assert(!under(p, n));
                    assert(m1.dom().contains(n));
                }
            }
        }
        let par = p.drop_last();
        if par.len() > 0 {
            lemma_resolve_ok(m, par);
            assert(!under(p, par));
            assert(m1.dom().contains(par));
            assert(!g.dom().contains(par)) by {
                if g.dom().contains(par) {
                    lemma_under_parent(n, p);
                    let k = n.len();
                    lemma_ancestor_present(m, p, k as nat);
                    assert(p.take(k as int) =~= n);
                    if n == p {
                    } else {
                        assert(!under(p, n));
                        assert(m1.dom().contains(n));
                    }
                }
            }
            lemma_resolve_present(m2, par);
        } else {
            assert(resolve(m2, par) == Ok::<NodeView, FsError>(NodeView::Dir));
        }
        lemma_resolve_child(m2, p);
    }
}

/// Every proper prefix of an entry in a closed tree is an entry too.
proof fn lemma_ancestor_present(m: Map<PathView, NodeView>, p: PathView, k: nat)
    requires
        tree_closed(m),
        m.dom().contains(p),
        0 < k <= p.len(),
    ensures
        m.dom().contains(p.take(k as int)),
    decreases p.len() - k,
{
    if k == p.len() {
        assert(p.take(k as int) =~= p);
    } else {
        lemma_resolve_present(m, p);
        assert(p.len() > 1);
        let q = p.drop_last();
        assert(q.take(k as int) =~= p.take(k as int));
        lemma_ancestor_present(m, q, k);
    }
}

} // verus!
