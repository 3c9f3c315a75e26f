use vstd::prelude::*;
use vstd::std_specs::convert::FromSpecImpl;
use vstd::std_specs::ops::BitOrSpec;
use vstd::std_specs::ops::BitOrSpecImpl;
use crate::fs::ramfs::{
    FsError, RamFs, PathView, NodeView, touch_spec, write_spec, read_spec, append_spec, tree_closed, law_touch_reads,
    law_read_after_write,
};
use crate::syscall::{SysError, sys_error_of};

verus! {

/// The ways a file may be opened, as a set of bits.
#[derive(Debug, Clone, Copy, PartialEq, Eq, Structural)]
pub struct OpenFlags(u8);

impl OpenFlags {
    /// Reading is allowed.
    #[verifier::when_used_as_spec(read_flag)]
    pub fn read() -> (r: Self)
        ensures
            r == Self::read_flag(),
            r.bits() == 1,
    {
        OpenFlags(1)
    }

    /// Writing is allowed.
    #[verifier::when_used_as_spec(write_flag)]
    pub fn write() -> (r: Self)
        ensures
            r == Self::write_flag(),
            r.bits() == 2,
    {
        OpenFlags(2)
    }

    /// A missing file is created on open.
    #[verifier::when_used_as_spec(create_flag)]
    pub fn create() -> (r: Self)
        ensures
            r == Self::create_flag(),
            r.bits() == 4,
    {
        OpenFlags(4)
    }

    /// The file is emptied on open.
    #[verifier::when_used_as_spec(trunc_flag)]
    pub fn trunc() -> (r: Self)
        ensures
            r == Self::trunc_flag(),
            r.bits() == 8,
    {
        OpenFlags(8)
    }

    /// Writes go to the end of the file.
    #[verifier::when_used_as_spec(append_flag)]
    pub fn append() -> (r: Self)
        ensures
            r == Self::append_flag(),
            r.bits() == 16,
    {
        OpenFlags(16)
    }

    /// The flag `read()` stands for.
    pub closed spec fn read_flag() -> Self {
        OpenFlags(1)
    }

    /// The flag `write()` stands for.
    pub closed spec fn write_flag() -> Self {
        OpenFlags(2)
    }

    /// The flag `create()` stands for.
    pub closed spec fn create_flag() -> Self {
        OpenFlags(4)
    }

    /// The flag `trunc()` stands for.
    pub closed spec fn trunc_flag() -> Self {
        OpenFlags(8)
    }

    /// The flag `append()` stands for.
    pub closed spec fn append_flag() -> Self {
        OpenFlags(16)
    }

    /// The bits of the set.
    pub closed spec fn bits(self) -> u8 {
        self.0
    }

    /// Whether every bit of `other` is in the set.
    pub closed spec fn has(self, other: Self) -> bool {
        self.0 & other.0 == other.0
    }

    /// The set with no bit.
    pub fn empty() -> (r: Self)
        ensures
            r.bits() == 0,
    {
        OpenFlags(0)
    }

    /// Whether every bit of `other` is in the set.
    #[verifier::when_used_as_spec(has)]
    pub fn contains(self, other: Self) -> (r: bool)
        ensures
            r == self.has(other),
            r == (self.bits() & other.bits() == other.bits()),
    {
        self.0 & other.0 == other.0
    }
}

/// The bits of the named flags, and what `|` makes of two sets: the union of their bits.
pub proof fn lemma_flag_bits(a: OpenFlags, b: OpenFlags)
    ensures
        OpenFlags::read_flag().bits() == 1,
        OpenFlags::write_flag().bits() == 2,
        OpenFlags::create_flag().bits() == 4,
        OpenFlags::trunc_flag().bits() == 8,
        OpenFlags::append_flag().bits() == 16,
        BitOrSpec::bitor_spec(a, b).bits() == a.bits() | b.bits(),
{
}

impl core::ops::BitOr for OpenFlags {
    type Output = Self;

    fn bitor(self, rhs: Self) -> (r: Self)
        ensures
            r.bits() == self.bits() | rhs.bits(),
    {
        OpenFlags(self.0 | rhs.0)
    }
}

impl BitOrSpecImpl for OpenFlags {
    open spec fn obeys_bitor_spec() -> bool {
        true
    }

    open spec fn bitor_req(self, rhs: Self) -> bool {
        true
    }

    closed spec fn bitor_spec(self, rhs: Self) -> Self {
        OpenFlags(self.0 | rhs.0)
    }
}

impl core::ops::BitOrAssign for OpenFlags {
    fn bitor_assign(&mut self, rhs: Self)
        ensures
            final(self).bits() == old(self).bits() | rhs.bits(),
    {
        self.0 = self.0 | rhs.0;
    }
}

/// Why a file-descriptor operation failed.
#[derive(Debug, Clone, PartialEq, Eq, Structural)]
pub enum FdError {
    BadFd,
    Permission,
    Fs(FsError),
}

impl From<FsError> for FdError {
    fn from(value: FsError) -> (r: Self) {
        FdError::Fs(value)
    }
}

impl FromSpecImpl<FsError> for FdError {
    open spec fn obeys_from_spec() -> bool {
        true
    }

    open spec fn from_spec(v: FsError) -> FdError {
        FdError::Fs(v)
    }
}

/// The system-call error that a descriptor error is reported as.
pub open spec fn sys_error_of_fd(e: FdError) -> SysError {
    match e {
        FdError::BadFd => SysError::BadFd,
        FdError::Permission => SysError::Permission,
        FdError::Fs(err) => sys_error_of(err),
    }
}

impl From<FdError> for SysError {
    fn from(value: FdError) -> (r: Self) {
        match value {
            FdError::BadFd => SysError::BadFd,
            FdError::Permission => SysError::Permission,
            FdError::Fs(err) => SysError::from(err),
        }
    }
}

impl FromSpecImpl<FdError> for SysError {
    open spec fn obeys_from_spec() -> bool {
        true
    }

    open spec fn from_spec(v: FdError) -> SysError {
        sys_error_of_fd(v)
    }
}

/// What a descriptor refers to.
pub enum FileView {
    /// Input handed to the process, and how much of it was read.
    Stdin { data: Seq<u8>, offset: nat },
    /// Everything written to standard output.
    Stdout { data: Seq<u8> },
    /// Everything written to standard error.
    Stderr { data: Seq<u8> },
    /// A file of the file system, the position of the next read or write, and how it was opened.
    File { path: Seq<char>, offset: nat, flags: OpenFlags },
}

#[derive(Clone)]
enum OpenFile {
    Stdin { data: Vec<u8>, offset: usize },
    Stdout { data: Vec<u8> },
    Stderr { data: Vec<u8> },
    File { path: String, offset: usize, flags: OpenFlags },
}

spec fn file_view(f: OpenFile) -> FileView {
    match f {
        OpenFile::Stdin { data, offset } => FileView::Stdin { data: data@, offset: offset as nat },
        OpenFile::Stdout { data } => FileView::Stdout { data: data@ },
        OpenFile::Stderr { data } => FileView::Stderr { data: data@ },
        OpenFile::File { path, offset, flags } => FileView::File { path: path@, offset: offset as nat, flags },
    }
}

spec fn slot_view(s: Option<OpenFile>) -> Option<FileView> {
    match s {
        Some(f) => Some(file_view(f)),
        None => None,
    }
}

impl OpenFile {
    /// A copy of the open file.
    fn duplicate(&self) -> (r: OpenFile)
        ensures
            file_view(r) == file_view(*self),
    {
        match self {
            OpenFile::Stdin { data, offset } => OpenFile::Stdin {
                data: vstd::slice::slice_to_vec(data.as_slice()),
                offset: *offset,
            },
            OpenFile::Stdout { data } => OpenFile::Stdout { data: vstd::slice::slice_to_vec(data.as_slice()) },
            OpenFile::Stderr { data } => OpenFile::Stderr { data: vstd::slice::slice_to_vec(data.as_slice()) },
            OpenFile::File { path, offset, flags } => OpenFile::File {
                path: path.clone(),
                offset: *offset,
                flags: *flags,
            },
        }
    }
}

/// The descriptors of one process: slot `fd` holds what descriptor `fd`
/// refers to, or nothing when it is closed. Slots 0, 1 and 2 always exist.
#[derive(Clone)]
pub struct FileDescriptorTable {
    entries: Vec<Option<OpenFile>>,
}

/// Whether `fd` is the slot that a new descriptor takes: the first closed
/// slot, or a new one after the last.
pub open spec fn free_slot(v: Seq<Option<FileView>>, fd: nat) -> bool {
    &&& fd <= v.len()
    &&& fd < v.len() ==> v[fd as int] is None
    &&& forall|j: int| 0 <= j < fd ==> v[j] is Some
}

/// The table after a new descriptor for `f` takes the slot `fd`.
pub open spec fn with_slot(v: Seq<Option<FileView>>, fd: nat, f: FileView) -> Seq<Option<FileView>> {
    if fd < v.len() {
        v.update(fd as int, Some(f))
    } else {
        v.push(Some(f))
    }
}

/// Whether `fd` names an open descriptor.
pub open spec fn is_open(v: Seq<Option<FileView>>, fd: int) -> bool {
    0 <= fd < v.len() && v[fd] is Some
}

/// The table grown with closed slots to hold at least `n` of them.
pub open spec fn padded(v: Seq<Option<FileView>>, n: nat) -> Seq<Option<FileView>> {
    if v.len() >= n {
        v
    } else {
        v + Seq::new((n - v.len()) as nat, |i: int| None::<FileView>)
    }
}

/// How many bytes a read of `dst_len` bytes at `offset` takes from `src_len` bytes.
pub open spec fn copy_len(src_len: nat, offset: nat, dst_len: nat) -> nat {
    if offset >= src_len {
        0
    } else if dst_len < src_len - offset {
        dst_len
    } else {
        (src_len - offset) as nat
    }
}

/// The buffer `dst` after a read from `src` at `offset`: the bytes read,
/// then what the buffer held after them.
pub open spec fn copied(src: Seq<u8>, offset: nat, dst: Seq<u8>) -> Seq<u8> {
    let n = copy_len(src.len(), offset, dst.len());
    if offset >= src.len() {
        dst
    } else {
        src.subrange(offset as int, (offset + n) as int) + dst.skip(n as int)
    }
}

/// `data` with `buf` written at `offset`; a gap before `offset` is filled with zeros.
pub open spec fn overwrite(data: Seq<u8>, offset: nat, buf: Seq<u8>) -> Seq<u8> {
    let len = if data.len() > offset + buf.len() { data.len() } else { offset + buf.len() };
    Seq::new(
        len as nat,
        |i: int|
            if offset <= i < offset + buf.len() {
                buf[i - offset]
            } else if i < data.len() {
                data[i]
            } else {
                0u8
            },
    )
}

/// What the file system does when `path` is opened with `flags`.
pub open spec fn open_fs_spec(m: Map<PathView, NodeView>, path: Seq<char>, flags: OpenFlags) -> (Result<(), FsError>, Map<PathView, NodeView>) {
    let (r1, m1) = if flags.has(OpenFlags::create()) {
        touch_spec(m, path)
    } else {
        (Ok(()), m)
    };
    match r1 {
        Err(e) => (Err(e), m1),
        Ok(_) => if flags.has(OpenFlags::trunc()) {
            write_spec(m1, path, Seq::empty())
        } else if !flags.has(OpenFlags::create()) {
            match read_spec(m1, path) {
                Err(e) => (Err(e), m1),
                Ok(_) => (Ok(()), m1),
            }
        } else {
            (Ok(()), m1)
        },
    }
}

/// Opening with TRUNC empties the file: after a successful open the file at
/// the path exists and reads as empty, whatever it held before.
pub proof fn law_open_trunc_empties(m: Map<PathView, NodeView>, path: Seq<char>, flags: OpenFlags)
    requires
        tree_closed(m),
        flags.has(OpenFlags::trunc()),
        open_fs_spec(m, path, flags).0 is Ok,
    ensures
        tree_closed(open_fs_spec(m, path, flags).1),
        read_spec(open_fs_spec(m, path, flags).1, path) == Ok::<Seq<u8>, FsError>(Seq::empty()),
{
    let m1 = if flags.has(OpenFlags::create()) {
        law_touch_reads(m, path);
        touch_spec(m, path).1
    } else {
        m
    };
    law_read_after_write(m1, path, Seq::empty());
}

/// Opening without TRUNC keeps what the file holds: an existing file reads
/// as before, and a file made by CREATE reads as empty.
pub proof fn law_open_keeps_contents(m: Map<PathView, NodeView>, path: Seq<char>, flags: OpenFlags)
    requires
        tree_closed(m),
        !flags.has(OpenFlags::trunc()),
        open_fs_spec(m, path, flags).0 is Ok,
    ensures
        tree_closed(open_fs_spec(m, path, flags).1),
        read_spec(open_fs_spec(m, path, flags).1, path) == (match read_spec(m, path) {
            Ok(d) => Ok::<Seq<u8>, FsError>(d),
            Err(_) => Ok::<Seq<u8>, FsError>(Seq::empty()),
        }),
{
    if flags.has(OpenFlags::create()) {
        law_touch_reads(m, path);
    }
}

/// Outcome, new table and new buffer of a read of `buf` from descriptor `fd`.
pub open spec fn fd_read_spec(v: Seq<Option<FileView>>, m: Map<PathView, NodeView>, fd: int, buf: Seq<u8>) -> (Result<usize, FdError>, Seq<Option<FileView>>, Seq<u8>) {
    if !is_open(v, fd) {
        (Err(FdError::BadFd), v, buf)
    } else {
        match v[fd]->Some_0 {
            FileView::Stdin { data, offset } => {
                let n = copy_len(data.len(), offset, buf.len());
                (Ok(n as usize), v.update(fd, Some(FileView::Stdin { data, offset: offset + n })), copied(data, offset, buf))
            },
            FileView::File { path, offset, flags } => if !flags.has(OpenFlags::read()) {
                (Err(FdError::Permission), v, buf)
            } else {
                match read_spec(m, path) {
                    Err(e) => (Err(FdError::Fs(e)), v, buf),
                    Ok(data) => {
                        let n = copy_len(data.len(), offset, buf.len());
                        (Ok(n as usize), v.update(fd, Some(FileView::File { path, offset: offset + n, flags })), copied(data, offset, buf))
                    },
                }
            },
            _ => (Err(FdError::Permission), v, buf),
        }
    }
}

/// Whether a write of `len` bytes to descriptor `fd` keeps the file position in range.
pub open spec fn write_fits(v: Seq<Option<FileView>>, fd: int, len: nat) -> bool {
    is_open(v, fd) ==> match v[fd]->Some_0 {
        FileView::File { offset, .. } => offset + len <= usize::MAX,
        _ => true,
    }
}

/// Outcome, new table and new file system of a write of `buf` to descriptor `fd`.
pub open spec fn fd_write_spec(v: Seq<Option<FileView>>, m: Map<PathView, NodeView>, fd: int, buf: Seq<u8>) -> (Result<usize, FdError>, Seq<Option<FileView>>, Map<PathView, NodeView>) {
    if !is_open(v, fd) {
        (Err(FdError::BadFd), v, m)
    } else {
        match v[fd]->Some_0 {
            FileView::Stdout { data } => (Ok(buf.len() as usize), v.update(fd, Some(FileView::Stdout { data: data + buf })), m),
            FileView::Stderr { data } => (Ok(buf.len() as usize), v.update(fd, Some(FileView::Stderr { data: data + buf })), m),
            FileView::Stdin { .. } => (Err(FdError::Permission), v, m),
            FileView::File { path, offset, flags } => if !flags.has(OpenFlags::write()) {
                (Err(FdError::Permission), v, m)
            } else if flags.has(OpenFlags::append()) {
                let (r, m2) = append_spec(m, path, buf);
                match r {
                    Err(e) => (Err(FdError::Fs(e)), v, m2),
                    Ok(_) => (Ok(buf.len() as usize), v, m2),
                }
            } else {
                let current = match read_spec(m, path) {
                    Ok(d) => d,
                    Err(_) => Seq::empty(),
                };
                let (r, m2) = write_spec(m, path, overwrite(current, offset, buf));
                match r {
                    Err(e) => (Err(FdError::Fs(e)), v, m2),
                    Ok(_) => (Ok(buf.len() as usize), v.update(fd, Some(FileView::File { path, offset: offset + buf.len(), flags })), m2),
                }
            },
        }
    }
}

impl FileDescriptorTable {
    /// What each descriptor refers to, slot by slot.
    pub closed spec fn view(&self) -> Seq<Option<FileView>> {
        self.entries@.map_values(|s: Option<OpenFile>| slot_view(s))
    }

    /// A table whose descriptors 0, 1 and 2 are empty standard input, output and error.
    pub fn new() -> (t: Self)
        ensures
            t.view() == seq![
                Some(FileView::Stdin { data: Seq::empty(), offset: 0 }),
                Some(FileView::Stdout { data: Seq::empty() }),
                Some(FileView::Stderr { data: Seq::empty() }),
            ],
    {
        let mut entries: Vec<Option<OpenFile>> = Vec::new();
        let e0: Vec<u8> = Vec::new();
        let e1: Vec<u8> = Vec::new();
        let e2: Vec<u8> = Vec::new();
        assert(e0@ =~= Seq::<u8>::empty() && e1@ =~= Seq::<u8>::empty() && e2@ =~= Seq::<u8>::empty());
        entries.push(Some(OpenFile::Stdin { data: e0, offset: 0 }));
        entries.push(Some(OpenFile::Stdout { data: e1 }));
        entries.push(Some(OpenFile::Stderr { data: e2 }));
        let t = FileDescriptorTable { entries };
        assert(t.view() =~= seq![
            Some(FileView::Stdin { data: Seq::empty(), offset: 0 }),
            Some(FileView::Stdout { data: Seq::empty() }),
            Some(FileView::Stderr { data: Seq::empty() }),
        ]);
        t
    }

    /// Makes standard input hold `data`, unread.
    pub fn set_stdin(&mut self, data: &[u8])
        requires
            old(self).view().len() > 0,
        ensures
            final(self).view() == old(self).view().update(0, Some(FileView::Stdin { data: data@, offset: 0 })),
    {
        let ghost before = self.entries@;
        self.entries.set(0, Some(OpenFile::Stdin { data: vstd::slice::slice_to_vec(data), offset: 0 }));
        assert(self.view() =~= before.map_values(|s: Option<OpenFile>| slot_view(s)).update(
            0,
            Some(FileView::Stdin { data: data@, offset: 0 }),
        ));
    }

    /// Everything written to standard output, while descriptor 1 is standard output.
    pub fn stdout(&self) -> (r: &[u8])
        ensures
            r@ == (if self.view().len() > 1 {
                match self.view()[1] {
                    Some(FileView::Stdout { data }) => data,
                    _ => Seq::empty(),
                }
            } else {
                Seq::empty()
            }),
    {
        if self.entries.len() > 1 {
            if let Some(OpenFile::Stdout { data }) = &self.entries[1] {
                return data.as_slice();
            }
        }
        let empty: &[u8] = &[];
        assert(empty@ =~= Seq::<u8>::empty());
        empty
    }

    /// Everything written to standard error, while descriptor 2 is standard error.
    pub fn stderr(&self) -> (r: &[u8])
        ensures
            r@ == (if self.view().len() > 2 {
                match self.view()[2] {
                    Some(FileView::Stderr { data }) => data,
                    _ => Seq::empty(),
                }
            } else {
                Seq::empty()
            }),
    {
        if self.entries.len() > 2 {
            if let Some(OpenFile::Stderr { data }) = &self.entries[2] {
                return data.as_slice();
            }
        }
        let empty: &[u8] = &[];
        assert(empty@ =~= Seq::<u8>::empty());
        empty
    }

    /// Gives `file` the lowest free descriptor.
    fn insert(&mut self, file: OpenFile) -> (fd: usize)
        ensures
            free_slot(old(self).view(), fd as nat),
            final(self).view() == with_slot(old(self).view(), fd as nat, file_view(file)),
    {
        let ghost v = self.view();
        let mut i: usize = 0;
        while i < self.entries.len()
            invariant
                i <= self.entries@.len(),
                v == self.view(),
                v == old(self).view(),
                v.len() == self.entries@.len(),
                forall|j: int| 0 <= j < i ==> v[j] is Some,
            decreases self.entries@.len() - i,
        {
            proof {
                assert(v[i as int] == slot_view(self.entries@[i as int]));
            }
            if self.entries[i].is_none() {
                let ghost before = self.entries@;
                self.entries.set(i, Some(file));
                proof {
                    assert(v[i as int] is None);
                    assert(self.view() =~= before.map_values(|s: Option<OpenFile>| slot_view(s)).update(
                        i as int,
                        Some(file_view(file)),
                    ));
                }
                return i;
            }
            proof {
                assert(v[i as int] == slot_view(self.entries@[i as int]));
            }
            i = i + 1;
        }
        let ghost before = self.entries@;
        self.entries.push(Some(file));
        assert(self.view() =~= before.map_values(|s: Option<OpenFile>| slot_view(s)).push(Some(file_view(file))));
        self.entries.len() - 1
    }

    /// Takes the file out of descriptor `fd`, leaving the slot closed.
    fn take_entry(&mut self, fd: usize) -> (r: Result<OpenFile, FdError>)
        ensures
            match r {
                Ok(f) => is_open(old(self).view(), fd as int) && old(self).view()[fd as int] == Some(file_view(f))
                    && final(self).view() == old(self).view().update(fd as int, None),
                Err(e) => e == FdError::BadFd && !is_open(old(self).view(), fd as int) && final(self).view() == old(self).view(),
            },
            final(self).view().len() == old(self).view().len(),
    {
        if fd >= self.entries.len() || self.entries[fd].is_none() {
            return Err(FdError::BadFd);
        }
        let ghost before = self.entries@;
        let mut slot: Option<OpenFile> = None;
        self.entries.set_and_swap(fd, &mut slot);
        assert(self.view() =~= before.map_values(|s: Option<OpenFile>| slot_view(s)).update(fd as int, None));
        match slot {
            Some(f) => Ok(f),
            None => Err(FdError::BadFd),
        }
    }

    /// Puts `file` back into the closed slot `fd`.
    fn restore(&mut self, fd: usize, file: OpenFile)
        requires
            fd < old(self).view().len(),
        ensures
            final(self).view() == old(self).view().update(fd as int, Some(file_view(file))),
    {
        let ghost before = self.entries@;
        self.entries.set(fd, Some(file));
        assert(self.view() =~= before.map_values(|s: Option<OpenFile>| slot_view(s)).update(fd as int, Some(file_view(file))));
    }

    /// Opens `path` with `flags`: `CREATE` makes a missing file, `TRUNC`
    /// empties it, and without `CREATE` the path must name a readable file.
    pub fn open(&mut self, fs: &mut RamFs, path: &str, flags: OpenFlags) -> (r: Result<usize, FdError>)
        requires
            old(fs).wf(),
        ensures
            final(fs).wf(),
            final(fs).view() == open_fs_spec(old(fs).view(), path@, flags).1,
            match open_fs_spec(old(fs).view(), path@, flags).0 {
                Err(e) => r == Err::<usize, FdError>(FdError::Fs(e)) && final(self).view() == old(self).view(),
                Ok(_) => r is Ok && free_slot(old(self).view(), r->Ok_0 as nat) && final(self).view() == with_slot(
                    old(self).view(),
                    r->Ok_0 as nat,
                    FileView::File { path: path@, offset: 0, flags },
                ),
            },
    {
        if flags.contains(OpenFlags::create()) {
            match fs.touch(path) {
                Ok(()) => {},
                Err(e) => {
                    return Err(FdError::Fs(e));
                },
            }
        }
        if flags.contains(OpenFlags::trunc()) {
            let empty: &[u8] = &[];
            assert(empty@ =~= Seq::<u8>::empty());
            match fs.write(path, empty) {
                Ok(()) => {},
                Err(e) => {
                    return Err(FdError::Fs(e));
                },
            }
        } else if !flags.contains(OpenFlags::create()) {
            match fs.read(path) {
                Ok(_) => {},
                Err(e) => {
                    return Err(FdError::Fs(e));
                },
            }
        }
        let file = OpenFile::File { path: path.to_owned(), offset: 0, flags };
        Ok(self.insert(file))
    }

    /// Closes descriptor `fd`.
    pub fn close(&mut self, fd: usize) -> (r: Result<usize, FdError>)
        ensures
            is_open(old(self).view(), fd as int) ==> r == Ok::<usize, FdError>(0) && final(self).view() == old(self).view().update(fd as int, None),
            !is_open(old(self).view(), fd as int) ==> r == Err::<usize, FdError>(FdError::BadFd) && final(self).view()
                == old(self).view(),
    {
        if fd >= self.entries.len() || self.entries[fd].is_none() {
            return Err(FdError::BadFd);
        }
        let ghost before = self.entries@;
        self.entries.set(fd, None);
        assert(self.view() =~= before.map_values(|s: Option<OpenFile>| slot_view(s)).update(fd as int, None));
        Ok(0)
    }

    /// Makes descriptor `new_fd` refer to what `old_fd` refers to, growing the table as needed.
    pub fn dup2(&mut self, old_fd: usize, new_fd: usize) -> (r: Result<usize, FdError>)
        requires
            new_fd < usize::MAX,
        ensures
            is_open(old(self).view(), old_fd as int) ==> r == Ok::<usize, FdError>(new_fd) && final(self).view()
                == padded(old(self).view(), (new_fd + 1) as nat).update(new_fd as int, old(self).view()[old_fd as int]),
            !is_open(old(self).view(), old_fd as int) ==> r == Err::<usize, FdError>(FdError::BadFd) && final(self).view() == old(self).view(),
    {
        if old_fd >= self.entries.len() {
            return Err(FdError::BadFd);
        }
        let copy = match &self.entries[old_fd] {
            Some(f) => f.duplicate(),
            None => {
                return Err(FdError::BadFd);
            },
        };
        let ghost v = self.view();
        let ghost n = (new_fd + 1) as nat;
        while self.entries.len() <= new_fd
            invariant
                new_fd < usize::MAX,
                v.len() <= self.entries@.len(),
                v.len() < n ==> self.entries@.len() <= n,
                v.len() >= n ==> self.entries@.len() == v.len(),
                n == new_fd + 1,
                self.view() == padded(v, self.entries@.len()),
            decreases new_fd + 1 - self.entries@.len(),
        {
            let ghost before = self.entries@;
            self.entries.push(None);
            assert(self.view() =~= padded(v, self.entries@.len())) by {
                assert(self.view() =~= before.map_values(|s: Option<OpenFile>| slot_view(s)).push(None));
            }
        }
        proof {
            assert(padded(v, self.entries@.len()) =~= padded(v, n)) by {
                if v.len() < n {
                    assert(self.entries@.len() == n);
                }
            }
        }
        let ghost before = self.entries@;
        self.entries.set(new_fd, Some(copy));
        assert(self.view() =~= before.map_values(|s: Option<OpenFile>| slot_view(s)).update(new_fd as int, Some(file_view(copy))));
        Ok(new_fd)
    }

    /// Reads from descriptor `fd` into `buf`, as many bytes as fit from the
    /// position of the descriptor, and moves the position past them.
    pub fn read(&mut self, fs: &RamFs, fd: usize, buf: &mut [u8]) -> (r: Result<usize, FdError>)
        requires
            fs.wf(),
        ensures
            (r, final(self).view(), final(buf)@) == fd_read_spec(old(self).view(), fs.view(), fd as int, old(buf)@),
    {
        let ghost v = self.view();
        let file = match self.take_entry(fd) {
            Ok(f) => f,
            Err(e) => {
                return Err(e);
            },
        };
        match file {
            OpenFile::Stdin { data, offset } => {
                let n = copy_from_offset(data.as_slice(), offset, buf);
                self.restore(fd, OpenFile::Stdin { data, offset: offset + n });
                proof {
                    assert(self.view() =~= v.update(fd as int, Some(FileView::Stdin { data: data@, offset: (offset + n) as nat })));
                }
                Ok(n)
            },
            OpenFile::File { path, offset, flags } => {
                if !flags.contains(OpenFlags::read()) {
                    let ghost f = OpenFile::File { path, offset, flags };
                    self.restore(fd, OpenFile::File { path, offset, flags });
                    assert(self.view() =~= v);
                    return Err(FdError::Permission);
                }
                let data = match fs.read(path.as_str()) {
                    Ok(d) => d,
                    Err(e) => {
                        self.restore(fd, OpenFile::File { path, offset, flags });
                        assert(self.view() =~= v);
                        return Err(FdError::Fs(e));
                    },
                };
                let n = copy_from_offset(data.as_slice(), offset, buf);
                let ghost pv = path@;
                self.restore(fd, OpenFile::File { path, offset: offset + n, flags });
                proof {
                    assert(self.view() =~= v.update(fd as int, Some(FileView::File { path: pv, offset: (offset + n) as nat, flags })));
                }
                Ok(n)
            },
            OpenFile::Stdout { data } => {
                self.restore(fd, OpenFile::Stdout { data });
                assert(self.view() =~= v);
                Err(FdError::Permission)
            },
            OpenFile::Stderr { data } => {
                self.restore(fd, OpenFile::Stderr { data });
                assert(self.view() =~= v);
                Err(FdError::Permission)
            },
        }
    }
}

impl FileDescriptorTable {
    /// Writes `buf` to descriptor `fd`: standard output and error collect it,
    /// a file opened for appending gets it at its end, and any other file
    /// gets it at the descriptor's position, which then moves past it.
    pub fn write(&mut self, fs: &mut RamFs, fd: usize, buf: &[u8]) -> (r: Result<usize, FdError>)
        requires
            old(fs).wf(),
            write_fits(old(self).view(), fd as int, buf@.len()),
        ensures
            final(fs).wf(),
            (r, final(self).view(), final(fs).view()) == fd_write_spec(old(self).view(), old(fs).view(), fd as int, buf@),
    {
        let ghost v = self.view();
        let file = match self.take_entry(fd) {
            Ok(f) => f,
            Err(e) => {
                return Err(e);
            },
        };
        match file {
            OpenFile::Stdout { data } => {
                let mut data = data;
                let mut extra = vstd::slice::slice_to_vec(buf);
                let ghost d0 = data@;
                data.append(&mut extra);
                self.restore(fd, OpenFile::Stdout { data });
                assert(self.view() =~= v.update(fd as int, Some(FileView::Stdout { data: d0 + buf@ })));
                Ok(buf.len())
            },
            OpenFile::Stderr { data } => {
                let mut data = data;
                let mut extra = vstd::slice::slice_to_vec(buf);
                let ghost d0 = data@;
                data.append(&mut extra);
                self.restore(fd, OpenFile::Stderr { data });
                assert(self.view() =~= v.update(fd as int, Some(FileView::Stderr { data: d0 + buf@ })));
                Ok(buf.len())
            },
            OpenFile::Stdin { data, offset } => {
                self.restore(fd, OpenFile::Stdin { data, offset });
                assert(self.view() =~= v);
                Err(FdError::Permission)
            },
            OpenFile::File { path, offset, flags } => {
                if !flags.contains(OpenFlags::write()) {
                    self.restore(fd, OpenFile::File { path, offset, flags });
                    assert(self.view() =~= v);
                    return Err(FdError::Permission);
                }
                if flags.contains(OpenFlags::append()) {
                    let r = fs.append(path.as_str(), buf);
                    self.restore(fd, OpenFile::File { path, offset, flags });
                    assert(self.view() =~= v);
                    return match r {
                        Ok(()) => Ok(buf.len()),
                        Err(e) => Err(FdError::Fs(e)),
                    };
                }
                let mut data = match fs.read(path.as_str()) {
                    Ok(d) => d,
                    Err(_) => Vec::new(),
                };
                let ghost cur = data@;
                let end = offset + buf.len();
                while data.len() < end
                    invariant
                        cur.len() <= data@.len() <= end || data@.len() == cur.len(),
                        data@.len() <= cur.len() ==> data@ == cur,
                        forall|j: int| 0 <= j < cur.len() ==> data@[j] == cur[j],
                        forall|j: int| cur.len() <= j < data@.len() ==> data@[j] == 0u8,
                    decreases end - data@.len(),
                {
                    data.push(0);
                }
                let mut i: usize = 0;
                while i < buf.len()
                    invariant
                        i <= buf@.len(),
                        end == offset + buf@.len(),
                        data@.len() == if cur.len() > end { cur.len() } else { end as nat },
                        forall|j: int| 0 <= j < data@.len() ==> data@[j] == (
                            if offset <= j < offset + i { buf@[j - offset] } else if j < cur.len() { cur[j] } else { 0u8 }),
                    decreases buf@.len() - i,
                {
                    data.set(offset + i, buf[i]);
                    i = i + 1;
                }
                assert(data@ =~= overwrite(cur, offset as nat, buf@));
                let r = fs.write(path.as_str(), data.as_slice());
                match r {
                    Ok(()) => {
                        let ghost pv = path@;
                        self.restore(fd, OpenFile::File { path, offset: end, flags });
                        assert(self.view() =~= v.update(fd as int, Some(FileView::File { path: pv, offset: end as nat, flags })));
                        Ok(buf.len())
                    },
                    Err(e) => {
                        self.restore(fd, OpenFile::File { path, offset, flags });
                        assert(self.view() =~= v);
                        Err(FdError::Fs(e))
                    },
                }
            },
        }
    }
}

/// The view of a fresh table: empty standard input, output and error.
pub open spec fn standard_table() -> Seq<Option<FileView>> {
    seq![
        Some(FileView::Stdin { data: Seq::empty(), offset: 0 }),
        Some(FileView::Stdout { data: Seq::empty() }),
        Some(FileView::Stderr { data: Seq::empty() }),
    ]
}

impl Default for FileDescriptorTable {
    fn default() -> (t: Self)
        ensures
            t.view() == standard_table(),
    {
        FileDescriptorTable::new()
    }
}

/// Copies from `src` at `offset` into `dst` as many bytes as fit; returns how many.
fn copy_from_offset(src: &[u8], offset: usize, dst: &mut [u8]) -> (n: usize)
    ensures
        n == copy_len(src@.len(), offset as nat, old(dst)@.len()),
        final(dst)@ == copied(src@, offset as nat, old(dst)@),
        offset + n <= usize::MAX,
{
    if offset >= src.len() {
        assert(copied(src@, offset as nat, dst@) =~= dst@);
        return 0;
    }
    let slen = src.len();
    let n = if dst.len() < slen - offset { dst.len() } else { slen - offset };
    let ghost d0 = dst@;
    let mut i: usize = 0;
    while i < n
        invariant
            i <= n,
            n <= dst@.len(),
            offset + n <= slen,
            slen == src@.len(),
            dst@.len() == d0.len(),
            forall|j: int| 0 <= j < i ==> dst@[j] == src@[offset + j],
            forall|j: int| i <= j < d0.len() ==> dst@[j] == d0[j],
        decreases n - i,
    {
        dst[i] = src[offset + i];
        i = i + 1;
    }
    assert(dst@ =~= copied(src@, offset as nat, d0));
    n
}

} // verus!
