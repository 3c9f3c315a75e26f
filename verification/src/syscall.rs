use vstd::prelude::*;
use vstd::std_specs::convert::FromSpecImpl;
use crate::fs::ramfs::{FsError, RamFs, remove_spec, rename_spec, mkdir_spec};

pub mod fd;

verus! {

/// What a system call returns: a count or handle on success.
pub type SysResult = Result<usize, SysError>;

/// Why a system call failed.
#[derive(Debug, Clone, Copy, PartialEq, Eq, Structural)]
pub enum SysError {
    NoSuchSyscall,
    InvalidArgument,
    NoEntry,
    Exists,
    NotDir,
    IsDir,
    NotEmpty,
    Unsupported,
    BadFd,
    Permission,
}

/// The system-call error that a file-system error is reported as.
pub open spec fn sys_error_of(e: FsError) -> SysError {
    match e {
        FsError::InvalidPath => SysError::InvalidArgument,
        FsError::NotFound => SysError::NoEntry,
        FsError::AlreadyExists => SysError::Exists,
        FsError::NotDirectory => SysError::NotDir,
        FsError::IsDirectory => SysError::IsDir,
        FsError::DirectoryNotEmpty => SysError::NotEmpty,
    }
}

impl From<FsError> for SysError {
    fn from(value: FsError) -> (r: Self) {
        match value {
            FsError::InvalidPath => SysError::InvalidArgument,
            FsError::NotFound => SysError::NoEntry,
            FsError::AlreadyExists => SysError::Exists,
            FsError::NotDirectory => SysError::NotDir,
            FsError::IsDirectory => SysError::IsDir,
            FsError::DirectoryNotEmpty => SysError::NotEmpty,
        }
    }
}

impl FromSpecImpl<FsError> for SysError {
    open spec fn obeys_from_spec() -> bool {
        true
    }

    open spec fn from_spec(v: FsError) -> SysError {
        sys_error_of(v)
    }
}

/// What a system call reports for the outcome of a file-system operation.
pub open spec fn sys_result_of(r: Result<(), FsError>) -> SysResult {
    match r {
        Ok(()) => Ok(0),
        Err(e) => Err(sys_error_of(e)),
    }
}

/// The numbers by which user programs name system calls.
#[derive(Debug, Clone, Copy, PartialEq, Eq, Structural)]
pub enum SyscallNumber {
    Fork,
    Exec,
    Exit,
    WaitPid,
    Read,
    Write,
    Open,
    Close,
    Dup2,
    Unlink,
    Rename,
    Mkdir,
}

impl SyscallNumber {
    /// The number of the call, as user programs pass it in `rax`.
    pub fn number(self) -> (n: usize)
        ensures
            1 <= n <= 12,
            n == match self {
                SyscallNumber::Fork => 1usize,
                SyscallNumber::Exec => 2,
                SyscallNumber::Exit => 3,
                SyscallNumber::WaitPid => 4,
                SyscallNumber::Read => 5,
                SyscallNumber::Write => 6,
                SyscallNumber::Open => 7,
                SyscallNumber::Close => 8,
                SyscallNumber::Dup2 => 9,
                SyscallNumber::Unlink => 10,
                SyscallNumber::Rename => 11,
                SyscallNumber::Mkdir => 12,
            },
    {
        match self {
            SyscallNumber::Fork => 1,
            SyscallNumber::Exec => 2,
            SyscallNumber::Exit => 3,
            SyscallNumber::WaitPid => 4,
            SyscallNumber::Read => 5,
            SyscallNumber::Write => 6,
            SyscallNumber::Open => 7,
            SyscallNumber::Close => 8,
            SyscallNumber::Dup2 => 9,
            SyscallNumber::Unlink => 10,
            SyscallNumber::Rename => 11,
            SyscallNumber::Mkdir => 12,
        }
    }
}

/// The system calls that act on the file system.
pub struct SyscallTable;

impl SyscallTable {
    /// Removes the file or empty directory at `path`.
    pub fn unlink(fs: &mut RamFs, path: &str) -> (r: SysResult)
        requires
            old(fs).wf(),
        ensures
            final(fs).wf(),
            final(fs).view() == remove_spec(old(fs).view(), path@).1,
            r == sys_result_of(remove_spec(old(fs).view(), path@).0),
    {
        match fs.remove(path) {
            Ok(()) => Ok(0),
            Err(e) => Err(SysError::from(e)),
        }
    }

    /// Moves the file or directory at `from` to `to`.
    pub fn rename(fs: &mut RamFs, from: &str, to: &str) -> (r: SysResult)
        requires
            old(fs).wf(),
        ensures
            final(fs).wf(),
            final(fs).view() == rename_spec(old(fs).view(), from@, to@).1,
            r == sys_result_of(rename_spec(old(fs).view(), from@, to@).0),
    {
        match fs.rename(from, to) {
            Ok(()) => Ok(0),
            Err(e) => Err(SysError::from(e)),
        }
    }

    /// Creates the directory `path`.
    pub fn mkdir(fs: &mut RamFs, path: &str) -> (r: SysResult)
        requires
            old(fs).wf(),
        ensures
            final(fs).wf(),
            final(fs).view() == mkdir_spec(old(fs).view(), path@).1,
            r == sys_result_of(mkdir_spec(old(fs).view(), path@).0),
    {
        match fs.mkdir(path) {
            Ok(()) => Ok(0),
            Err(e) => Err(SysError::from(e)),
        }
    }

    /// Process duplication; no address space can be copied yet.
    pub fn fork() -> (r: SysResult)
        ensures
            r == Err::<usize, SysError>(SysError::Unsupported),
    {
        Err(SysError::Unsupported)
    }

    /// Program replacement; not available through this table yet.
    pub fn exec(_path: &str, _argv: &[&str]) -> (r: SysResult)
        ensures
            r == Err::<usize, SysError>(SysError::Unsupported),
    {
        Err(SysError::Unsupported)
    }
}

} // verus!
