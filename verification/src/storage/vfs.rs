//! Filesystem abstraction the durability protocol is built from.
use vstd::prelude::*;
use vstd::string::*;

use crate::text::Describe;

verus! {

/// What kind of failure a filesystem operation met.
#[derive(Debug, Clone, Copy, PartialEq, Eq, Structural)]
pub enum FaultKind {
    /// The path does not exist.
    NotFound,
    /// The caller may not touch the path.
    PermissionDenied,
    /// The other side refused the connection.
    ConnectionRefused,
    /// The other side reset the connection.
    ConnectionReset,
    /// The host cannot be reached.
    HostUnreachable,
    /// The network cannot be reached.
    NetworkUnreachable,
    /// The other side ended the connection.
    ConnectionAborted,
    /// There is no connection yet.
    NotConnected,
    /// The address is taken.
    AddrInUse,
    /// The address does not exist here.
    AddrNotAvailable,
    /// The network is down.
    NetworkDown,
    /// The pipe is closed.
    BrokenPipe,
    /// The path exists already.
    AlreadyExists,
    /// The operation would have to wait.
    WouldBlock,
    /// A part of the path is no directory.
    NotADirectory,
    /// The path is a directory.
    IsADirectory,
    /// The directory is not empty.
    DirectoryNotEmpty,
    /// The filesystem takes no writes.
    ReadOnlyFilesystem,
    /// The handle to a remote file is stale.
    StaleNetworkFileHandle,
    /// A parameter is wrong.
    InvalidInput,
    /// The data is malformed.
    InvalidData,
    /// The operation took too long.
    TimedOut,
    /// A write wrote nothing.
    WriteZero,
    /// The storage holds no more bytes.
    StorageFull,
    /// The file has no positions.
    NotSeekable,
    /// The quota is used up.
    QuotaExceeded,
    /// The file is larger than it may be.
    FileTooLarge,
    /// The resource is in use.
    ResourceBusy,
    /// The program file is running.
    ExecutableFileBusy,
    /// Waiting would never end.
    Deadlock,
    /// The two paths lie on different devices.
    CrossesDevices,
    /// The file has as many links as it may have.
    TooManyLinks,
    /// The filename is not allowed.
    InvalidFilename,
    /// The argument list is too long.
    ArgumentListTooLong,
    /// A signal cut the operation short.
    Interrupted,
    /// The platform has no such operation.
    Unsupported,
    /// The file ended too early.
    UnexpectedEof,
    /// There is no memory left.
    OutOfMemory,
    /// Anything else.
    Other,
}

impl Describe for FaultKind {
    open spec fn text(&self) -> Seq<char> {
        match self {
            FaultKind::NotFound => "entity not found"@,
            FaultKind::PermissionDenied => "permission denied"@,
            FaultKind::ConnectionRefused => "connection refused"@,
            FaultKind::ConnectionReset => "connection reset"@,
            FaultKind::HostUnreachable => "host unreachable"@,
            FaultKind::NetworkUnreachable => "network unreachable"@,
            FaultKind::ConnectionAborted => "connection aborted"@,
            FaultKind::NotConnected => "not connected"@,
            FaultKind::AddrInUse => "address in use"@,
            FaultKind::AddrNotAvailable => "address not available"@,
            FaultKind::NetworkDown => "network down"@,
            FaultKind::BrokenPipe => "broken pipe"@,
            FaultKind::AlreadyExists => "entity already exists"@,
            FaultKind::WouldBlock => "operation would block"@,
            FaultKind::NotADirectory => "not a directory"@,
            FaultKind::IsADirectory => "is a directory"@,
            FaultKind::DirectoryNotEmpty => "directory not empty"@,
            FaultKind::ReadOnlyFilesystem => "read-only filesystem or storage medium"@,
            FaultKind::StaleNetworkFileHandle => "stale network file handle"@,
            FaultKind::InvalidInput => "invalid input parameter"@,
            FaultKind::InvalidData => "invalid data"@,
            FaultKind::TimedOut => "timed out"@,
            FaultKind::WriteZero => "write zero"@,
            FaultKind::StorageFull => "no storage space"@,
            FaultKind::NotSeekable => "seek on unseekable file"@,
            FaultKind::QuotaExceeded => "quota exceeded"@,
            FaultKind::FileTooLarge => "file too large"@,
            FaultKind::ResourceBusy => "resource busy"@,
            FaultKind::ExecutableFileBusy => "executable file busy"@,
            FaultKind::Deadlock => "deadlock"@,
            FaultKind::CrossesDevices => "cross-device link or rename"@,
            FaultKind::TooManyLinks => "too many links"@,
            FaultKind::InvalidFilename => "invalid filename"@,
            FaultKind::ArgumentListTooLong => "argument list too long"@,
            FaultKind::Interrupted => "operation interrupted"@,
            FaultKind::Unsupported => "unsupported"@,
            FaultKind::UnexpectedEof => "unexpected end of file"@,
            FaultKind::OutOfMemory => "out of memory"@,
            FaultKind::Other => "other error"@,
        }
    }

    fn describe(&self) -> (text: String) {
        match self {
            FaultKind::NotFound => String::from_str("entity not found"),
            FaultKind::PermissionDenied => String::from_str("permission denied"),
            FaultKind::ConnectionRefused => String::from_str("connection refused"),
            FaultKind::ConnectionReset => String::from_str("connection reset"),
            FaultKind::HostUnreachable => String::from_str("host unreachable"),
            FaultKind::NetworkUnreachable => String::from_str("network unreachable"),
            FaultKind::ConnectionAborted => String::from_str("connection aborted"),
            FaultKind::NotConnected => String::from_str("not connected"),
            FaultKind::AddrInUse => String::from_str("address in use"),
            FaultKind::AddrNotAvailable => String::from_str("address not available"),
            FaultKind::NetworkDown => String::from_str("network down"),
            FaultKind::BrokenPipe => String::from_str("broken pipe"),
            FaultKind::AlreadyExists => String::from_str("entity already exists"),
            FaultKind::WouldBlock => String::from_str("operation would block"),
            FaultKind::NotADirectory => String::from_str("not a directory"),
            FaultKind::IsADirectory => String::from_str("is a directory"),
            FaultKind::DirectoryNotEmpty => String::from_str("directory not empty"),
            FaultKind::ReadOnlyFilesystem => String::from_str(
                "read-only filesystem or storage medium",
            ),
            FaultKind::StaleNetworkFileHandle => String::from_str("stale network file handle"),
            FaultKind::InvalidInput => String::from_str("invalid input parameter"),
            FaultKind::InvalidData => String::from_str("invalid data"),
            FaultKind::TimedOut => String::from_str("timed out"),
            FaultKind::WriteZero => String::from_str("write zero"),
            FaultKind::StorageFull => String::from_str("no storage space"),
            FaultKind::NotSeekable => String::from_str("seek on unseekable file"),
            FaultKind::QuotaExceeded => String::from_str("quota exceeded"),
            FaultKind::FileTooLarge => String::from_str("file too large"),
            FaultKind::ResourceBusy => String::from_str("resource busy"),
            FaultKind::ExecutableFileBusy => String::from_str("executable file busy"),
            FaultKind::Deadlock => String::from_str("deadlock"),
            FaultKind::CrossesDevices => String::from_str("cross-device link or rename"),
            FaultKind::TooManyLinks => String::from_str("too many links"),
            FaultKind::InvalidFilename => String::from_str("invalid filename"),
            FaultKind::ArgumentListTooLong => String::from_str("argument list too long"),
            FaultKind::Interrupted => String::from_str("operation interrupted"),
            FaultKind::Unsupported => String::from_str("unsupported"),
            FaultKind::UnexpectedEof => String::from_str("unexpected end of file"),
            FaultKind::OutOfMemory => String::from_str("out of memory"),
            FaultKind::Other => String::from_str("other error"),
        }
    }
}

/// Why a filesystem operation failed.
#[derive(Debug, Clone, PartialEq, Eq)]
pub struct Fault {
    /// The kind of failure.
    pub kind: FaultKind,
    /// What the filesystem says about it.
    pub message: String,
}

impl Fault {
    /// A failure that has nothing to say beyond its kind.
    pub fn of(kind: FaultKind) -> (fault: Fault)
        ensures
            fault.kind == kind,
            fault.message@ == kind.text(),
    {
        Fault { kind, message: kind.describe() }
    }

    /// True when the path does not exist.
    pub open spec fn is_absence(self) -> bool {
        self.kind == FaultKind::NotFound
    }
}

impl Describe for Fault {
    open spec fn text(&self) -> Seq<char> {
        self.message@
    }

    fn describe(&self) -> (text: String) {
        String::from_str(self.message.as_str())
    }
}

/// One filesystem operation.
pub enum VfsCall {
    /// Create the directory and every missing parent.
    CreateDirAll { dir: Seq<char> },
    /// Read a whole file.
    Read { dir: Seq<char>, name: Seq<char> },
    /// Write a whole file.
    Write { dir: Seq<char>, name: Seq<char>, bytes: Seq<u8> },
    /// Write bytes at an offset.
    WriteAt { dir: Seq<char>, name: Seq<char>, offset: u64, bytes: Seq<u8> },
    /// Make a file's contents durable.
    SyncFile { dir: Seq<char>, name: Seq<char> },
    /// Move a file to another name.
    Rename { dir: Seq<char>, from: Seq<char>, to: Seq<char> },
    /// Unlink a file.
    Remove { dir: Seq<char>, name: Seq<char> },
    /// List a directory.
    List { dir: Seq<char> },
    /// Make name changes durable.
    SyncDir { dir: Seq<char> },
    /// Ask whether a file exists.
    IsPresent { dir: Seq<char>, name: Seq<char> },
}

/// What a filesystem operation answered.
pub enum VfsReply {
    /// It was done.
    Done,
    /// The file holds these bytes.
    Bytes(Seq<u8>),
    /// The directory holds these names.
    Names(Seq<Seq<char>>),
    /// The file exists, or does not.
    Found(bool),
    /// It failed.
    Fault(Fault),
}

/// Names as character sequences.
pub open spec fn names_of(names: Seq<String>) -> Seq<Seq<char>> {
    names.map_values(|name: String| name@)
}

/// The reply of an operation that answers nothing but success.
pub open spec fn done_reply(result: Result<(), Fault>) -> VfsReply {
    match result {
        Ok(()) => VfsReply::Done,
        Err(fault) => VfsReply::Fault(fault),
    }
}

/// The reply of a read.
pub open spec fn read_reply(result: Result<Vec<u8>, Fault>) -> VfsReply {
    match result {
        Ok(bytes) => VfsReply::Bytes(bytes@),
        Err(fault) => VfsReply::Fault(fault),
    }
}

/// The reply of a listing.
pub open spec fn list_reply(result: Result<Vec<String>, Fault>) -> VfsReply {
    match result {
        Ok(names) => VfsReply::Names(names_of(names@)),
        Err(fault) => VfsReply::Fault(fault),
    }
}

/// The reply of an existence check.
pub open spec fn found_reply(result: Result<bool, Fault>) -> VfsReply {
    match result {
        Ok(found) => VfsReply::Found(found),
        Err(fault) => VfsReply::Fault(fault),
    }
}

/// Filesystem primitives the durability protocol is built from; files are named within a
/// directory.
pub trait Vfs: Sized {
    /// The answers this filesystem may give, and what they leave it in.
    open spec fn answers(before: Self, call: VfsCall, after: Self, reply: VfsReply) -> bool {
        true
    }

    /// Creates the directory and every missing parent.
    fn create_dir_all(&mut self, dir: &str) -> (result: Result<(), Fault>)
        ensures
            Self::answers(
                *old(self),
                VfsCall::CreateDirAll { dir: dir@ },
                *final(self),
                done_reply(result),
            ),
    ;

    /// Reads a whole file.
    fn read(&mut self, dir: &str, name: &str) -> (result: Result<Vec<u8>, Fault>)
        ensures
            Self::answers(
                *old(self),
                VfsCall::Read { dir: dir@, name: name@ },
                *final(self),
                read_reply(result),
            ),
    ;

    /// Writes the full file contents, creating or truncating as needed.
    fn write(&mut self, dir: &str, name: &str, bytes: &[u8]) -> (result: Result<(), Fault>)
        ensures
            Self::answers(
                *old(self),
                VfsCall::Write { dir: dir@, name: name@, bytes: bytes@ },
                *final(self),
                done_reply(result),
            ),
    ;

    /// Writes bytes at an offset into an existing or new file, without truncating it.
    fn write_at(&mut self, dir: &str, name: &str, offset: u64, bytes: &[u8]) -> (result: Result<
        (),
        Fault,
    >)
        ensures
            Self::answers(
                *old(self),
                VfsCall::WriteAt { dir: dir@, name: name@, offset, bytes: bytes@ },
                *final(self),
                done_reply(result),
            ),
    ;

    /// Makes the file's own contents durable; the containing directory entry is not.
    fn fsync_file(&mut self, dir: &str, name: &str) -> (result: Result<(), Fault>)
        ensures
            Self::answers(
                *old(self),
                VfsCall::SyncFile { dir: dir@, name: name@ },
                *final(self),
                done_reply(result),
            ),
    ;

    /// Moves a file to a new name within the same directory.
    fn rename(&mut self, dir: &str, from: &str, to: &str) -> (result: Result<(), Fault>)
        ensures
            Self::answers(
                *old(self),
                VfsCall::Rename { dir: dir@, from: from@, to: to@ },
                *final(self),
                done_reply(result),
            ),
    ;

    /// Unlinks a file.
    fn remove(&mut self, dir: &str, name: &str) -> (result: Result<(), Fault>)
        ensures
            Self::answers(
                *old(self),
                VfsCall::Remove { dir: dir@, name: name@ },
                *final(self),
                done_reply(result),
            ),
    ;

    /// Lists the names directly inside a directory.
    fn list(&mut self, dir: &str) -> (result: Result<Vec<String>, Fault>)
        ensures
            Self::answers(
                *old(self),
                VfsCall::List { dir: dir@ },
                *final(self),
                list_reply(result),
            ),
    ;

    /// Makes name changes within the directory durable.
    fn fsync_dir(&mut self, dir: &str) -> (result: Result<(), Fault>)
        ensures
            Self::answers(
                *old(self),
                VfsCall::SyncDir { dir: dir@ },
                *final(self),
                done_reply(result),
            ),
    ;

    /// True when the name resolves to an existing file.
    fn is_present(&mut self, dir: &str, name: &str) -> (result: Result<bool, Fault>)
        ensures
            Self::answers(
                *old(self),
                VfsCall::IsPresent { dir: dir@, name: name@ },
                *final(self),
                found_reply(result),
            ),
    ;
}

/// One operation with its answer and what it left the filesystem in.
pub struct Exchange<V> {
    /// What was asked.
    pub call: VfsCall,
    /// What was answered.
    pub reply: VfsReply,
    /// The filesystem afterwards.
    pub after: V,
}

/// The filesystem before exchange `i` of a log.
pub open spec fn vfs_before<V>(start: V, log: Seq<Exchange<V>>, i: int) -> V {
    if i <= 0 {
        start
    } else {
        log[i - 1].after
    }
}

/// The log records what was asked of a filesystem and what it answered, from `start` to `end`.
pub open spec fn logged<V: Vfs>(start: V, log: Seq<Exchange<V>>, end: V) -> bool {
    &&& vfs_before(start, log, log.len() as int) == end
    &&& forall|i: int|
        0 <= i < log.len() ==> V::answers(
            vfs_before(start, log, i),
            (#[trigger] log[i]).call,
            log[i].after,
            log[i].reply,
        )
}

/// One more exchange extends a log.
pub proof fn lemma_logged_push<V: Vfs>(
    start: V,
    log: Seq<Exchange<V>>,
    middle: V,
    call: VfsCall,
    reply: VfsReply,
    end: V,
)
    requires
        logged(start, log, middle),
        V::answers(middle, call, end, reply),
    ensures
        logged(start, log.push(Exchange { call, reply, after: end }), end),
{
    let longer = log.push(Exchange { call, reply, after: end });
    assert forall|i: int| 0 <= i < longer.len() implies V::answers(
        vfs_before(start, longer, i),
        (#[trigger] longer[i]).call,
        longer[i].after,
        longer[i].reply,
    ) by {
        assert(vfs_before(start, longer, i) == vfs_before(start, log, i));
        if i < log.len() {
            assert(longer[i] == log[i]);
        }
    }
}

/// Two logs in a row are one log.
pub proof fn lemma_logged_concat<V: Vfs>(
    start: V,
    left: Seq<Exchange<V>>,
    middle: V,
    right: Seq<Exchange<V>>,
    end: V,
)
    requires
        logged(start, left, middle),
        logged(middle, right, end),
    ensures
        logged(start, left + right, end),
{
    let both = left + right;
    assert forall|i: int| 0 <= i < both.len() implies V::answers(
        vfs_before(start, both, i),
        (#[trigger] both[i]).call,
        both[i].after,
        both[i].reply,
    ) by {
        if i < left.len() {
            assert(both[i] == left[i]);
            assert(vfs_before(start, both, i) == vfs_before(start, left, i));
        } else {
            assert(both[i] == right[i - left.len()]);
            assert(vfs_before(start, both, i) == vfs_before(middle, right, i - left.len()));
        }
    }
    if right.len() == 0 {
        assert(both =~= left);
    }
}

} // verus!
