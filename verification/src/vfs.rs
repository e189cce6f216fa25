//! Data model of a virtual file system: open options, errors, directory
//! listings and metadata.
use vstd::prelude::*;
use std::path::PathBuf;

verus! {

// ---------------------------------------------------------------------------
// Open options
// ---------------------------------------------------------------------------

/// The flags of an `OpenOptionsConfig`, as specifications see them.
#[derive(Clone, Copy, Debug, PartialEq, Eq, Structural)]
pub struct OpenFlags {
    /// Open for reading.
    pub read: bool,
    /// Open for writing.
    pub write: bool,
    /// Create the file, failing if it exists.
    pub create_new: bool,
    /// Create the file if it does not exist.
    pub create: bool,
    /// Write at the end of the file.
    pub append: bool,
    /// Empty the file on opening.
    pub truncate: bool,
}

/// The options with which a file is opened.
#[derive(Clone, Copy, Debug, PartialEq, Eq, Structural)]
pub struct OpenOptionsConfig {
    read: bool,
    write: bool,
    create_new: bool,
    create: bool,
    append: bool,
    truncate: bool,
}

impl View for OpenOptionsConfig {
    type V = OpenFlags;

    closed spec fn view(&self) -> OpenFlags {
        OpenFlags {
            read: self.read,
            write: self.write,
            create_new: self.create_new,
            create: self.create,
            append: self.append,
            truncate: self.truncate,
        }
    }
}

/// No flag set.
pub open spec fn no_flags() -> OpenFlags {
    OpenFlags {
        read: false,
        write: false,
        create_new: false,
        create: false,
        append: false,
        truncate: false,
    }
}

impl OpenOptionsConfig {
    /// Whether the file is opened for reading.
    pub fn read(&self) -> (read: bool)
        ensures
            read == self@.read,
    {
        self.read
    }

    /// Whether the file is opened for writing.
    pub fn write(&self) -> (write: bool)
        ensures
            write == self@.write,
    {
        self.write
    }

    /// Whether the file must be created and must not exist yet.
    pub fn create_new(&self) -> (create_new: bool)
        ensures
            create_new == self@.create_new,
    {
        self.create_new
    }

    /// Whether the file is created if it does not exist.
    pub fn create(&self) -> (create: bool)
        ensures
            create == self@.create,
    {
        self.create
    }

    /// Whether writes go to the end of the file.
    pub fn append(&self) -> (append: bool)
        ensures
            append == self@.append,
    {
        self.append
    }

    /// Whether the file is emptied on opening.
    pub fn truncate(&self) -> (truncate: bool)
        ensures
            truncate == self@.truncate,
    {
        self.truncate
    }
}

/// A builder of open options around the opener that will open the file.
pub struct OpenOptions<O> {
    opener: O,
    conf: OpenOptionsConfig,
}

impl<O> OpenOptions<O> {
    /// The opener that the options were built around.
    pub closed spec fn spec_opener(&self) -> O {
        self.opener
    }

    /// The options built so far.
    pub closed spec fn spec_config(&self) -> OpenOptionsConfig {
        self.conf
    }

    /// Options around `opener`, with no flag set.
    pub fn new(opener: O) -> (options: Self)
        ensures
            options.spec_opener() == opener,
            options.spec_config()@ == no_flags(),
    {
        Self {
            opener,
            conf: OpenOptionsConfig {
                read: false,
                write: false,
                create_new: false,
                create: false,
                append: false,
                truncate: false,
            },
        }
    }

    /// Sets whether the file is opened for reading.
    pub fn read(&mut self, read: bool) -> (options: &mut Self)
        ensures
            options.spec_opener() == old(self).spec_opener(),
            options.spec_config()@ == (OpenFlags { read, ..old(self).spec_config()@ }),
            *final(self) == *final(options),
    {
        self.conf.read = read;
        self
    }

    /// Sets whether the file is opened for writing.
    pub fn write(&mut self, write: bool) -> (options: &mut Self)
        ensures
            options.spec_opener() == old(self).spec_opener(),
            options.spec_config()@ == (OpenFlags { write, ..old(self).spec_config()@ }),
            *final(self) == *final(options),
    {
        self.conf.write = write;
        self
    }

    /// Sets whether writes go to the end of the file.
    pub fn append(&mut self, append: bool) -> (options: &mut Self)
        ensures
            options.spec_opener() == old(self).spec_opener(),
            options.spec_config()@ == (OpenFlags { append, ..old(self).spec_config()@ }),
            *final(self) == *final(options),
    {
        self.conf.append = append;
        self
    }

    /// Sets whether the file is emptied on opening.
    pub fn truncate(&mut self, truncate: bool) -> (options: &mut Self)
        ensures
            options.spec_opener() == old(self).spec_opener(),
            options.spec_config()@ == (OpenFlags { truncate, ..old(self).spec_config()@ }),
            *final(self) == *final(options),
    {
        self.conf.truncate = truncate;
        self
    }

    /// Sets whether the file is created if it does not exist.
    pub fn create(&mut self, create: bool) -> (options: &mut Self)
        ensures
            options.spec_opener() == old(self).spec_opener(),
            options.spec_config()@ == (OpenFlags { create, ..old(self).spec_config()@ }),
            *final(self) == *final(options),
    {
        self.conf.create = create;
        self
    }

    /// Sets whether the file must be created and must not exist yet.
    pub fn create_new(&mut self, create_new: bool) -> (options: &mut Self)
        ensures
            options.spec_opener() == old(self).spec_opener(),
            options.spec_config()@ == (OpenFlags { create_new, ..old(self).spec_config()@ }),
            *final(self) == *final(options),
    {
        self.conf.create_new = create_new;
        self
    }

    /// The options built so far.
    pub fn config(&self) -> (conf: &OpenOptionsConfig)
        ensures
            *conf == self.spec_config(),
    {
        &self.conf
    }

    /// The opener, to open a file with the options built so far.
    pub fn opener_mut(&mut self) -> (opener: &mut O)
        ensures
            *opener == old(self).spec_opener(),
            final(self).spec_opener() == *final(opener),
            final(self).spec_config() == old(self).spec_config(),
    {
        &mut self.opener
    }
}

// ---------------------------------------------------------------------------
// Errors
// ---------------------------------------------------------------------------

/// Error type for external users.
#[derive(Clone, Copy, Debug, PartialEq, Eq, Structural)]
pub enum FsError {
    /// The fd given as a base was not a directory so the operation was not possible.
    BaseNotDirectory,
    /// Expected a file but found not a file.
    NotAFile,
    /// The fd given was not usable.
    InvalidFd,
    /// File exists.
    AlreadyExists,
    /// Something failed when doing IO. These errors can generally not be handled. It may work if tried again.
    IOError,
    /// The address was in use.
    AddressInUse,
    /// The address could not be found.
    AddressNotAvailable,
    /// A pipe was closed.
    BrokenPipe,
    /// The connection was aborted.
    ConnectionAborted,
    /// The connection request was refused.
    ConnectionRefused,
    /// The connection was reset.
    ConnectionReset,
    /// The operation was interrupted before it could finish.
    Interrupted,
    /// Invalid internal data, if the argument data is invalid, use `InvalidInput`.
    InvalidData,
    /// The provided data is invalid.
    InvalidInput,
    /// Could not perform the operation because there was not an open connection.
    NotConnected,
    /// The requested file or directory could not be found.
    EntityNotFound,
    /// The requested device couldn't be accessed.
    NoDevice,
    /// Caller was not allowed to perform this operation.
    PermissionDenied,
    /// The operation did not complete within the given amount of time.
    TimedOut,
    /// Found EOF when EOF was not expected.
    UnexpectedEof,
    /// Operation would block, this error lets the caller know that they can try again.
    WouldBlock,
    /// A call to write returned 0.
    WriteZero,
    /// Some other unhandled error. If you see this, it's probably a bug.
    UnknownError,
}

/// The kind of an I/O error, as far as the file system tells kinds apart.
#[derive(Clone, Copy, Debug, PartialEq, Eq, Structural)]
pub enum IoErrorKind {
    /// `std::io::ErrorKind::AddrInUse`.
    AddrInUse,
    /// `std::io::ErrorKind::AddrNotAvailable`.
    AddrNotAvailable,
    /// `std::io::ErrorKind::AlreadyExists`.
    AlreadyExists,
    /// `std::io::ErrorKind::BrokenPipe`.
    BrokenPipe,
    /// `std::io::ErrorKind::ConnectionAborted`.
    ConnectionAborted,
    /// `std::io::ErrorKind::ConnectionRefused`.
    ConnectionRefused,
    /// `std::io::ErrorKind::ConnectionReset`.
    ConnectionReset,
    /// `std::io::ErrorKind::Interrupted`.
    Interrupted,
    /// `std::io::ErrorKind::InvalidData`.
    InvalidData,
    /// `std::io::ErrorKind::InvalidInput`.
    InvalidInput,
    /// `std::io::ErrorKind::NotConnected`.
    NotConnected,
    /// `std::io::ErrorKind::NotFound`.
    NotFound,
    /// `std::io::ErrorKind::PermissionDenied`.
    PermissionDenied,
    /// `std::io::ErrorKind::TimedOut`.
    TimedOut,
    /// `std::io::ErrorKind::UnexpectedEof`.
    UnexpectedEof,
    /// `std::io::ErrorKind::WouldBlock`.
    WouldBlock,
    /// `std::io::ErrorKind::WriteZero`.
    WriteZero,
    /// `std::io::ErrorKind::Other`.
    Other,
    /// Any kind not listed above.
    Unlisted,
}

/// The file-system error that an I/O error of `kind` becomes.
pub open spec fn fs_error_of_io_kind(kind: IoErrorKind) -> FsError {
    match kind {
        IoErrorKind::AddrInUse => FsError::AddressInUse,
        IoErrorKind::AddrNotAvailable => FsError::AddressNotAvailable,
        IoErrorKind::AlreadyExists => FsError::AlreadyExists,
        IoErrorKind::BrokenPipe => FsError::BrokenPipe,
        IoErrorKind::ConnectionAborted => FsError::ConnectionAborted,
        IoErrorKind::ConnectionRefused => FsError::ConnectionRefused,
        IoErrorKind::ConnectionReset => FsError::ConnectionReset,
        IoErrorKind::Interrupted => FsError::Interrupted,
        IoErrorKind::InvalidData => FsError::InvalidData,
        IoErrorKind::InvalidInput => FsError::InvalidInput,
        IoErrorKind::NotConnected => FsError::NotConnected,
        IoErrorKind::NotFound => FsError::EntityNotFound,
        IoErrorKind::PermissionDenied => FsError::PermissionDenied,
        IoErrorKind::TimedOut => FsError::TimedOut,
        IoErrorKind::UnexpectedEof => FsError::UnexpectedEof,
        IoErrorKind::WouldBlock => FsError::WouldBlock,
        IoErrorKind::WriteZero => FsError::WriteZero,
        IoErrorKind::Other => FsError::IOError,
        IoErrorKind::Unlisted => FsError::UnknownError,
    }
}

impl FsError {
    /// The file-system error for an I/O error of the given kind; kinds that
    /// the file system does not tell apart become `UnknownError`.
    pub fn from_io_error_kind(kind: IoErrorKind) -> (error: FsError)
        ensures
            error == fs_error_of_io_kind(kind),
    {
        match kind {
            IoErrorKind::AddrInUse => FsError::AddressInUse,
            IoErrorKind::AddrNotAvailable => FsError::AddressNotAvailable,
            IoErrorKind::AlreadyExists => FsError::AlreadyExists,
            IoErrorKind::BrokenPipe => FsError::BrokenPipe,
            IoErrorKind::ConnectionAborted => FsError::ConnectionAborted,
            IoErrorKind::ConnectionRefused => FsError::ConnectionRefused,
            IoErrorKind::ConnectionReset => FsError::ConnectionReset,
            IoErrorKind::Interrupted => FsError::Interrupted,
            IoErrorKind::InvalidData => FsError::InvalidData,
            IoErrorKind::InvalidInput => FsError::InvalidInput,
            IoErrorKind::NotConnected => FsError::NotConnected,
            IoErrorKind::NotFound => FsError::EntityNotFound,
            IoErrorKind::PermissionDenied => FsError::PermissionDenied,
            IoErrorKind::TimedOut => FsError::TimedOut,
            IoErrorKind::UnexpectedEof => FsError::UnexpectedEof,
            IoErrorKind::WouldBlock => FsError::WouldBlock,
            IoErrorKind::WriteZero => FsError::WriteZero,
            IoErrorKind::Other => FsError::IOError,
            IoErrorKind::Unlisted => FsError::UnknownError,
        }
    }
}

// ---------------------------------------------------------------------------
// Directory listings and metadata
// ---------------------------------------------------------------------------

#[verifier::external_type_specification]
#[verifier::external_body]
pub struct ExPathBuf(PathBuf);

/// `PathBuf::clone` gives an equal path.
pub assume_specification[ <PathBuf as Clone>::clone ](path: &PathBuf) -> (copy: PathBuf)
    ensures
        copy == *path,
;

/// `Result::clone` clones whichever value the result holds.
pub assume_specification<T: Clone, E: Clone>[ <Result<T, E> as Clone>::clone ](
    result: &Result<T, E>,
) -> (copy: Result<T, E>)
    ensures
        match *result {
            Ok(t) => copy matches Ok(c) && cloned::<T>(t, c),
            Err(e) => copy matches Err(c) && cloned::<E>(e, c),
        },
;

/// The kind of a directory entry.
#[derive(Clone, Copy, Debug)]
pub struct FileType {
    /// The entry is a directory.
    pub dir: bool,
    /// The entry is a regular file.
    pub file: bool,
    /// The entry is a symbolic link.
    pub symlink: bool,
}

impl FileType {
    /// Whether the entry is a directory.
    pub fn is_dir(&self) -> (dir: bool)
        ensures
            dir == self.dir,
    {
        self.dir
    }

    /// Whether the entry is a regular file.
    pub fn is_file(&self) -> (file: bool)
        ensures
            file == self.file,
    {
        self.file
    }

    /// Whether the entry is a symbolic link.
    pub fn is_symlink(&self) -> (symlink: bool)
        ensures
            symlink == self.symlink,
    {
        self.symlink
    }
}

/// What is known of a directory entry; times are in nanoseconds since the
/// UNIX epoch.
#[derive(Clone, Copy, Debug)]
pub struct Metadata {
    /// The kind of the entry.
    pub ft: FileType,
    /// Time of the last access.
    pub accessed: u64,
    /// Time of creation.
    pub created: u64,
    /// Time of the last modification.
    pub modified: u64,
    /// Size in bytes.
    pub len: u64,
}

impl Metadata {
    /// Whether the entry is a regular file.
    pub fn is_file(&self) -> (file: bool)
        ensures
            file == self.ft.file,
    {
        self.ft.is_file()
    }

    /// Whether the entry is a directory.
    pub fn is_dir(&self) -> (dir: bool)
        ensures
            dir == self.ft.dir,
    {
        self.ft.is_dir()
    }

    /// Time of the last access.
    pub fn accessed(&self) -> (accessed: u64)
        ensures
            accessed == self.accessed,
    {
        self.accessed
    }

    /// Time of creation.
    pub fn created(&self) -> (created: u64)
        ensures
            created == self.created,
    {
        self.created
    }

    /// Time of the last modification.
    pub fn modified(&self) -> (modified: u64)
        ensures
            modified == self.modified,
    {
        self.modified
    }

    /// The kind of the entry.
    pub fn file_type(&self) -> (ft: FileType)
        ensures
            ft == self.ft,
    {
        self.ft
    }
}

/// An entry of a directory listing.
#[derive(Clone, Debug)]
pub struct DirEntry {
    /// Path of the entry.
    pub path: PathBuf,
    /// The entry's metadata, or why it could not be had.
    pub metadata: Result<Metadata, FsError>,
}

impl DirEntry {
    /// Path of the entry.
    pub fn path(&self) -> (path: PathBuf)
        ensures
            path == self.path,
    {
        self.path.clone()
    }

    /// The entry's metadata, or why it could not be had.
    pub fn metadata(&self) -> (metadata: Result<Metadata, FsError>)
        ensures
            metadata == self.metadata,
    {
        self.metadata
    }

    /// The kind of the entry, or why its metadata could not be had.
    pub fn file_type(&self) -> (ft: Result<FileType, FsError>)
        ensures
            match self.metadata {
                Ok(m) => ft == Ok::<FileType, FsError>(m.ft),
                Err(e) => ft == Err::<FileType, FsError>(e),
            },
    {
        let metadata = self.metadata?;
        Ok(metadata.file_type())
    }

    /// An equal entry.
    fn duplicate(&self) -> (copy: DirEntry)
        ensures
            copy == *self,
    {
        DirEntry { path: self.path.clone(), metadata: self.metadata }
    }
}

/// A directory listing, read one entry at a time.
#[derive(Debug)]
pub struct ReadDir {
    data: Vec<DirEntry>,
    index: usize,
}

impl ReadDir {
    /// The entries of the listing.
    pub closed spec fn entries(&self) -> Seq<DirEntry> {
        self.data@
    }

    /// How many entries have been read.
    pub closed spec fn position(&self) -> nat {
        self.index as nat
    }

    /// The entries still to be read.
    pub open spec fn remaining(&self) -> Seq<DirEntry> {
        self.entries().skip(self.position() as int)
    }

    #[verifier::type_invariant]
    spec fn position_in_bounds(self) -> bool {
        self.index <= self.data@.len()
    }

    /// A listing of `data`, with nothing read yet.
    pub fn new(data: Vec<DirEntry>) -> (listing: Self)
        ensures
            listing.entries() == data@,
            listing.position() == 0,
            listing.remaining() == data@,
    {
        Self { data, index: 0 }
    }

    /// The next entry, or `None` once all have been read.
    pub fn next(&mut self) -> (entry: Option<Result<DirEntry, FsError>>)
        ensures
            next_step(*old(self), entry, *final(self)),
            final(self).remaining() == if old(self).remaining().len() > 0 {
                old(self).remaining().drop_first()
            } else {
                old(self).remaining()
            },
    {
        proof {
            use_type_invariant(&*self);
        }
        if self.index < self.data.len() {
            let entry = self.data[self.index].duplicate();
            self.index = self.index + 1;
            return Some(Ok(entry));
        }
        None
    }
}

/// What one call of `next` does: hand out the next entry and move past it,
/// or, once all have been read, give `None` and stay.
pub open spec fn next_step(before: ReadDir, entry: Option<Result<DirEntry, FsError>>, after: ReadDir) -> bool {
    &&& after.entries() == before.entries()
    &&& if before.remaining().len() > 0 {
        entry == Some(Ok::<DirEntry, FsError>(before.remaining()[0])) && after.position() == before.position() + 1
    } else {
        entry is None && after.position() == before.position()
    }
}

/// After `j` calls of `next` on a new listing, the listing stands at entry
/// `j`, or at its end.
proof fn lemma_listing_position(
    entries: Seq<DirEntry>,
    states: Seq<ReadDir>,
    answers: Seq<Option<Result<DirEntry, FsError>>>,
    j: int,
)
    requires
        states.len() == answers.len() + 1,
        states[0].entries() == entries,
        states[0].position() == 0,
        forall|m: int| 0 <= m < answers.len() ==> next_step(#[trigger] states[m], answers[m], states[m + 1]),
        0 <= j < states.len(),
    ensures
        states[j].entries() == entries,
        states[j].position() == if j < entries.len() { j } else { entries.len() as int },
    decreases j,
{
    if j > 0 {
        lemma_listing_position(entries, states, answers, j - 1);
        assert(next_step(states[j - 1], answers[j - 1], states[j]));
    }
}

/// Calls of `next` on a new listing hand out its entries in order, each as
/// `Ok`, and then `None` for ever.
pub proof fn lemma_next_hands_out_in_order(
    entries: Seq<DirEntry>,
    states: Seq<ReadDir>,
    answers: Seq<Option<Result<DirEntry, FsError>>>,
)
    requires
        states.len() == answers.len() + 1,
        states[0].entries() == entries,
        states[0].position() == 0,
        forall|j: int| 0 <= j < answers.len() ==> next_step(#[trigger] states[j], answers[j], states[j + 1]),
    ensures
        forall|j: int|
            0 <= j < answers.len() ==> #[trigger] answers[j] == if j < entries.len() {
                Some(Ok::<DirEntry, FsError>(entries[j]))
            } else {
                None
            },
{
    assert forall|j: int| 0 <= j < answers.len() implies #[trigger] answers[j] == if j < entries.len() {
        Some(Ok::<DirEntry, FsError>(entries[j]))
    } else {
        None
    } by {
        lemma_listing_position(entries, states, answers, j);
        assert(next_step(states[j], answers[j], states[j + 1]));
        if j < entries.len() {
            assert(states[j].remaining()[0] == entries[j]);
        }
    }
}

} // verus!
