//! The records of files and the failures of a run.

use vstd::prelude::*;
use vstd::std_specs::convert::FromSpecImpl;
use vstd::string::StringExecFns;

verus! {

/// A regular file found during traversal.
#[derive(Debug, PartialEq, Eq)]
pub struct FileInfo {
    /// Traversal depth of the file below its root.
    pub depth: usize,
    /// Last modification time in nanoseconds since the Unix epoch, if known.
    pub mtime: Option<i128>,
    /// Path of the file as it was walked.
    pub path: String,
}

/// The mathematical value of a [`FileInfo`].
pub struct FileInfoView {
    pub depth: nat,
    pub mtime: Option<int>,
    pub path: Seq<char>,
}

impl View for FileInfo {
    type V = FileInfoView;

    open spec fn view(&self) -> FileInfoView {
        FileInfoView {
            depth: self.depth as nat,
            mtime: match self.mtime {
                Some(t) => Some(t as int),
                None => None,
            },
            path: self.path@,
        }
    }
}

/// The values of a sequence of file records, in order.
pub open spec fn views_of(files: Seq<FileInfo>) -> Seq<FileInfoView> {
    files.map_values(|f: FileInfo| f@)
}

impl FileInfo {
    /// The path in printable form.
    pub fn display(&self) -> (text: &str)
        ensures
            text@ == self.path@,
    {
        self.path.as_str()
    }
}

/// `std::io::Error`, carried through as it is: nothing is read out of it
/// but its text.
#[verifier::external_type_specification]
#[verifier::external_body]
pub struct ExIoError(std::io::Error);

/// Everything that can make a run fail.
#[derive(Debug)]
pub enum Error {
    /// A symlink cycle was found at the given directory.
    RecursiveLinks(String),
    /// Reading a directory, file metadata or file content failed.
    IOError(std::io::Error),
    /// A sort criterion was named that does not exist.
    InvalidSortKey(String),
    /// A sort criterion was named more than once.
    DuplicateSortKeys,
}

impl From<std::io::Error> for Error {
    fn from(err: std::io::Error) -> (e: Error) {
        Error::IOError(err)
    }
}

impl FromSpecImpl<std::io::Error> for Error {
    open spec fn obeys_from_spec() -> bool {
        true
    }

    open spec fn from_spec(err: std::io::Error) -> Error {
        Error::IOError(err)
    }
}

/// `std::io::Error`'s `Display` text. The text of an operating-system
/// error comes from the platform, so nothing is claimed of it.
#[verifier::external_body]
fn io_error_text(err: &std::io::Error) -> (text: String) {
    err.to_string()
}

/// The diagnostic line of an error that carries no I/O failure.
pub open spec fn message_of(err: Error) -> Seq<char> {
    match err {
        Error::RecursiveLinks(path) => "Cycle in links detected at: "@ + path@,
        Error::IOError(_) => Seq::empty(),
        Error::InvalidSortKey(key) => "Invalid sort key: "@ + key@,
        Error::DuplicateSortKeys => "Duplicate sort keys provided"@,
    }
}

impl Error {
    /// Classifies a traversal failure from what the walker reports of it:
    /// the directory a symlink cycle leads back to, if the failure is a
    /// cycle, and the I/O failure behind it otherwise. A cycle takes
    /// precedence.
    pub fn from_walk(loop_ancestor: Option<String>, io_error: Option<std::io::Error>) -> (e: Error)
        requires
            loop_ancestor is Some || io_error is Some,
        ensures
            match loop_ancestor {
                Some(path) => e == Error::RecursiveLinks(path),
                None => e == Error::IOError(io_error->0),
            },
    {
        match loop_ancestor {
            Some(path) => Error::RecursiveLinks(path),
            None => match io_error {
                Some(cause) => Error::IOError(cause),
                None => unreached(),
            },
        }
    }

    /// The one-line diagnostic for this error. For an I/O failure it is the
    /// failure's own description.
    pub fn message(&self) -> (text: String)
        ensures
            !(self is IOError) ==> text@ == message_of(*self),
    {
        match self {
            Error::RecursiveLinks(path) => String::from_str("Cycle in links detected at: ").concat(
                path.as_str(),
            ),
            Error::IOError(cause) => io_error_text(cause),
            Error::InvalidSortKey(key) => String::from_str("Invalid sort key: ").concat(
                key.as_str(),
            ),
            Error::DuplicateSortKeys => String::from_str("Duplicate sort keys provided"),
        }
    }
}

} // verus!
