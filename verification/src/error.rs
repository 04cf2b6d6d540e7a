//! Error classification for per-entry failures, and the human-readable
//! messages the tool logs for them.

use vstd::prelude::*;

verus! {

/// The classification of an I/O failure, for a human-readable message.
#[derive(Clone, Copy, PartialEq, Eq, Structural, Debug)]
pub enum IoErrorKind {
    NotFound,
    PermissionDenied,
    Other,
}

/// A per-entry failure: either an I/O error or a missing creation time.
/// `detail` carries the underlying error's own text.
pub enum FileTimeError {
    IoError { kind: IoErrorKind, detail: String },
    ElapsedError { detail: String },
}

/// The message logged for an I/O failure on a path.
pub open spec fn spec_io_error_message(kind: IoErrorKind, path: Seq<char>, detail: Seq<char>) -> Seq<
    char,
> {
    match kind {
        IoErrorKind::NotFound => "The specified path "@ + path + " probably doesn't exist"@,
        IoErrorKind::PermissionDenied => "The program doesn't have permission to access "@ + path,
        IoErrorKind::Other => "Could not read directory \""@ + path + "\" due to the error:\n"@
            + detail,
    }
}

/// The message logged for a per-entry failure on a path.
pub open spec fn spec_file_time_error_message(err: FileTimeError, path: Seq<char>) -> Seq<char> {
    match err {
        FileTimeError::IoError { kind, detail } => spec_io_error_message(kind, path, detail@),
        FileTimeError::ElapsedError { detail } => "Could not get elapsed time for file \""@ + path
            + "\" due to the error:\n"@ + detail@,
    }
}

/// Builds the message logged for an I/O failure: which of the three
/// classified causes it was, naming the offending path, and quoting the
/// underlying error's text for an unclassified cause.
pub fn io_error_message(kind: &IoErrorKind, path: &str, detail: &str) -> (r: String)
    ensures
        r@ == spec_io_error_message(*kind, path@, detail@),
{
    match kind {
        IoErrorKind::NotFound => {
            let mut s = String::from_str("The specified path ");
            s.append(path);
            s.append(" probably doesn't exist");
            s
        },
        IoErrorKind::PermissionDenied => {
            let mut s = String::from_str("The program doesn't have permission to access ");
            s.append(path);
            s
        },
        IoErrorKind::Other => {
            let mut s = String::from_str("Could not read directory \"");
            s.append(path);
            s.append("\" due to the error:\n");
            s.append(detail);
            s
        },
    }
}

/// Builds the message logged for a per-entry failure: an I/O failure keeps
/// its classified message; a missing creation time names the path and
/// quotes the underlying error's text.
pub fn file_time_error_message(err: &FileTimeError, path: &str) -> (r: String)
    ensures
        r@ == spec_file_time_error_message(*err, path@),
{
    match err {
        FileTimeError::IoError { kind, detail } => io_error_message(kind, path, detail.as_str()),
        FileTimeError::ElapsedError { detail } => {
            let mut s = String::from_str("Could not get elapsed time for file \"");
            s.append(path);
            s.append("\" due to the error:\n");
            s.append(detail.as_str());
            s
        },
    }
}

} // verus!
