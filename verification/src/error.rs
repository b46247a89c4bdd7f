//! The errors of the queue.
use vstd::prelude::*;

verus! {

/// `std::io::Error`, an opaque value that is only carried through.
#[verifier::external_type_specification]
#[verifier::external_body]
pub struct ExIoError(std::io::Error);

/// Why an operation on the queue failed.
#[derive(Debug)]
pub enum QueueBackendError {
    /// The message does not fit in the segment.
    SegmentFull,
    /// The file is too small to be a segment.
    SegmentFileInvalid,
    /// The operating system reported an error.
    Io(std::io::Error),
}

pub type QueueBackendResult<T> = Result<T, QueueBackendError>;

impl From<std::io::Error> for QueueBackendError {
    fn from(from: std::io::Error) -> (error: QueueBackendError) {
        QueueBackendError::Io(from)
    }
}

impl vstd::std_specs::convert::FromSpecImpl<std::io::Error> for QueueBackendError {
    open spec fn obeys_from_spec() -> bool {
        true
    }

    open spec fn from_spec(from: std::io::Error) -> QueueBackendError {
        QueueBackendError::Io(from)
    }
}

/// An error of the operating system is handed on as it is.
pub proof fn law_io_errors_are_handed_on(from: std::io::Error)
    ensures
        <QueueBackendError as vstd::std_specs::convert::FromSpec<std::io::Error>>::from_spec(from)
            == QueueBackendError::Io(from),
{
}

} // verus!
