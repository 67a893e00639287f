//! Errors produced by the `fa10` library.
use vstd::prelude::*;

verus! {

/// Errors produced by the `fa10` library. Paths are carried as strings.
#[derive(Debug, Clone)]
pub enum Fa10Error {
    /// An I/O failure, described by its message.
    Io(String),
    BadFormat(String),
    FooterCrcMismatch,
    ContentHashMismatch,
    TargetTooSmall { requested: u64, minimum: u64 },
    BadSize { input: String, reason: String },
    EmptyPattern,
    ProtectedPath(String),
    InsufficientSpace { needed: u64, available: u64, min_free: u64 },
    SizeCapExceeded { size: u64, cap: u64 },
    BatchLimitExceeded { count: usize, limit: usize },
    OutputExists(String),
    InPlaceNeedsConfirm,
    BadFilename,
    NoInputs,
    InPlaceNotSingleFile,
    DuplicateEntry(String),
    SymlinkCycle(String),
    UnsafeEntryPath(String),
    NotAnArchive(String),
}

/// The mathematical value of a [`Fa10Error`]: the same variants, with every
/// string replaced by its sequence of characters.
pub enum ErrorView {
    Io(Seq<char>),
    BadFormat(Seq<char>),
    FooterCrcMismatch,
    ContentHashMismatch,
    TargetTooSmall { requested: u64, minimum: u64 },
    BadSize { input: Seq<char>, reason: Seq<char> },
    EmptyPattern,
    ProtectedPath(Seq<char>),
    InsufficientSpace { needed: u64, available: u64, min_free: u64 },
    SizeCapExceeded { size: u64, cap: u64 },
    BatchLimitExceeded { count: usize, limit: usize },
    OutputExists(Seq<char>),
    InPlaceNeedsConfirm,
    BadFilename,
    NoInputs,
    InPlaceNotSingleFile,
    DuplicateEntry(Seq<char>),
    SymlinkCycle(Seq<char>),
    UnsafeEntryPath(Seq<char>),
    NotAnArchive(Seq<char>),
}

impl View for Fa10Error {
    type V = ErrorView;

    open spec fn view(&self) -> ErrorView {
        match self {
            Fa10Error::Io(m) => ErrorView::Io(m@),
            Fa10Error::BadFormat(m) => ErrorView::BadFormat(m@),
            Fa10Error::FooterCrcMismatch => ErrorView::FooterCrcMismatch,
            Fa10Error::ContentHashMismatch => ErrorView::ContentHashMismatch,
            Fa10Error::TargetTooSmall { requested, minimum } => ErrorView::TargetTooSmall {
                requested: *requested,
                minimum: *minimum,
            },
            Fa10Error::BadSize { input, reason } => ErrorView::BadSize {
                input: input@,
                reason: reason@,
            },
            Fa10Error::EmptyPattern => ErrorView::EmptyPattern,
            Fa10Error::ProtectedPath(p) => ErrorView::ProtectedPath(p@),
            Fa10Error::InsufficientSpace { needed, available, min_free } =>
                ErrorView::InsufficientSpace {
                needed: *needed,
                available: *available,
                min_free: *min_free,
            },
            Fa10Error::SizeCapExceeded { size, cap } => ErrorView::SizeCapExceeded {
                size: *size,
                cap: *cap,
            },
            Fa10Error::BatchLimitExceeded { count, limit } => ErrorView::BatchLimitExceeded {
                count: *count,
                limit: *limit,
            },
            Fa10Error::OutputExists(p) => ErrorView::OutputExists(p@),
            Fa10Error::InPlaceNeedsConfirm => ErrorView::InPlaceNeedsConfirm,
            Fa10Error::BadFilename => ErrorView::BadFilename,
            Fa10Error::NoInputs => ErrorView::NoInputs,
            Fa10Error::InPlaceNotSingleFile => ErrorView::InPlaceNotSingleFile,
            Fa10Error::DuplicateEntry(p) => ErrorView::DuplicateEntry(p@),
            Fa10Error::SymlinkCycle(p) => ErrorView::SymlinkCycle(p@),
            Fa10Error::UnsafeEntryPath(p) => ErrorView::UnsafeEntryPath(p@),
            Fa10Error::NotAnArchive(p) => ErrorView::NotAnArchive(p@),
        }
    }
}

/// The view of a result whose error is a [`Fa10Error`], with the success
/// value kept as it is.
pub open spec fn err_view<T>(r: Result<T, Fa10Error>) -> Result<T, ErrorView> {
    match r {
        Ok(v) => Ok(v),
        Err(e) => Err(e@),
    }
}

} // verus!
