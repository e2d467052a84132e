use vstd::prelude::*;

verus! {

/// The error taxonomy of the store and its codecs.
///
/// `NotFound`: a history or key was absent on lookup or delete.
/// `CorruptData`: persisted or imported content failed to parse into the
/// expected two-level string-to-string-to-string shape.
/// `InvalidInput`: an empty required field, such as an empty search term.
/// `UnsupportedFormat`: an export or import format other than JSON or CSV.
/// `IoFailure` and `ClipboardUnavailable` arise only at the process
/// boundary outside this library, but belong to the same taxonomy so that
/// callers can surface every failure uniformly.
#[derive(Clone, Copy, Debug, PartialEq, Eq, Structural)]
pub enum StoreError {
    NotFound,
    CorruptData,
    InvalidInput,
    UnsupportedFormat,
    IoFailure,
    ClipboardUnavailable,
}

/// The two interchange formats for export and import.
#[derive(Clone, Copy, Debug, PartialEq, Eq, Structural)]
pub enum Format {
    Json,
    Csv,
}

} // verus!
