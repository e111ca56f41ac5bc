use vstd::prelude::*;

verus! {

/// The failure kinds of the retention engine. All of them abort the
/// current run; none is retried internally.
#[derive(Clone, Copy, Debug, PartialEq, Eq, Structural)]
pub enum RetentionError {
    /// Eviction ran out of candidates while space was still insufficient.
    DiskSpace,
    /// An entry in the backup directory does not match the snapshot-name
    /// grammar, or its timestamp does not denote a valid instant.
    FilenameFormat,
    /// The version portion of a snapshot name is not 1 to 3 dot-separated
    /// non-negative integers.
    VersionFormat,
    /// The live artifact's link target does not carry a version.
    ArtifactPath,
    /// No ancestor of the backup root reports mount statistics.
    NoMount,
    /// A path component is not valid text.
    Utf8,
    /// A filesystem or archiving call failed.
    Io,
}

} // verus!
