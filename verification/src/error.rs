use vstd::prelude::*;

verus! {

/// Why an operation on overlays did not go through.
#[derive(Debug, Clone, Copy, PartialEq, Eq, Structural)]
pub enum ModError {
    /// An overlay of that name is already registered.
    DuplicateOverlay,
    /// The source tree holds no file.
    NoFilesFound,
    /// The source path names no directory.
    SourceNotFound,
    /// A managed path does not lie under the overlay's managed directory.
    MappingError,
    /// The installation root has not been configured.
    InstallRootUnset,
    /// A copy, delete or mkdir failed after `processed` files had gone through.
    IOFailure { processed: usize },
}

impl ModError {
    /// The error's text, as shown to a user.
    pub fn message(&self) -> (text: String)
        ensures
            text@ == (match *self {
                ModError::DuplicateOverlay => "overlay already registered"@,
                ModError::NoFilesFound => "no files found in the source directory"@,
                ModError::SourceNotFound => "source directory not found"@,
                ModError::MappingError => "path lies outside the overlay's managed directory"@,
                ModError::InstallRootUnset => "installation root is not set"@,
                ModError::IOFailure { .. } => "file operation failed"@,
            }),
    {
        match self {
            ModError::DuplicateOverlay => String::from_str("overlay already registered"),
            ModError::NoFilesFound => String::from_str("no files found in the source directory"),
            ModError::SourceNotFound => String::from_str("source directory not found"),
            ModError::MappingError => String::from_str(
                "path lies outside the overlay's managed directory",
            ),
            ModError::InstallRootUnset => String::from_str("installation root is not set"),
            ModError::IOFailure { .. } => String::from_str("file operation failed"),
        }
    }
}

} // verus!
