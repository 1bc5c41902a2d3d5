use vstd::prelude::*;

verus! {

/// Why an identifier (or a folder key) was rejected.
#[derive(Clone, Copy, Debug, PartialEq, Eq, Structural)]
pub enum IdFault {
    /// The identifier contains a backslash.
    Backslash,
    /// A component is `..`.
    ParentComponent,
    /// A component is `.`.
    CurrentComponent,
    /// The identifier starts with a separator, i.e. is an absolute path.
    AbsolutePath,
    /// A component is empty (`a//b`, a trailing `/`, or an empty identifier).
    EmptyComponent,
    /// A folder key is empty after trimming.
    EmptyFolder,
    /// A `file://` folder key could not be understood as a local path.
    BadFolderUrl,
}

/// The error kinds of the note store.
#[derive(Clone, Copy, Debug, PartialEq, Eq, Structural)]
pub enum NoteError {
    /// An operation was asked of a folder that was never opened.
    NotInitialized,
    /// The note file does not exist.
    NotFound,
    /// The identifier is malformed or would escape the folder.
    InvalidIdentifier(IdFault),
    /// A filesystem read, write or copy failed.
    IoFailure,
    /// The search index could not be updated or queried.
    IndexFailure,
}

/// The wording of each identifier fault.
pub open spec fn spec_fault_message(f: IdFault) -> Seq<char> {
    match f {
        IdFault::Backslash => "Invalid note ID: backslashes not allowed"@,
        IdFault::ParentComponent => "Invalid note ID: parent directory references not allowed"@,
        IdFault::CurrentComponent => "Invalid note ID: current directory references not allowed"@,
        IdFault::AbsolutePath => "Invalid note ID: absolute paths not allowed"@,
        IdFault::EmptyComponent => "Invalid note ID: empty path components not allowed"@,
        IdFault::EmptyFolder => "Notes folder path is empty"@,
        IdFault::BadFolderUrl => "Invalid file URL for notes folder"@,
    }
}

/// The wording of each error kind.
pub open spec fn spec_error_message(e: NoteError) -> Seq<char> {
    match e {
        NoteError::NotInitialized => "Folder not initialized"@,
        NoteError::NotFound => "Note not found"@,
        NoteError::InvalidIdentifier(f) => spec_fault_message(f),
        NoteError::IoFailure => "File operation failed"@,
        NoteError::IndexFailure => "Search index operation failed"@,
    }
}

impl NoteError {
    /// A human-readable description of the error.
    pub fn message(&self) -> (r: String)
        ensures
            r@ == spec_error_message(*self),
    {
        match self {
            NoteError::NotInitialized => String::from_str("Folder not initialized"),
            NoteError::NotFound => String::from_str("Note not found"),
            NoteError::InvalidIdentifier(f) => match f {
                IdFault::Backslash => String::from_str(
                    "Invalid note ID: backslashes not allowed",
                ),
                IdFault::ParentComponent => String::from_str(
                    "Invalid note ID: parent directory references not allowed",
                ),
                IdFault::CurrentComponent => String::from_str(
                    "Invalid note ID: current directory references not allowed",
                ),
                IdFault::AbsolutePath => String::from_str(
                    "Invalid note ID: absolute paths not allowed",
                ),
                IdFault::EmptyComponent => String::from_str(
                    "Invalid note ID: empty path components not allowed",
                ),
                IdFault::EmptyFolder => String::from_str("Notes folder path is empty"),
                IdFault::BadFolderUrl => String::from_str("Invalid file URL for notes folder"),
            },
            NoteError::IoFailure => String::from_str("File operation failed"),
            NoteError::IndexFailure => String::from_str("Search index operation failed"),
        }
    }
}

} // verus!
