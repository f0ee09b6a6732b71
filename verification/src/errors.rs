use vstd::prelude::*;

verus! {

/// The error taxonomy of the library: naming conflicts, invariant violations,
/// and propagated filesystem or configuration failures.
#[derive(Debug, Clone)]
pub enum NottoError {
    /// A named context is missing from the configuration.
    ContextNotFound { context: String },
    /// A filesystem operation failed (missing parent, wrong node kind, ...).
    ConfigDirectory { message: String },
    /// The home directory could not be resolved.
    HomeDirectoryNotFound,
    /// The configuration file could not be read or written.
    LoadConfigError { message: String },
    /// A save would overwrite an existing note without permission.
    NoteExists { note_name: String },
    /// The tree is not in the state an operation expected.
    FileError { message: String },
    /// A note could not be created.
    CreateNoteError { message: String },
}

} // verus!
