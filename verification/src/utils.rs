//! Setting up an empty directory that can be written to.

use vstd::prelude::*;

verus! {

/// Why a directory could not be set up.
#[derive(Debug)]
pub enum EmptyDirError {
    /// The operating system reported an error.
    IoError(std::io::Error),
    /// The directory holds something, and its contents were not to be deleted.
    NonEmpty,
    /// The directory cannot be written to.
    NotWritable,
}

/// What the embedding program has found out about the directory.
pub enum DirEvent {
    /// The directory does not exist.
    Missing,
    /// The directory could not be read.
    Unreadable(std::io::Error),
    /// The directory holds a further entry: a directory if the value is `true`, something
    /// else if it is `false`, or an entry of which not even that could be found out.
    Entry(Result<bool, std::io::Error>),
    /// The directory holds no further entry.
    NoMoreEntries,
    /// The directory was to be created, and this is how that went.
    Created(Result<(), std::io::Error>),
    /// The entry found last was to be removed, and this is how that went.
    Removed(Result<(), std::io::Error>),
    /// The directory's permissions were to be read: it is read-only if the value is `true`.
    Permissions(Result<bool, std::io::Error>),
}

/// What the embedding program is to do next.
pub enum DirAction {
    /// Create the directory.
    Create,
    /// Look at the next entry of the directory.
    NextEntry,
    /// Remove the entry found last, which is not a directory.
    RemoveFile,
    /// Remove the entry found last, which is a directory, with all that is in it.
    RemoveDirAll,
    /// Read the directory's permissions.
    ReadPermissions,
    /// Stop: the directory is set up, or it cannot be.
    Done(Result<(), EmptyDirError>),
}

/// What follows on `event` when a directory is set up. The work starts with reading the
/// directory.
///
/// A directory that does not exist is created. One that exists must be empty: what it holds
/// is deleted if `delete_contents` is set, and is an error if it is not. An empty directory
/// that exists must not be read-only.
pub open spec fn next_action(delete_contents: bool, event: DirEvent) -> DirAction {
    match event {
        DirEvent::Missing => DirAction::Create,
        DirEvent::Unreadable(error) => DirAction::Done(Err(EmptyDirError::IoError(error))),
        DirEvent::Entry(entry) => if !delete_contents {
            DirAction::Done(Err(EmptyDirError::NonEmpty))
        } else {
            match entry {
                Err(error) => DirAction::Done(Err(EmptyDirError::IoError(error))),
                Ok(is_dir) => if is_dir {
                    DirAction::RemoveDirAll
                } else {
                    DirAction::RemoveFile
                },
            }
        },
        DirEvent::NoMoreEntries => DirAction::ReadPermissions,
        DirEvent::Created(result) => match result {
            Ok(_) => DirAction::Done(Ok(())),
            Err(error) => DirAction::Done(Err(EmptyDirError::IoError(error))),
        },
        DirEvent::Removed(result) => match result {
            Ok(_) => DirAction::NextEntry,
            Err(error) => DirAction::Done(Err(EmptyDirError::IoError(error))),
        },
        DirEvent::Permissions(result) => match result {
            Ok(readonly) => if readonly {
                DirAction::Done(Err(EmptyDirError::NotWritable))
            } else {
                DirAction::Done(Ok(()))
            },
            Err(error) => DirAction::Done(Err(EmptyDirError::IoError(error))),
        },
    }
}

/// Decides the next step in setting up an empty directory that can be written to, used for
/// the output directory and for the diagnostics directory.
pub fn empty_writable_dir(delete_contents: bool, event: DirEvent) -> (out: DirAction)
    ensures
        out == next_action(delete_contents, event),
{
    match event {
        DirEvent::Missing => DirAction::Create,
        DirEvent::Unreadable(error) => DirAction::Done(Err(EmptyDirError::IoError(error))),
        DirEvent::Entry(entry) => {
            if !delete_contents {
                return DirAction::Done(Err(EmptyDirError::NonEmpty));
            }
            match entry {
                Err(error) => DirAction::Done(Err(EmptyDirError::IoError(error))),
                Ok(true) => DirAction::RemoveDirAll,
                Ok(false) => DirAction::RemoveFile,
            }
        },
        DirEvent::NoMoreEntries => DirAction::ReadPermissions,
        DirEvent::Created(Ok(())) => DirAction::Done(Ok(())),
        DirEvent::Removed(Ok(())) => DirAction::NextEntry,
        DirEvent::Permissions(Ok(true)) => DirAction::Done(Err(EmptyDirError::NotWritable)),
        DirEvent::Permissions(Ok(false)) => DirAction::Done(Ok(())),
        DirEvent::Created(Err(error)) | DirEvent::Removed(Err(error)) | DirEvent::Permissions(
            Err(error),
        ) => DirAction::Done(Err(EmptyDirError::IoError(error))),
    }
}

} // verus!
