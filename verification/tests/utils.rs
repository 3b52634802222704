use harvest::utils::empty_writable_dir;
use harvest::utils::DirAction;
use harvest::utils::DirEvent;
use harvest::utils::EmptyDirError;
use std::io::Error;
use std::io::ErrorKind;

fn failure() -> Error {
    Error::from(ErrorKind::PermissionDenied)
}

fn is_io_error(action: DirAction) -> bool {
    matches!(action, DirAction::Done(Err(EmptyDirError::IoError(error))) if error.kind() == ErrorKind::PermissionDenied)
}

#[test]
fn a_missing_directory_is_created() {
    for delete_contents in [false, true] {
        assert!(matches!(
            empty_writable_dir(delete_contents, DirEvent::Missing),
            DirAction::Create
        ));
        assert!(matches!(
            empty_writable_dir(delete_contents, DirEvent::Created(Ok(()))),
            DirAction::Done(Ok(()))
        ));
        assert!(is_io_error(empty_writable_dir(
            delete_contents,
            DirEvent::Created(Err(failure()))
        )));
        assert!(is_io_error(empty_writable_dir(
            delete_contents,
            DirEvent::Unreadable(failure())
        )));
    }
}

#[test]
fn an_empty_directory_must_be_writable() {
    for delete_contents in [false, true] {
        assert!(matches!(
            empty_writable_dir(delete_contents, DirEvent::NoMoreEntries),
            DirAction::ReadPermissions
        ));
        assert!(matches!(
            empty_writable_dir(delete_contents, DirEvent::Permissions(Ok(false))),
            DirAction::Done(Ok(()))
        ));
        assert!(matches!(
            empty_writable_dir(delete_contents, DirEvent::Permissions(Ok(true))),
            DirAction::Done(Err(EmptyDirError::NotWritable))
        ));
        assert!(is_io_error(empty_writable_dir(
            delete_contents,
            DirEvent::Permissions(Err(failure()))
        )));
    }
}

#[test]
fn contents_are_an_error_unless_they_are_to_be_deleted() {
    for entry in [Ok(false), Ok(true), Err(failure())] {
        assert!(matches!(
            empty_writable_dir(false, DirEvent::Entry(entry)),
            DirAction::Done(Err(EmptyDirError::NonEmpty))
        ));
    }
    assert!(matches!(
        empty_writable_dir(true, DirEvent::Entry(Ok(false))),
        DirAction::RemoveFile
    ));
    assert!(matches!(
        empty_writable_dir(true, DirEvent::Entry(Ok(true))),
        DirAction::RemoveDirAll
    ));
    assert!(is_io_error(empty_writable_dir(
        true,
        DirEvent::Entry(Err(failure()))
    )));
    assert!(matches!(
        empty_writable_dir(true, DirEvent::Removed(Ok(()))),
        DirAction::NextEntry
    ));
    assert!(is_io_error(empty_writable_dir(
        true,
        DirEvent::Removed(Err(failure()))
    )));
}
