use rewatch::lock::{after_check, after_create, after_read, Error, Lock, LockStep, LockfileRead};
use rewatch::text::IntErrorKind;

#[test]
fn missing_lock_file_is_created() {
    assert_eq!(after_read(LockfileRead::NotFound), LockStep::Create);
}

#[test]
fn holder_is_checked() {
    assert_eq!(after_read(LockfileRead::Contents("4242".to_string())), LockStep::CheckRunning(4242));
    assert_eq!(after_read(LockfileRead::Contents("+7".to_string())), LockStep::CheckRunning(7));
    assert_eq!(after_check(4242, true), LockStep::Finish(Lock::Error(Error::Locked(4242))));
    assert_eq!(after_check(4242, false), LockStep::Create);
}

#[test]
fn unreadable_lock_files_are_errors() {
    assert_eq!(
        after_read(LockfileRead::Contents("".to_string())),
        LockStep::Finish(Lock::Error(Error::ParsingLockfile(IntErrorKind::Empty)))
    );
    assert_eq!(
        after_read(LockfileRead::Contents("12a".to_string())),
        LockStep::Finish(Lock::Error(Error::ParsingLockfile(IntErrorKind::InvalidDigit)))
    );
    assert_eq!(
        after_read(LockfileRead::Contents("4294967296".to_string())),
        LockStep::Finish(Lock::Error(Error::ParsingLockfile(IntErrorKind::PosOverflow)))
    );
    assert_eq!(
        after_read(LockfileRead::Failed("denied".to_string())),
        LockStep::Finish(Lock::Error(Error::ReadingLockfile("denied".to_string())))
    );
}

#[test]
fn writing_the_lock() {
    assert_eq!(after_create(99, None), Lock::Locked(99));
    assert_eq!(after_create(99, Some("full".to_string())), Lock::Error(Error::WritingLockfile("full".to_string())));
}

#[test]
fn error_messages() {
    assert_eq!(Error::Locked(12).message(), "Rewatch is already running with PID 12");
    assert_eq!(
        Error::ParsingLockfile(IntErrorKind::InvalidDigit).message(),
        "Could not parse lockfile: \n invalid digit found in string"
    );
    assert_eq!(Error::ReadingLockfile("x".to_string()).message(), "Could not read lockfile: \n x");
    assert_eq!(Error::WritingLockfile("y".to_string()).message(), "Could not write lockfile: \n y");
    assert_eq!(
        "".parse::<u32>().unwrap_err().to_string(),
        "cannot parse integer from empty string"
    );
    assert_eq!(
        "99999999999".parse::<u32>().unwrap_err().to_string(),
        "number too large to fit in target type"
    );
}
