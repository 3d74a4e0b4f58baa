//! The lock that keeps two watchers off one project. The lock file is never
//! deleted: it holds the process id of the watcher that took it, and a lock
//! whose process has gone is taken over. Reading and writing the file and
//! asking whether a process runs are left to the caller; the decisions are
//! here.
use vstd::prelude::*;
use crate::text::{IntErrorKind, decimal, parse_unsigned};

verus! {

/// Why the lock could not be taken.
#[derive(Debug, Clone, PartialEq, Eq)]
pub enum Error {
    /// Another watcher, with this process id, holds it.
    Locked(u32),
    /// The lock file does not hold a process id.
    ParsingLockfile(IntErrorKind),
    /// The lock file could not be read (the text of the I/O error).
    ReadingLockfile(String),
    /// The lock file could not be written (the text of the I/O error).
    WritingLockfile(String),
}

/// The text that `ParseIntError` shows for each kind of failure.
pub open spec fn int_error_text(kind: IntErrorKind) -> Seq<char> {
    match kind {
        IntErrorKind::Empty => "cannot parse integer from empty string"@,
        IntErrorKind::InvalidDigit => "invalid digit found in string"@,
        IntErrorKind::PosOverflow => "number too large to fit in target type"@,
    }
}

pub open spec fn error_message(e: Error) -> Seq<char> {
    match e {
        Error::Locked(pid) => "Rewatch is already running with PID "@ + decimal(pid as nat),
        Error::ParsingLockfile(k) => "Could not parse lockfile: \n "@ + int_error_text(k),
        Error::ReadingLockfile(t) => "Could not read lockfile: \n "@ + t@,
        Error::WritingLockfile(t) => "Could not write lockfile: \n "@ + t@,
    }
}

fn int_error_message(kind: IntErrorKind) -> (r: String)
    ensures
        r@ == int_error_text(kind),
{
    match kind {
        IntErrorKind::Empty => "cannot parse integer from empty string".to_owned(),
        IntErrorKind::InvalidDigit => "invalid digit found in string".to_owned(),
        IntErrorKind::PosOverflow => "number too large to fit in target type".to_owned(),
    }
}

impl Error {
    /// The message shown to the user.
    pub fn message(&self) -> (r: String)
        ensures
            r@ == error_message(*self),
    {
        match self {
            Error::Locked(pid) => {
                let mut r = "Rewatch is already running with PID ".to_owned();
                r.append(crate::text::format_u64(*pid as u64).as_str());
                r
            },
            Error::ParsingLockfile(k) => {
                let mut r = "Could not parse lockfile: \n ".to_owned();
                r.append(int_error_message(*k).as_str());
                r
            },
            Error::ReadingLockfile(t) => {
                let mut r = "Could not read lockfile: \n ".to_owned();
                r.append(t.as_str());
                r
            },
            Error::WritingLockfile(t) => {
                let mut r = "Could not write lockfile: \n ".to_owned();
                r.append(t.as_str());
                r
            },
        }
    }
}

/// The outcome of taking the lock.
#[derive(Debug, Clone, PartialEq, Eq)]
pub enum Lock {
    /// Taken by the process with this id.
    Locked(u32),
    Error(Error),
}

/// What reading the lock file gave.
#[derive(Debug, Clone, PartialEq, Eq)]
pub enum LockfileRead {
    /// There is no lock file.
    NotFound,
    /// Reading failed otherwise (the text of the I/O error).
    Failed(String),
    /// The contents of the lock file.
    Contents(String),
}

/// The next thing to do while taking the lock.
#[derive(Debug, Clone, PartialEq, Eq)]
pub enum LockStep {
    /// Write our own process id into the lock file.
    Create,
    /// Ask whether the process with this id still runs.
    CheckRunning(u32),
    /// Done, with this outcome.
    Finish(Lock),
}

/// After reading the lock file: no file means it is free; a process id is
/// checked; anything else is an error.
pub open spec fn step_after_read(read: LockfileRead) -> LockStep {
    match read {
        LockfileRead::NotFound => LockStep::Create,
        LockfileRead::Failed(t) => LockStep::Finish(Lock::Error(Error::ReadingLockfile(t))),
        LockfileRead::Contents(s) => match parse_unsigned(s@, u32::MAX as int) {
            Ok(p) => LockStep::CheckRunning(p as u32),
            Err(k) => LockStep::Finish(Lock::Error(Error::ParsingLockfile(k))),
        },
    }
}

pub fn after_read(read: LockfileRead) -> (r: LockStep)
    ensures
        r == step_after_read(read),
{
    match read {
        LockfileRead::NotFound => LockStep::Create,
        LockfileRead::Failed(t) => LockStep::Finish(Lock::Error(Error::ReadingLockfile(t))),
        LockfileRead::Contents(s) => match crate::text::parse_decimal(s.as_str(), u32::MAX as u64) {
            Ok(p) => {
                proof {
                    crate::text::lemma_parse_unsigned_bound(s@, u32::MAX as int);
                }
                LockStep::CheckRunning(p as u32)
            },
            Err(k) => LockStep::Finish(Lock::Error(Error::ParsingLockfile(k))),
        },
    }
}

/// After asking whether the holder runs: a running holder keeps the lock, a
/// gone one loses it to us.
pub open spec fn step_after_check(holder: u32, running: bool) -> LockStep {
    if running {
        LockStep::Finish(Lock::Error(Error::Locked(holder)))
    } else {
        LockStep::Create
    }
}

pub fn after_check(holder: u32, running: bool) -> (r: LockStep)
    ensures
        r == step_after_check(holder, running),
{
    if running {
        LockStep::Finish(Lock::Error(Error::Locked(holder)))
    } else {
        LockStep::Create
    }
}

/// After writing our process id: the lock is ours, unless writing failed
/// (`failure` holds the text of the I/O error).
pub open spec fn lock_after_create(pid: u32, failure: Option<String>) -> Lock {
    match failure {
        None => Lock::Locked(pid),
        Some(t) => Lock::Error(Error::WritingLockfile(t)),
    }
}

pub fn after_create(pid: u32, failure: Option<String>) -> (r: Lock)
    ensures
        r == lock_after_create(pid, failure),
{
    match failure {
        None => Lock::Locked(pid),
        Some(t) => Lock::Error(Error::WritingLockfile(t)),
    }
}

/// A holder that still runs keeps the lock: taking it ends with the error
/// that names the holder, never with writing our own id.
pub proof fn lemma_running_holder_keeps_lock(holder: u32)
    ensures
        step_after_check(holder, true) == LockStep::Finish(Lock::Error(Error::Locked(holder))),
{
}

/// A lock file that names a process that has gone is taken over.
pub proof fn lemma_stale_lock_taken_over(contents: String, holder: u32)
    requires
        parse_unsigned(contents@, u32::MAX as int) == Ok::<int, IntErrorKind>(holder as int),
    ensures
        step_after_read(LockfileRead::Contents(contents)) == LockStep::CheckRunning(holder),
        step_after_check(holder, false) == LockStep::Create,
{
}

} // verus!
