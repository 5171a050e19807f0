//! The cross-process lock that is held for the duration of a probe.
//!
//! A probe rewrites a source file in place, so two probes of the same crate at
//! once — two `cargo hole` invocations, or a CLI run beside an editor plugin —
//! would restore each other's bytes and produce nonsense diagnostics.
use vstd::prelude::*;

use crate::patching::LOCK_NAME;
use crate::path::{join, joined};
use crate::text::{decimal, decimal_of, owned};

verus! {

/// An advisory lock.
#[derive(Debug)]
pub struct ProbeLock {
    /// False when the lock file could not be created at all.
    pub held: bool,
    pub path: String,
}

/// What came of opening the lock file.
#[derive(Debug)]
pub enum LockOpen {
    Opened,
    /// Not allowed to, or the filesystem is read-only.
    ReadOnly,
    Failed(String),
}

/// What came of trying to take the lock.
#[derive(Debug)]
pub enum LockTry {
    Taken,
    /// Someone else has it.
    WouldBlock,
    Failed(String),
}

/// How to go on with taking the lock.
#[derive(Debug)]
pub enum LockStep {
    /// Try to take it.
    Try,
    /// Try again in a moment.
    TryAgain,
    /// Go on with this.
    Done(ProbeLock),
    Fail(String),
}

/// Where the lock file of a crate is.
pub open spec fn lock_path(root: Seq<char>) -> Seq<char> {
    joined(root, LOCK_NAME@)
}

/// The message about a lock that someone else has held for too long.
pub open spec fn lock_timeout_text(root: Seq<char>, wait: nat) -> Seq<char> {
    "another `cargo hole` has been probing "@ + root + " for over "@ + decimal_of(wait)
        + "s (lock "@ + lock_path(root)
        + "); wait for it to finish, or delete the lock file if it is gone"@
}

impl ProbeLock {
    /// Where the lock file of a crate is.
    pub fn path_for(root: &str) -> (r: String)
        ensures
            r@ == lock_path(root@),
    {
        join(root, LOCK_NAME)
    }

    /// Begin taking the lock, once the lock file was opened or was not.
    ///
    /// A read-only checkout cannot create the lock file. That is not worth
    /// failing over: the probe is about to fail with a clear message about the
    /// write anyway, and refusing here would replace that message with a
    /// confusing one about locking. So the lock is returned unheld.
    pub fn acquire(root: &str, opened: LockOpen) -> (r: LockStep)
        ensures
            match opened {
                LockOpen::Opened => r is Try,
                LockOpen::ReadOnly => r is Done && !r->Done_0.held && r->Done_0.path@ == lock_path(
                    root@,
                ),
                LockOpen::Failed(e) => r is Fail && r->Fail_0@ == "cannot open lock "@ + lock_path(
                    root@,
                ) + ": "@ + e@,
            },
    {
        match opened {
            LockOpen::Opened => LockStep::Try,
            LockOpen::ReadOnly => LockStep::Done(
                ProbeLock { held: false, path: ProbeLock::path_for(root) },
            ),
            LockOpen::Failed(e) => {
                let mut m = owned("cannot open lock ");
                m.push_str(ProbeLock::path_for(root).as_str());
                m.push_str(": ");
                m.push_str(e.as_str());
                LockStep::Fail(m)
            },
        }
    }

    /// Go on after an attempt to take the lock. `wait` is how many seconds to
    /// wait for another holder to finish, and `past_deadline` whether they are
    /// over.
    pub fn after_try(root: &str, wait: u64, tried: LockTry, past_deadline: bool) -> (r: LockStep)
        ensures
            match tried {
                LockTry::Taken => r is Done && r->Done_0.held && r->Done_0.path@ == lock_path(
                    root@,
                ),
                LockTry::WouldBlock => if past_deadline {
                    r is Fail && r->Fail_0@ == lock_timeout_text(root@, wait as nat)
                } else {
                    r is TryAgain
                },
                LockTry::Failed(e) => r is Fail && r->Fail_0@ == "cannot lock "@ + lock_path(root@)
                    + ": "@ + e@,
            },
    {
        match tried {
            LockTry::Taken => LockStep::Done(
                ProbeLock { held: true, path: ProbeLock::path_for(root) },
            ),
            LockTry::WouldBlock => {
                if !past_deadline {
                    return LockStep::TryAgain;
                }
                let mut m = owned("another `cargo hole` has been probing ");
                m.push_str(root);
                m.push_str(" for over ");
                m.push_str(decimal(wait).as_str());
                m.push_str("s (lock ");
                m.push_str(ProbeLock::path_for(root).as_str());
                m.push_str("); wait for it to finish, or delete the lock file if it is gone");
                LockStep::Fail(m)
            },
            LockTry::Failed(e) => {
                let mut m = owned("cannot lock ");
                m.push_str(ProbeLock::path_for(root).as_str());
                m.push_str(": ");
                m.push_str(e.as_str());
                LockStep::Fail(m)
            },
        }
    }

    /// Whether the lock is actually held.
    pub fn is_held(&self) -> (r: bool)
        ensures
            r == self.held,
    {
        self.held
    }

    /// The lock file.
    pub fn path(&self) -> (r: &str)
        ensures
            r@ == self.path@,
    {
        self.path.as_str()
    }
}

} // verus!
