//! The failure taxonomy shared by every component: OS calls that set `errno`,
//! higher-level filesystem operations, and paths that cannot be decoded as
//! text.

use vstd::prelude::*;

verus! {

/// The description string that the OS associates with an errno value.  It is a
/// function of the value alone: two lookups of the same code give the same
/// text.
pub uninterp spec fn errno_text(code: i32) -> Seq<char>;

/// Relies on `nix::errno::Errno::last_raw`: reads the calling thread's current
/// `errno` value.  The result depends on whatever OS call ran last, so nothing
/// is promised of it.
#[verifier::external_body]
fn last_errno_raw() -> i32 {
    nix::errno::Errno::last_raw()
}

/// Relies on `nix::errno::Errno::from_raw` and `Errno::desc`: maps an errno
/// value to its static description.  `from_raw` folds unknown codes into a
/// sentinel and `desc` is a pure match over the variants, so the text depends
/// on the code alone.
#[verifier::external_body]
fn errno_description(code: i32) -> (r: String)
    ensures
        r@ == errno_text(code),
{
    nix::errno::Errno::from_raw(code).desc().to_string()
}

/// A failure while handling one watched file.
///
/// The taxonomy is closed: an OS-level call that failed (carrying the numeric
/// errno and its description), a higher-level filesystem operation that
/// failed, or a path that could not be interpreted as text.
#[derive(Debug)]
pub enum LogHandleError {
    /// A path could not be decoded as text; carries the offending path,
    /// lossily rendered.
    Utf8(String),
    /// An OS call failed; carries the errno value and its description.
    Syscall(i32, String),
    /// A filesystem operation (rename, remove, create, metadata) failed;
    /// carries the operation's own report.
    IO(String),
}

impl LogHandleError {
    /// The human-readable text carried by an error, whatever its class.
    pub open spec fn text(&self) -> Seq<char> {
        match self {
            LogHandleError::Utf8(s) => s@,
            LogHandleError::Syscall(_, s) => s@,
            LogHandleError::IO(s) => s@,
        }
    }

    /// Builds a [`LogHandleError::Syscall`] from the calling thread's current
    /// `errno`, pairing the code with its OS description.
    pub fn from_errno() -> (r: Self)
        ensures
            r matches LogHandleError::Syscall(code, msg) && msg@ == errno_text(code),
    {
        let code = last_errno_raw();
        let msg = errno_description(code);
        LogHandleError::Syscall(code, msg)
    }

    /// The error's description, the same text for every class.
    pub fn description(&self) -> (r: String)
        ensures
            r@ == self.text(),
    {
        match self {
            LogHandleError::Utf8(s) => s.clone(),
            LogHandleError::Syscall(_, s) => s.clone(),
            LogHandleError::IO(s) => s.clone(),
        }
    }
}

} // verus!
