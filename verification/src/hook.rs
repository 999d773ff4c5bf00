//! Hook points: user-supplied executables invoked around editing and
//! rollover.  The core only knows their names and when one counts as
//! enabled; locating and launching them is the caller's business.

use vstd::prelude::*;

verus! {

/// The lifecycle points a user can hook.
#[derive(Clone, Copy, PartialEq, Eq, Structural, Debug)]
pub enum HookType {
    /// Invoked before opening a devlog entry in a text editor, with the
    /// entry's path as its single argument.
    BeforeEdit,
    /// Invoked after the text editor exits successfully, with the entry's
    /// path as its single argument.
    AfterEdit,
    /// Invoked before rolling over a devlog entry, with the old entry's
    /// path as its single argument.
    BeforeRollover,
    /// Invoked after rolling over a devlog entry, with the old and the new
    /// entry's paths as its two arguments.
    AfterRollover,
}

impl HookType {
    /// The name of the hook, which is also its filename on disk.
    pub fn name(&self) -> (r: String)
        ensures
            r@ == match *self {
                HookType::BeforeEdit => "before-edit"@,
                HookType::AfterEdit => "after-edit"@,
                HookType::BeforeRollover => "before-rollover"@,
                HookType::AfterRollover => "after-rollover"@,
            },
    {
        match *self {
            HookType::BeforeEdit => "before-edit".to_owned(),
            HookType::AfterEdit => "after-edit".to_owned(),
            HookType::BeforeRollover => "before-rollover".to_owned(),
            HookType::AfterRollover => "after-rollover".to_owned(),
        }
    }
}

/// Whether a file mode marks its file executable: some execute permission
/// bit is set for user, group or other.
pub fn is_executable(mode: u32) -> (r: bool)
    ensures
        r == (mode & 0o111 != 0),
{
    mode & 0o111 != 0
}

/// Whether a hook file is enabled: it exists and its mode marks it
/// executable.  A hook that is absent or not executable is a silent no-op.
pub fn is_valid(exists: bool, mode: u32) -> (r: bool)
    ensures
        r == (exists && mode & 0o111 != 0),
{
    exists && is_executable(mode)
}

} // verus!
