//! What can go wrong while a mock is set up or taken down.

use vstd::prelude::*;

verus! {

/// Why a mock could not be set up, or could not be taken down cleanly.
#[derive(Debug, Clone, Copy, PartialEq, Eq, Structural)]
pub enum MockError {
    /// A temporary directory or file could not be created or written.
    Resource,
    /// A file already stands where the script was to be created.
    AlreadyExists,
    /// The search path variable is not set, or its new value cannot be put
    /// together.
    Environment,
    /// The script could not be made runnable by its owner.
    Permission,
}

/// The steps of setting up a mock that touch the file system.
#[derive(Debug, Clone, Copy, PartialEq, Eq, Structural)]
pub enum Step {
    /// Creating the directory that will hold the script.
    Directory,
    /// Creating and filling the two files that hold the recorded output.
    Staging,
    /// Creating the script, runnable by its owner, and writing its text.
    Script,
}

/// What the operating system said when a step failed.
#[derive(Debug, Clone, Copy, PartialEq, Eq, Structural)]
pub enum Cause {
    /// Something already exists under the name.
    AlreadyExists,
    /// Permission was denied.
    PermissionDenied,
    /// Anything else: no space, an interrupted write, and so on.
    Other,
}

impl MockError {
    /// The error to report for a step that failed.
    ///
    /// Only the script is created under a name that the caller chose and with
    /// a mode of its own, so only there a name that is taken and a denied
    /// permission are told apart; every other failure is a failure to get or
    /// fill a temporary resource.
    pub fn from_failure(step: Step, cause: Cause) -> (error: MockError)
        ensures
            error is AlreadyExists <==> step is Script && cause is AlreadyExists,
            error is Permission <==> step is Script && cause is PermissionDenied,
            error is Resource <==> !(step is Script) || cause is Other,
    {
        match (step, cause) {
            (Step::Script, Cause::AlreadyExists) => MockError::AlreadyExists,
            (Step::Script, Cause::PermissionDenied) => MockError::Permission,
            _ => MockError::Resource,
        }
    }
}

} // verus!
