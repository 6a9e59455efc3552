//! The ways a resolution can fail.

use vstd::prelude::*;
use crate::package::Range;
use crate::version::{Version, version_text_of};

verus! {

/// Why a resolution produced no versions. Every failure ends the call.
#[derive(Clone, Debug, PartialEq, Eq)]
pub enum ResolveError {
    /// A locked version lies outside an explicit root requirement.
    LockConflict { package: String, requirement: Range, locked: Version },
    /// No assignment of versions meets every requirement, or a requirement
    /// could not be read.
    ResolutionFailure { message: String },
    /// The fetch capability failed.
    ProviderFailure { message: String },
}

/// The text that reports a lock conflict.
pub open spec fn lock_conflict_text(package: Seq<char>, requirement: Seq<char>, locked: Seq<char>) -> Seq<char> {
    package + " is specified with the requirement `"@ + requirement + "`, but it is locked to "@
        + locked + ", which is incompatible."@
}

impl ResolveError {
    /// A description of the failure for people.
    pub fn message(&self) -> (r: String)
        ensures
            match self {
                ResolveError::LockConflict { package, requirement, locked } => r@ == lock_conflict_text(
                    package@,
                    requirement@,
                    version_text_of(locked@),
                ),
                ResolveError::ResolutionFailure { message } => r@ == message@,
                ResolveError::ProviderFailure { message } => r@ == message@,
            },
    {
        match self {
            ResolveError::LockConflict { package, requirement, locked } => {
                let mut text = package.clone();
                text.append(" is specified with the requirement `");
                text.append(requirement.as_str());
                text.append("`, but it is locked to ");
                let version = locked.text();
                text.append(version.as_str());
                text.append(", which is incompatible.");
                text
            },
            ResolveError::ResolutionFailure { message } => message.clone(),
            ResolveError::ProviderFailure { message } => message.clone(),
        }
    }
}

} // verus!
