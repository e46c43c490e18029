//! Errors of system parameters.

use vstd::prelude::*;

verus! {

/// Error returned when a system parameter cannot be fetched from the world.
#[derive(Debug, Clone)]
pub enum SystemParamError {
    /// A required singleton was not found in the world; `name` names its type.
    SingletonNotFound { name: &'static str },
}

} // verus!
