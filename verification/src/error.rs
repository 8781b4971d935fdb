use vstd::prelude::*;
use crate::system::SystemId;

verus! {

/// The error carried by every fatal result of this crate: structurally
/// invalid usage (duplicate identifiers, empty filters, cyclic ordering).
/// Absence of an entity or component is never an error.
#[derive(Debug)]
pub enum TX2Error {
    Generic { message: String, code: String },
}

impl TX2Error {
    /// The human-readable description.
    pub fn message(&self) -> (r: String)
        ensures
            match self {
                TX2Error::Generic { message, .. } => r == message,
            },
    {
        match self {
            TX2Error::Generic { message, .. } => message.clone(),
        }
    }

    /// The stable machine-readable code.
    pub fn code(&self) -> (r: String)
        ensures
            match self {
                TX2Error::Generic { code, .. } => r == code,
            },
    {
        match self {
            TX2Error::Generic { code, .. } => code.clone(),
        }
    }

    pub fn duplicate_entity() -> (r: TX2Error)
        ensures
            r matches TX2Error::Generic { code, .. } && code@ == "duplicate_entity"@,
    {
        TX2Error::Generic {
            message: "entity id is already in use".to_owned(),
            code: "duplicate_entity".to_owned(),
        }
    }

    pub fn duplicate_system() -> (r: TX2Error)
        ensures
            r matches TX2Error::Generic { code, .. } && code@ == "duplicate_system"@,
    {
        TX2Error::Generic {
            message: "system id is already registered".to_owned(),
            code: "duplicate_system".to_owned(),
        }
    }

    pub fn empty_query() -> (r: TX2Error)
        ensures
            r matches TX2Error::Generic { code, .. } && code@ == "empty_query"@,
    {
        TX2Error::Generic {
            message: "query must have at least one filter".to_owned(),
            code: "empty_query".to_owned(),
        }
    }

    pub fn circular_dependency() -> (r: TX2Error)
        ensures
            r matches TX2Error::Generic { code, .. } && code@ == "circular_dependency"@,
    {
        TX2Error::Generic {
            message: "circular dependency detected among systems".to_owned(),
            code: "circular_dependency".to_owned(),
        }
    }

    pub fn missing_entity() -> (r: TX2Error)
        ensures
            r matches TX2Error::Generic { code, .. } && code@ == "missing_entity"@,
    {
        TX2Error::Generic {
            message: "entity does not exist".to_owned(),
            code: "missing_entity".to_owned(),
        }
    }
}

/// What the error policy decides about a failing system.
#[derive(Debug, Clone, Copy, PartialEq, Eq, Structural)]
pub enum SystemErrorStrategy {
    Disable,
    Ignore,
    Retry,
}

/// Everything a handler learns about one failure of one system.
pub struct SystemErrorContext {
    pub system_id: SystemId,
    pub error: String,
    pub phase: String,
    pub consecutive_failures: u32,
}

/// The decision rule of the default error policy: disable a system once it
/// has failed three times in a row, otherwise keep it running.
pub open spec fn default_strategy(consecutive_failures: u32) -> SystemErrorStrategy {
    if consecutive_failures >= 3 {
        SystemErrorStrategy::Disable
    } else {
        SystemErrorStrategy::Ignore
    }
}

/// The default error handler, applied when a system has no handler of its own.
pub fn default_error_handler(ctx: &SystemErrorContext) -> (r: SystemErrorStrategy)
    ensures
        r == default_strategy(ctx.consecutive_failures),
{
    if ctx.consecutive_failures >= 3 {
        SystemErrorStrategy::Disable
    } else {
        SystemErrorStrategy::Ignore
    }
}

} // verus!
