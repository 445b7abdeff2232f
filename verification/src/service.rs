//! Errors the HTTP surface reports, and how library errors map onto them.

use vstd::prelude::*;

use crate::account::{Account, AccountPositions, Environment};
use crate::strategy::InstantiateStrategyError;

verus! {

/// What a request handler answers when work cannot be done.
pub enum ServiceError {
    /// The named thing does not exist.
    NotFound(String),
    /// The request itself is invalid.
    BadRequest(String),
    /// Something on our side went wrong.
    InternalError(String),
}

impl ServiceError {
    /// How a failed instantiation maps onto a response: an unknown strategy
    /// is not found, bad parameters are a bad request, anything else is
    /// internal. The message carries the offending name.
    pub fn of_instantiate_error(err: InstantiateStrategyError) -> (r: ServiceError)
        ensures
            match err {
                InstantiateStrategyError::NotFound(n) => r is NotFound && r->NotFound_0 == n,
                InstantiateStrategyError::FailedToInstantiate(n) => r is InternalError
                    && r->InternalError_0 == n,
                InstantiateStrategyError::ParamValidationFailed(_) => r is BadRequest,
            },
    {
        match err {
            InstantiateStrategyError::NotFound(n) => ServiceError::NotFound(n),
            InstantiateStrategyError::FailedToInstantiate(n) => ServiceError::InternalError(n),
            InstantiateStrategyError::ParamValidationFailed(_) => ServiceError::BadRequest(
                "Params validation failed".to_owned(),
            ),
        }
    }
}

/// Whether a close-sandbox request may proceed: the account must exist and
/// be a sandbox account; production accounts cannot be closed.
pub fn close_sandbox_decision(account: Option<&Account>) -> (r: Result<(), ServiceError>)
    ensures
        match account {
            None => r is Err && r->Err_0 is NotFound,
            Some(acc) => if acc.environment == Environment::Sandbox {
                r is Ok
            } else {
                r is Err && r->Err_0 is BadRequest
            },
        },
{
    match account {
        None => Err(ServiceError::NotFound("Account not found".to_owned())),
        Some(acc) => match acc.environment {
            Environment::Sandbox => Ok(()),
            Environment::Production => Err(
                ServiceError::BadRequest("Unable to close production account".to_owned()),
            ),
        },
    }
}

/// What a positions listing answers: the cached positions, or not found.
pub fn positions_response<'a>(cached: Option<&'a AccountPositions>) -> (r: Result<
    &'a AccountPositions,
    ServiceError,
>)
    ensures
        match cached {
            Some(p) => r is Ok && r->Ok_0 == p,
            None => r is Err && r->Err_0 is NotFound,
        },
{
    match cached {
        Some(p) => Ok(p),
        None => Err(ServiceError::NotFound("Account not found".to_owned())),
    }
}

} // verus!
