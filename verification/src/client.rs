//! What the client makes of the server's response.
//!
//! The client sends one request over a connection and reads one response.
//! Each request has its own responses; these functions are not for a response
//! that belongs to another request.

use crate::error::{KvsError, Result};
use crate::wire::{Query, QueryView, Response};
use vstd::prelude::*;

verus! {

/// The request for the value of a key.
pub fn get_query(key: String) -> (q: Query)
    ensures
        q@ == QueryView::Get(key@),
{
    Query::Get(key)
}

/// The request to bind a key to a value.
pub fn set_query(key: String, value: String) -> (q: Query)
    ensures
        q@ == QueryView::Put(key@, value@),
{
    Query::Put(key, value)
}

/// The request to take a key out.
pub fn remove_query(key: String) -> (q: Query)
    ensures
        q@ == QueryView::Rm(key@),
{
    Query::Rm(key)
}

/// The result of a `Get`, from the response to it.
pub fn get_result(response: Response) -> (r: Result<Option<String>>)
    requires
        !(response is Success),
    ensures
        match response {
            Response::Value(Some(v)) => r matches Ok(Some(x)) && x == v,
            Response::Value(None) => r matches Ok(None),
            Response::KeyNotFound => r == Err::<Option<String>, KvsError>(KvsError::KeyNotFound),
            _ => r == Err::<Option<String>, KvsError>(KvsError::ServerError),
        },
{
    match response {
        Response::Value(value) => Ok(value),
        Response::KeyNotFound => Err(KvsError::KeyNotFound),
        _ => Err(KvsError::ServerError),
    }
}

/// The result of a `Put`, from the response to it.
pub fn set_result(response: Response) -> (r: Result<()>)
    requires
        response is Success || response is Failure,
    ensures
        r == (if response is Success {
            Ok::<(), KvsError>(())
        } else {
            Err::<(), KvsError>(KvsError::ServerError)
        }),
{
    match response {
        Response::Success => Ok(()),
        _ => Err(KvsError::ServerError),
    }
}

/// The result of an `Rm`, from the response to it.
pub fn remove_result(response: Response) -> (r: Result<()>)
    requires
        !(response is Value),
    ensures
        r == (match response {
            Response::Success => Ok::<(), KvsError>(()),
            Response::KeyNotFound => Err::<(), KvsError>(KvsError::KeyNotFound),
            _ => Err::<(), KvsError>(KvsError::ServerError),
        }),
{
    match response {
        Response::Success => Ok(()),
        Response::KeyNotFound => Err(KvsError::KeyNotFound),
        _ => Err(KvsError::ServerError),
    }
}

} // verus!
