//! What the server does with one request.
//!
//! A connection carries one request and one response. The server decodes the
//! request, lets the engine do the work and answers with what the engine
//! returned; who owns the socket reads the request and sends the response.

use crate::engine::KvsEngine;
use crate::error::{CodecError, KvsError, Result};
use crate::wire::{frame_at, message_query, sent, Query, QueryView, Response, ResponseView};
use vstd::prelude::*;

verus! {

/// The response to a `Get`, given what the engine returned.
pub fn respond_get(outcome: Result<Option<String>>) -> (r: Response)
    ensures
        r@ == (match outcome {
            Ok(Some(v)) => ResponseView::Value(Some(v@)),
            Ok(None) => ResponseView::Value(None),
            Err(_) => ResponseView::Failure,
        }),
{
    match outcome {
        Ok(value) => Response::Value(value),
        Err(_) => Response::Failure,
    }
}

/// The response to a `Put`, given what the engine returned.
pub fn respond_set(outcome: Result<()>) -> (r: Response)
    ensures
        r@ == (match outcome {
            Ok(_) => ResponseView::Success,
            Err(_) => ResponseView::Failure,
        }),
{
    match outcome {
        Ok(_) => Response::Success,
        Err(_) => Response::Failure,
    }
}

/// The response to an `Rm`, given what the engine returned. A key that was
/// not found has a response of its own, so that the client can tell.
pub fn respond_remove(outcome: Result<()>) -> (r: Response)
    ensures
        r@ == (match outcome {
            Ok(_) => ResponseView::Success,
            Err(KvsError::KeyNotFound) => ResponseView::KeyNotFound,
            Err(_) => ResponseView::Failure,
        }),
{
    match outcome {
        Ok(_) => Response::Success,
        Err(KvsError::KeyNotFound) => Response::KeyNotFound,
        Err(_) => Response::Failure,
    }
}

/// The response `r` is one that the request `q` can get.
pub open spec fn answers(q: QueryView, r: ResponseView) -> bool {
    match q {
        QueryView::Get(_) => r is Value || r is Failure,
        QueryView::Put(_, _) => r is Success || r is Failure,
        QueryView::Rm(_) => r is Success || r is KeyNotFound || r is Failure,
    }
}

/// Serves one request: calls the engine's method for the request, with the
/// key and the value of the request, and gives the response for what the
/// method returned, as `respond_get`, `respond_set` and `respond_remove` say.
pub fn handle<E: KvsEngine>(engine: &mut E, query: Query) -> (r: Response)
    ensures
        answers(query@, r@),
        // The engine's method was called on the engine as it was, with what
        // the request holds; the call left the engine as it now is, and `r` is
        // the response to what the call returned. What the call can return,
        // and what it does to the engine, is what the engine's own method
        // ensures: of `KvStore` that is all of it.
        match query {
            Query::Get(key) => exists|called: &mut E, outcome: Result<Option<String>>|
                (#[trigger] call_ensures(E::get, (called, key), outcome)) && *called == *old(
                    engine,
                ) && *final(called) == *final(engine) && r@ == get_response(outcome),
            Query::Put(key, value) => exists|called: &mut E, outcome: Result<()>|
                (#[trigger] call_ensures(E::set, (called, key, value), outcome)) && *called
                    == *old(engine) && *final(called) == *final(engine) && r@ == set_response(
                    outcome,
                ),
            Query::Rm(key) => exists|called: &mut E, outcome: Result<()>|
                (#[trigger] call_ensures(E::remove, (called, key), outcome)) && *called == *old(
                    engine,
                ) && *final(called) == *final(engine) && r@ == remove_response(outcome),
        },
{
    match query {
        Query::Put(key, value) => respond_set(engine.set(key, value)),
        Query::Get(key) => respond_get(engine.get(key)),
        Query::Rm(key) => respond_remove(engine.remove(key)),
    }
}

/// The response to a `Get`, given what the engine returned.
pub open spec fn get_response(outcome: Result<Option<String>>) -> ResponseView {
    match outcome {
        Ok(Some(v)) => ResponseView::Value(Some(v@)),
        Ok(None) => ResponseView::Value(None),
        Err(_) => ResponseView::Failure,
    }
}

/// The response to a `Put`, given what the engine returned.
pub open spec fn set_response(outcome: Result<()>) -> ResponseView {
    match outcome {
        Ok(_) => ResponseView::Success,
        Err(_) => ResponseView::Failure,
    }
}

/// The response to an `Rm`, given what the engine returned.
pub open spec fn remove_response(outcome: Result<()>) -> ResponseView {
    match outcome {
        Ok(_) => ResponseView::Success,
        Err(KvsError::KeyNotFound) => ResponseView::KeyNotFound,
        Err(_) => ResponseView::Failure,
    }
}

/// What the acceptor does with the outcome of one `accept`.
#[derive(Clone, Copy, Debug, PartialEq, Eq, Structural)]
pub enum Step {
    /// Leave the loop: the server was asked to stop.
    Stop,
    /// Hand the connection to the pool.
    Serve,
    /// Go on with the next connection: this one failed.
    Skip,
}

/// Decides what the acceptor does next. A request to stop is honoured before
/// the connection is looked at, so that the connection which wakes the
/// acceptor up for the stop is not served.
pub fn accept_step(stop_requested: bool, accepted: bool) -> (step: Step)
    ensures
        step == (if stop_requested {
            Step::Stop
        } else if accepted {
            Step::Serve
        } else {
            Step::Skip
        }),
{
    if stop_requested {
        Step::Stop
    } else if accepted {
        Step::Serve
    } else {
        Step::Skip
    }
}

/// Serves one connection: reads the request from its message, lets `handle`
/// serve it on the engine and gives the message of the response that `handle`
/// gave. A message that holds no request is refused and the engine is not
/// called.
pub fn serve<E: KvsEngine>(engine: &mut E, request: &[u8]) -> (r: Result<Vec<u8>>)
    ensures
        match message_query(request@) {
            // The request was served as `handle` serves it, with some
            // response, and `r` is what sending that response gives.
            Some(q) => exists|query: Query, response: Response|
                #![trigger query.view(), response.view()]
                query@ == q && sent(response@, r) && answers(q, response@) && match query {
                    Query::Get(key) => exists|called: &mut E, outcome: Result<Option<String>>|
                        (#[trigger] call_ensures(E::get, (called, key), outcome)) && *called
                            == *old(engine) && *final(called) == *final(engine) && response@
                            == get_response(outcome),
                    Query::Put(key, value) => exists|called: &mut E, outcome: Result<()>|
                        (#[trigger] call_ensures(E::set, (called, key, value), outcome))
                            && *called == *old(engine) && *final(called) == *final(engine)
                            && response@ == set_response(outcome),
                    Query::Rm(key) => exists|called: &mut E, outcome: Result<()>|
                        (#[trigger] call_ensures(E::remove, (called, key), outcome)) && *called
                            == *old(engine) && *final(called) == *final(engine) && response@
                            == remove_response(outcome),
                },
            None => *final(engine) == *old(engine) && r == Err::<Vec<u8>, KvsError>(
                KvsError::Codec(
                    if frame_at(request@).is_none() {
                        CodecError::Truncated
                    } else {
                        CodecError::Malformed
                    },
                ),
            ),
        },
{
    let query = match Query::from_message(request) {
        Ok(query) => query,
        Err(e) => { return Err(e); },
    };
    let response = handle(engine, query);
    response.to_message()
}

} // verus!
