//! The decisions of fetching one metadata source: ask the network first,
//! fall back on the cached copy, and offer the user a retry when a source
//! that must load cannot be had. The requests, files and prompts themselves
//! are the caller's; each step here takes what the last one found and says
//! what to do next.

use vstd::prelude::*;

verus! {

/// Where a fetch stands.
#[derive(Clone, Copy, Debug, PartialEq, Eq, Structural)]
pub enum FetchState {
    /// The request is out.
    Requesting,
    /// An answer came; its body is being read.
    ReadingBody,
    /// The body was of no use; the cache is being read.
    CacheAfterBody,
    /// The network failed; the cache is being read.
    CacheAfterNetwork,
    /// The body was of no use and nothing was cached; the user is asked.
    AskingAfterBody,
    /// The network failed and nothing was cached; the user is asked.
    AskingAfterNetwork,
    /// The fetch is over.
    Done,
}

/// What the last step found.
#[derive(Clone, Copy, Debug, PartialEq, Eq, Structural)]
pub enum FetchEvent {
    /// The request was answered, with a success status or not.
    Answered { success: bool },
    /// The request got no answer.
    NetworkFailed,
    /// The body was read; it is usable when it is a JSON array or object of the expected shape.
    BodyRead { usable: bool },
    /// The body could not be read.
    BodyUnreadable,
    /// The cache was read; it is found when it holds data of the expected shape.
    CacheRead { found: bool },
    /// The user answered the error report, asking for a retry or not.
    UserAnswered { retry: bool },
}

/// Why a fetch failed.
#[derive(Clone, Copy, Debug, PartialEq, Eq, Structural)]
pub enum FetchFailure {
    /// The answer had no success status and the source was not required.
    Status,
    /// The body could not be read.
    Body,
    /// Neither the body nor the cache held usable data.
    Parse,
    /// The network failed and nothing was cached.
    Network,
    /// The step does not fit where the fetch stands.
    Unexpected,
}

/// What to do next.
#[derive(Clone, Copy, Debug, PartialEq, Eq, Structural)]
pub enum FetchAction {
    /// Send the request.
    Request,
    /// Read the answer's body.
    ReadBody,
    /// Write the body to the cache and return the data it holds.
    StoreAndReturn,
    /// Read the cached copy.
    ReadCache,
    /// Return the cached data.
    ReturnCached,
    /// Report the failure to the user, offering a retry.
    AskUser,
    /// Give up.
    Fail(FetchFailure),
}

/// The step from a state on an event, for a source that is `mandatory` or
/// not, with a user to ask (`can_ask`) or not: an answer is read when it is a
/// success or the source is required; a usable body is stored and returned;
/// otherwise the cache is read; a cached copy is returned; otherwise a
/// required source with a user to ask asks for a retry, which starts over.
pub open spec fn fetch_next(state: FetchState, event: FetchEvent, mandatory: bool, can_ask: bool) -> (FetchState, FetchAction) {
    match (state, event) {
        (FetchState::Requesting, FetchEvent::Answered { success }) => if success || mandatory {
            (FetchState::ReadingBody, FetchAction::ReadBody)
        } else {
            (FetchState::Done, FetchAction::Fail(FetchFailure::Status))
        },
        (FetchState::Requesting, FetchEvent::NetworkFailed) => (FetchState::CacheAfterNetwork, FetchAction::ReadCache),
        (FetchState::ReadingBody, FetchEvent::BodyRead { usable }) => if usable {
            (FetchState::Done, FetchAction::StoreAndReturn)
        } else {
            (FetchState::CacheAfterBody, FetchAction::ReadCache)
        },
        (FetchState::ReadingBody, FetchEvent::BodyUnreadable) => (FetchState::Done, FetchAction::Fail(FetchFailure::Body)),
        (FetchState::CacheAfterBody, FetchEvent::CacheRead { found }) => if found {
            (FetchState::Done, FetchAction::ReturnCached)
        } else if mandatory && can_ask {
            (FetchState::AskingAfterBody, FetchAction::AskUser)
        } else {
            (FetchState::Done, FetchAction::Fail(FetchFailure::Parse))
        },
        (FetchState::CacheAfterNetwork, FetchEvent::CacheRead { found }) => if found {
            (FetchState::Done, FetchAction::ReturnCached)
        } else if mandatory && can_ask {
            (FetchState::AskingAfterNetwork, FetchAction::AskUser)
        } else {
            (FetchState::Done, FetchAction::Fail(FetchFailure::Network))
        },
        (FetchState::AskingAfterBody, FetchEvent::UserAnswered { retry }) => if retry {
            (FetchState::Requesting, FetchAction::Request)
        } else {
            (FetchState::Done, FetchAction::Fail(FetchFailure::Parse))
        },
        (FetchState::AskingAfterNetwork, FetchEvent::UserAnswered { retry }) => if retry {
            (FetchState::Requesting, FetchAction::Request)
        } else {
            (FetchState::Done, FetchAction::Fail(FetchFailure::Network))
        },
        _ => (FetchState::Done, FetchAction::Fail(FetchFailure::Unexpected)),
    }
}

/// How a fetch begins: with the request.
pub fn fetch_start() -> (r: (FetchState, FetchAction))
    ensures
        r == (FetchState::Requesting, FetchAction::Request),
{
    (FetchState::Requesting, FetchAction::Request)
}

/// Decides the next step of a fetch.
pub fn fetch_step(state: FetchState, event: FetchEvent, mandatory: bool, can_ask: bool) -> (r: (FetchState, FetchAction))
    ensures
        r == fetch_next(state, event, mandatory, can_ask),
{
    match (state, event) {
        (FetchState::Requesting, FetchEvent::Answered { success }) => {
            if success || mandatory {
                (FetchState::ReadingBody, FetchAction::ReadBody)
            } else {
                (FetchState::Done, FetchAction::Fail(FetchFailure::Status))
            }
        },
        (FetchState::Requesting, FetchEvent::NetworkFailed) => (FetchState::CacheAfterNetwork, FetchAction::ReadCache),
        (FetchState::ReadingBody, FetchEvent::BodyRead { usable }) => {
            if usable {
                (FetchState::Done, FetchAction::StoreAndReturn)
            } else {
                (FetchState::CacheAfterBody, FetchAction::ReadCache)
            }
        },
        (FetchState::ReadingBody, FetchEvent::BodyUnreadable) => (FetchState::Done, FetchAction::Fail(FetchFailure::Body)),
        (FetchState::CacheAfterBody, FetchEvent::CacheRead { found }) => {
            if found {
                (FetchState::Done, FetchAction::ReturnCached)
            } else if mandatory && can_ask {
                (FetchState::AskingAfterBody, FetchAction::AskUser)
            } else {
                (FetchState::Done, FetchAction::Fail(FetchFailure::Parse))
            }
        },
        (FetchState::CacheAfterNetwork, FetchEvent::CacheRead { found }) => {
            if found {
                (FetchState::Done, FetchAction::ReturnCached)
            } else if mandatory && can_ask {
                (FetchState::AskingAfterNetwork, FetchAction::AskUser)
            } else {
                (FetchState::Done, FetchAction::Fail(FetchFailure::Network))
            }
        },
        (FetchState::AskingAfterBody, FetchEvent::UserAnswered { retry }) => {
            if retry {
                (FetchState::Requesting, FetchAction::Request)
            } else {
                (FetchState::Done, FetchAction::Fail(FetchFailure::Parse))
            }
        },
        (FetchState::AskingAfterNetwork, FetchEvent::UserAnswered { retry }) => {
            if retry {
                (FetchState::Requesting, FetchAction::Request)
            } else {
                (FetchState::Done, FetchAction::Fail(FetchFailure::Network))
            }
        },
        _ => (FetchState::Done, FetchAction::Fail(FetchFailure::Unexpected)),
    }
}

/// A source that is not required never asks the user, and neither does a
/// fetch without a user to ask.
pub proof fn law_ask_only_when_required(state: FetchState, event: FetchEvent, mandatory: bool, can_ask: bool)
    requires
        !mandatory || !can_ask,
    ensures
        fetch_next(state, event, mandatory, can_ask).1 != FetchAction::AskUser,
{
}

/// A usable body read from an answer is always stored and returned.
pub proof fn law_usable_body_returned(mandatory: bool, can_ask: bool)
    ensures
        fetch_next(FetchState::ReadingBody, (FetchEvent::BodyRead { usable: true }), mandatory, can_ask) == (
            FetchState::Done,
            FetchAction::StoreAndReturn,
        ),
{
}

/// A cached copy is returned whenever the cache is read and holds one.
pub proof fn law_cache_serves_when_found(state: FetchState, mandatory: bool, can_ask: bool)
    requires
        state == FetchState::CacheAfterBody || state == FetchState::CacheAfterNetwork,
    ensures
        fetch_next(state, (FetchEvent::CacheRead { found: true }), mandatory, can_ask) == (
            FetchState::Done,
            FetchAction::ReturnCached,
        ),
{
}

/// A retry starts the fetch over; a fetch that is over stays over.
pub proof fn law_retry_restarts(state: FetchState, event: FetchEvent, mandatory: bool, can_ask: bool)
    ensures
        (state == FetchState::AskingAfterBody || state == FetchState::AskingAfterNetwork) && event
            == (FetchEvent::UserAnswered { retry: true }) ==> fetch_next(state, event, mandatory, can_ask) == (
            FetchState::Requesting,
            FetchAction::Request,
        ),
        state == FetchState::Done ==> fetch_next(state, event, mandatory, can_ask).0 == FetchState::Done,
{
}

} // verus!
