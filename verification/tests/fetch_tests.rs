use forgelsp::fetch::{fetch_start, fetch_step, FetchAction, FetchEvent, FetchFailure, FetchState};

#[test]
fn fetch_begins_with_request() {
    assert_eq!(fetch_start(), (FetchState::Requesting, FetchAction::Request));
}

#[test]
fn fetch_success_reads_and_stores_body() {
    let (s, a) = fetch_step(FetchState::Requesting, FetchEvent::Answered { success: true }, false, false);
    assert_eq!((s, a), (FetchState::ReadingBody, FetchAction::ReadBody));
    let (s, a) = fetch_step(s, FetchEvent::BodyRead { usable: true }, false, false);
    assert_eq!((s, a), (FetchState::Done, FetchAction::StoreAndReturn));
}

#[test]
fn fetch_bad_status_fails_unless_required() {
    assert_eq!(
        fetch_step(FetchState::Requesting, FetchEvent::Answered { success: false }, false, true),
        (FetchState::Done, FetchAction::Fail(FetchFailure::Status))
    );
    assert_eq!(
        fetch_step(FetchState::Requesting, FetchEvent::Answered { success: false }, true, true),
        (FetchState::ReadingBody, FetchAction::ReadBody)
    );
}

#[test]
fn fetch_network_failure_uses_cache() {
    let (s, a) = fetch_step(FetchState::Requesting, FetchEvent::NetworkFailed, true, true);
    assert_eq!((s, a), (FetchState::CacheAfterNetwork, FetchAction::ReadCache));
    assert_eq!(
        fetch_step(s, FetchEvent::CacheRead { found: true }, true, true),
        (FetchState::Done, FetchAction::ReturnCached)
    );
}

#[test]
fn fetch_required_source_asks_and_retries() {
    let (s, a) = fetch_step(FetchState::CacheAfterNetwork, FetchEvent::CacheRead { found: false }, true, true);
    assert_eq!((s, a), (FetchState::AskingAfterNetwork, FetchAction::AskUser));
    assert_eq!(
        fetch_step(s, FetchEvent::UserAnswered { retry: true }, true, true),
        (FetchState::Requesting, FetchAction::Request)
    );
    assert_eq!(
        fetch_step(s, FetchEvent::UserAnswered { retry: false }, true, true),
        (FetchState::Done, FetchAction::Fail(FetchFailure::Network))
    );
}

#[test]
fn fetch_optional_source_never_asks() {
    assert_eq!(
        fetch_step(FetchState::CacheAfterBody, FetchEvent::CacheRead { found: false }, false, true),
        (FetchState::Done, FetchAction::Fail(FetchFailure::Parse))
    );
    assert_eq!(
        fetch_step(FetchState::CacheAfterNetwork, FetchEvent::CacheRead { found: false }, true, false),
        (FetchState::Done, FetchAction::Fail(FetchFailure::Network))
    );
}

#[test]
fn fetch_unreadable_body_and_stray_events_fail() {
    assert_eq!(
        fetch_step(FetchState::ReadingBody, FetchEvent::BodyUnreadable, true, true),
        (FetchState::Done, FetchAction::Fail(FetchFailure::Body))
    );
    assert_eq!(
        fetch_step(FetchState::Done, FetchEvent::NetworkFailed, true, true),
        (FetchState::Done, FetchAction::Fail(FetchFailure::Unexpected))
    );
}
