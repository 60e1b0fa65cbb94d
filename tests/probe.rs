use dawn_checker::models::{outcome_of_ban, Outcome, UserResponse};
use dawn_checker::probe::{resolve_ban_status, resolve_primary, HttpReply, PrimaryStep};

fn ok(banned: bool) -> HttpReply {
    HttpReply::Response { status: 200, user: Some(UserResponse { is_banned: banned }) }
}

fn limited() -> HttpReply {
    HttpReply::Response { status: 429, user: None }
}

#[test]
fn rate_limit_then_mirror_success_uses_mirror_payload() {
    assert_eq!(resolve_primary(&limited()), PrimaryStep::AskMirror);
    assert_eq!(outcome_of_ban(resolve_ban_status(&limited(), Some(&ok(false)))), Outcome::Live);
    assert_eq!(outcome_of_ban(resolve_ban_status(&limited(), Some(&ok(true)))), Outcome::Banned);
}

#[test]
fn rate_limit_then_mirror_failure_is_error() {
    let failures = [
        HttpReply::Unreachable,
        HttpReply::Response { status: 503, user: Some(UserResponse { is_banned: false }) },
        HttpReply::Response { status: 200, user: None },
        limited(),
    ];
    for m in failures.iter() {
        assert_eq!(resolve_ban_status(&limited(), Some(m)), None);
        assert_eq!(outcome_of_ban(resolve_ban_status(&limited(), Some(m))), Outcome::Error);
    }
    assert_eq!(resolve_ban_status(&limited(), None), None);
}

#[test]
fn primary_reply_decides_without_mirror() {
    assert_eq!(resolve_primary(&ok(true)), PrimaryStep::Decided(Some(true)));
    assert_eq!(resolve_ban_status(&ok(false), None), Some(false));
    assert_eq!(resolve_ban_status(&HttpReply::Unreachable, Some(&ok(false))), None);
    assert_eq!(resolve_ban_status(&HttpReply::Response { status: 404, user: None }, None), None);
    assert_eq!(resolve_ban_status(&HttpReply::Response { status: 299, user: Some(UserResponse { is_banned: true }) }, None), Some(true));
    assert_eq!(resolve_ban_status(&HttpReply::Response { status: 300, user: Some(UserResponse { is_banned: true }) }, None), None);
}

#[test]
fn outcome_labels() {
    assert_eq!(Outcome::Live.label(), "LIVE");
    assert_eq!(Outcome::Duplicate.label(), "DUPLICATE");
}
