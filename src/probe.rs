use vstd::prelude::*;

use crate::models::{UserResponse, ban_outcome};

verus! {

/// The status by which the primary host asks the caller to slow down.
pub const RATE_LIMITED: u16 = 429;

/// What one user-info request produced.
#[derive(Clone, Copy, Debug, PartialEq, Eq, Structural)]
pub enum HttpReply {
    /// The request did not complete.
    Unreachable,
    /// The host answered with `status`; `user` is the body read as user
    /// info, or `None` where it could not be read.
    Response { status: u16, user: Option<UserResponse> },
}

pub open spec fn is_success(status: u16) -> bool {
    200 <= status <= 299
}

/// The ban flag that a reply establishes: a successful answer whose body
/// reads as user info. Anything else establishes nothing.
pub open spec fn reply_flag(r: HttpReply) -> Option<bool> {
    match r {
        HttpReply::Response { status, user: Some(u) } => if is_success(status) {
            Some(u.is_banned)
        } else {
            None
        },
        _ => None,
    }
}

/// The first step of resolving a ban check.
#[derive(Clone, Copy, Debug, PartialEq, Eq, Structural)]
pub enum PrimaryStep {
    /// The primary reply settles the flag (`None`: it could not be learnt).
    Decided(Option<bool>),
    /// The primary host rate-limited the request: ask the mirror once.
    AskMirror,
}

pub open spec fn primary_step(r: HttpReply) -> PrimaryStep {
    match r {
        HttpReply::Response { status, .. } if status == RATE_LIMITED => PrimaryStep::AskMirror,
        _ => PrimaryStep::Decided(reply_flag(r)),
    }
}

/// The ban flag of a whole check: the primary reply, or the mirror's where
/// the primary was rate-limited; a missing mirror reply settles nothing.
pub open spec fn ban_resolution(primary: HttpReply, mirror: Option<HttpReply>) -> Option<bool> {
    match primary_step(primary) {
        PrimaryStep::Decided(flag) => flag,
        PrimaryStep::AskMirror => match mirror {
            Some(m) => reply_flag(m),
            None => None,
        },
    }
}

pub fn reply_ban_flag(r: &HttpReply) -> (f: Option<bool>)
    ensures
        f == reply_flag(*r),
{
    match r {
        HttpReply::Response { status, user: Some(u) } => {
            if 200 <= *status && *status <= 299 {
                Some(u.is_banned)
            } else {
                None
            }
        },
        _ => None,
    }
}

/// Decides what the primary reply of a ban check settles.
pub fn resolve_primary(r: &HttpReply) -> (s: PrimaryStep)
    ensures
        s == primary_step(*r),
{
    match r {
        HttpReply::Response { status, .. } if *status == RATE_LIMITED => PrimaryStep::AskMirror,
        _ => PrimaryStep::Decided(reply_ban_flag(r)),
    }
}

/// Resolves a ban check from the primary reply and, where one was made, the
/// single mirror attempt.
pub fn resolve_ban_status(primary: &HttpReply, mirror: Option<&HttpReply>) -> (f: Option<bool>)
    ensures
        f == ban_resolution(
            *primary,
            match mirror {
                Some(m) => Some(*m),
                None => None,
            },
        ),
{
    match resolve_primary(primary) {
        PrimaryStep::Decided(flag) => flag,
        PrimaryStep::AskMirror => match mirror {
            Some(m) => reply_ban_flag(m),
            None => None,
        },
    }
}

/// A rate-limited primary followed by a successful mirror answer yields the
/// mirror's verdict, LIVE or BANNED, never ERROR.
pub proof fn lemma_mirror_success_decides(status: u16, user: Option<UserResponse>, mirror_status: u16, payload: UserResponse)
    requires
        status == RATE_LIMITED,
        is_success(mirror_status),
    ensures
        ban_resolution(
            HttpReply::Response { status, user },
            Some(HttpReply::Response { status: mirror_status, user: Some(payload) }),
        ) == Some(payload.is_banned),
        ban_outcome(
            ban_resolution(
                HttpReply::Response { status, user },
                Some(HttpReply::Response { status: mirror_status, user: Some(payload) }),
            ),
        ) == if payload.is_banned {
            crate::models::Outcome::Banned
        } else {
            crate::models::Outcome::Live
        },
{
}

/// A rate-limited primary whose mirror attempt fails (unreachable, an
/// unsuccessful status, an unreadable body, or no attempt) yields ERROR,
/// never LIVE.
pub proof fn lemma_mirror_failure_is_error(status: u16, user: Option<UserResponse>, mirror: Option<HttpReply>)
    requires
        status == RATE_LIMITED,
        match mirror {
            Some(m) => reply_flag(m) is None,
            None => true,
        },
    ensures
        ban_resolution(HttpReply::Response { status, user }, mirror) is None,
        ban_outcome(ban_resolution(HttpReply::Response { status, user }, mirror))
            == crate::models::Outcome::Error,
{
}

} // verus!
