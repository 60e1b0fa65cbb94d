use vstd::prelude::*;

verus! {

/// The five mutually exclusive outcomes of a credential slot.
#[derive(Clone, Copy, Debug, PartialEq, Eq, Structural)]
pub enum Outcome {
    Live,
    Dead,
    Banned,
    Error,
    Duplicate,
}

impl Outcome {
    /// The upper-case label of the outcome, as shown in logs and tables.
    pub fn label(&self) -> (r: &'static str)
        ensures
            r@ == outcome_label(*self),
    {
        match self {
            Outcome::Live => "LIVE",
            Outcome::Dead => "DEAD",
            Outcome::Banned => "BANNED",
            Outcome::Error => "ERROR",
            Outcome::Duplicate => "DUPLICATE",
        }
    }
}

pub open spec fn outcome_label(o: Outcome) -> Seq<char> {
    match o {
        Outcome::Live => "LIVE"@,
        Outcome::Dead => "DEAD"@,
        Outcome::Banned => "BANNED"@,
        Outcome::Error => "ERROR"@,
        Outcome::Duplicate => "DUPLICATE"@,
    }
}

/// Body of a successful identity lookup: the account behind a credential.
#[derive(Clone, Debug)]
pub struct AuthResponse {
    pub id: u64,
    pub name: String,
}

/// Body of a successful user-info lookup.
#[derive(Clone, Copy, Debug, PartialEq, Eq, Structural)]
pub struct UserResponse {
    pub is_banned: bool,
}

/// The ban-check result of one account, tagged with the account's creation
/// order so that results can be applied in input order.
#[derive(Clone, Copy, Debug, PartialEq, Eq, Structural)]
pub struct BanResult {
    pub index: usize,
    pub is_banned: Option<bool>,
    pub id: u64,
}

/// One line of the summary table: an outcome label and its count.
#[derive(Clone, Debug)]
pub struct Row {
    pub category: String,
    pub count: usize,
}

/// An account created in the authentication phase for a credential whose
/// identity had not been seen before in the run.
#[derive(Clone, Debug)]
pub struct Account {
    pub assigned_order: usize,
    pub source_index: usize,
    pub identity: u64,
    pub display_name: String,
    pub credential: String,
}

/// One entry of the classification log. `name` and `id` are `None` where
/// the remote service did not disclose them.
#[derive(Clone, Debug)]
pub struct LogEntry {
    pub outcome: Outcome,
    pub name: Option<String>,
    pub id: Option<u64>,
}

/// The outcome that a ban flag stands for: a known flag decides between
/// banned and live, an unknown one is an error.
pub open spec fn ban_outcome(is_banned: Option<bool>) -> Outcome {
    match is_banned {
        Some(true) => Outcome::Banned,
        Some(false) => Outcome::Live,
        None => Outcome::Error,
    }
}

pub fn outcome_of_ban(is_banned: Option<bool>) -> (r: Outcome)
    ensures
        r == ban_outcome(is_banned),
{
    match is_banned {
        Some(true) => Outcome::Banned,
        Some(false) => Outcome::Live,
        None => Outcome::Error,
    }
}

} // verus!
