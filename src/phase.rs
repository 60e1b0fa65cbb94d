use std::collections::{HashMap, HashSet};
use vstd::prelude::*;

use crate::models::{Account, AuthResponse, BanResult, LogEntry, Outcome, ban_outcome, outcome_of_ban};
use crate::text::{contains_text, is_blank, is_blank_seq, seq_contains};

verus! {

broadcast use vstd::std_specs::hash::group_hash_axioms;

/// What the identity lookup for one credential produced.
#[derive(Clone, Debug)]
pub enum AuthReply {
    /// The request did not complete.
    Unreachable,
    /// The service answered with `body`; `parsed` is that body read as an
    /// identity, or `None` where it is not one.
    Answered { body: String, parsed: Option<AuthResponse> },
}

/// The text by which the identity service marks a moderated account.
pub open spec fn moderation_marker() -> Seq<char> {
    "User is moderated"@
}

/// The identity that a reply resolves to: an answer that parses and carries
/// no moderation marker.
pub open spec fn resolved_identity(r: AuthReply) -> Option<u64> {
    match r {
        AuthReply::Answered { body, parsed: Some(a) } => if seq_contains(body@, moderation_marker()) {
            None
        } else {
            Some(a.id)
        },
        _ => None,
    }
}

/// Slot `i` holds a credential that is processed (it is not blank).
pub open spec fn counted(cookies: Seq<String>, i: int) -> bool {
    !is_blank_seq(cookies[i]@)
}

/// Identity `id` was resolved by a processed slot before slot `i`.
pub open spec fn seen_before(cookies: Seq<String>, replies: Seq<AuthReply>, i: int, id: u64) -> bool {
    exists|j: int| 0 <= j < i && counted(cookies, j) && #[trigger] resolved_identity(replies[j]) == Some(id)
}

/// Slot `i` is the first processed slot that resolves to its identity: it
/// becomes an account.
pub open spec fn first_sighting(cookies: Seq<String>, replies: Seq<AuthReply>, i: int) -> bool {
    counted(cookies, i) && match resolved_identity(replies[i]) {
        Some(id) => !seen_before(cookies, replies, i, id),
        None => false,
    }
}

/// The log entry that authentication gives slot `i` as (outcome, name, id),
/// or `None` where it records nothing: a blank slot, or a new account whose
/// outcome the ban check decides.
pub open spec fn auth_entry(cookies: Seq<String>, replies: Seq<AuthReply>, i: int) -> Option<
    (Outcome, Option<Seq<char>>, Option<u64>),
> {
    if !counted(cookies, i) {
        None
    } else {
        match replies[i] {
            AuthReply::Unreachable => Some((Outcome::Dead, None, None)),
            AuthReply::Answered { body, parsed } => if seq_contains(body@, moderation_marker()) {
                Some((Outcome::Banned, None, None))
            } else {
                match parsed {
                    None => Some((Outcome::Dead, None, None)),
                    Some(a) => if seen_before(cookies, replies, i, a.id) {
                        Some((Outcome::Duplicate, Some(a.name@), Some(a.id)))
                    } else {
                        None
                    },
                }
            },
        }
    }
}

/// How many of the first `n` slots satisfy `f`.
pub open spec fn count_slots(n: int, f: spec_fn(int) -> bool) -> nat
    decreases n,
{
    if n <= 0 {
        0
    } else {
        count_slots(n - 1, f) + if f(n - 1) {
            1nat
        } else {
            0nat
        }
    }
}

/// The number of processed (non-blank) slots among the first `n`.
pub open spec fn nonblank_count(cookies: Seq<String>, n: int) -> nat {
    count_slots(n, |i: int| counted(cookies, i))
}

/// How many of the first `n` slots authentication classifies as `o`.
pub open spec fn auth_count(cookies: Seq<String>, replies: Seq<AuthReply>, n: int, o: Outcome) -> nat {
    count_slots(
        n,
        |i: int|
            match auth_entry(cookies, replies, i) {
                Some(e) => e.0 == o,
                None => false,
            },
    )
}

/// A log entry as (outcome, name, id), names as character sequences.
pub open spec fn entry_view(e: LogEntry) -> (Outcome, Option<Seq<char>>, Option<u64>) {
    (
        e.outcome,
        match e.name {
            Some(s) => Some(s@),
            None => None,
        },
        e.id,
    )
}

/// Outcomes that classify an identity, as opposed to a credential alone.
pub open spec fn classifies_identity(o: Outcome) -> bool {
    o == Outcome::Live || o == Outcome::Banned || o == Outcome::Error
}

/// A record of `outcome` for `identity` moves the identity's latest outcome.
pub open spec fn tracks(outcome: Outcome, identity: Option<u64>) -> bool {
    classifies_identity(outcome) && identity is Some
}

/// The state of a one-shot run: the credentials, the per-slot log, the
/// accounts created by authentication, the five counters, friend counts, the
/// live identities and the reportable final set.
pub struct PhaseData {
    pub cookies: Vec<String>,
    pub status_log: HashMap<usize, LogEntry>,
    pub accounts: Vec<Account>,
    pub live: usize,
    pub dead: usize,
    pub banned: usize,
    pub error: usize,
    pub duplicates: usize,
    pub friends_count: HashMap<u64, i64>,
    pub live_ids: HashSet<u64>,
    pub final_ids: HashSet<u64>,
    /// The latest outcome recorded for each identity.
    pub latest: Ghost<Map<u64, Outcome>>,
}

impl PhaseData {
    pub open spec fn count_of(&self, o: Outcome) -> nat {
        match o {
            Outcome::Live => self.live as nat,
            Outcome::Dead => self.dead as nat,
            Outcome::Banned => self.banned as nat,
            Outcome::Error => self.error as nat,
            Outcome::Duplicate => self.duplicates as nat,
        }
    }

    pub open spec fn total(&self) -> nat {
        (self.live + self.dead + self.banned + self.error + self.duplicates) as nat
    }

    /// `id` is the identity of one of the accounts.
    pub open spec fn is_account(&self, id: u64) -> bool {
        exists|k: int| 0 <= k < self.accounts@.len() && #[trigger] self.accounts@[k].identity == id
    }

    /// Accounts are numbered densely, come from distinct increasing slots and
    /// have distinct identities; an identity is live exactly when its latest
    /// outcome is LIVE; live and final identities belong to accounts.
    pub open spec fn wf(&self) -> bool {
        &&& forall|k: int|
            0 <= k < self.accounts@.len() ==> (#[trigger] self.accounts@[k]).assigned_order == k
                && self.accounts@[k].source_index < self.cookies@.len()
        &&& forall|k1: int, k2: int|
            0 <= k1 < k2 < self.accounts@.len() ==> (#[trigger] self.accounts@[k1]).source_index
                < (#[trigger] self.accounts@[k2]).source_index && self.accounts@[k1].identity
                != self.accounts@[k2].identity
        &&& forall|id: u64|
            #[trigger] self.live_ids@.contains(id) <==> (self.latest@.contains_key(id)
                && self.latest@[id] == Outcome::Live)
        &&& forall|id: u64| #[trigger] self.live_ids@.contains(id) ==> self.is_account(id)
        &&& forall|id: u64| #[trigger] self.final_ids@.contains(id) ==> self.is_account(id)
    }

    /// A run that has not started: nothing recorded yet.
    pub open spec fn pristine(&self) -> bool {
        &&& self.wf()
        &&& self.status_log@ == Map::<usize, LogEntry>::empty()
        &&& self.accounts@.len() == 0
        &&& self.total() == 0
        &&& self.latest@ == Map::<u64, Outcome>::empty()
    }

    pub fn new(cookies: Vec<String>) -> (r: PhaseData)
        ensures
            r.pristine(),
            r.cookies@ == cookies@,
            r.friends_count@ == Map::<u64, i64>::empty(),
            r.live_ids@ == Set::<u64>::empty(),
            r.final_ids@ == Set::<u64>::empty(),
    {
        PhaseData {
            cookies,
            status_log: HashMap::new(),
            accounts: Vec::new(),
            live: 0,
            dead: 0,
            banned: 0,
            error: 0,
            duplicates: 0,
            friends_count: HashMap::new(),
            live_ids: HashSet::new(),
            final_ids: HashSet::new(),
            latest: Ghost(Map::empty()),
        }
    }

    /// Records one classification: bumps the counter of `outcome`, writes the
    /// log entry of slot `index`, and keeps the live set in step with the
    /// identity's latest outcome.
    pub fn record(&mut self, index: usize, outcome: Outcome, identity: Option<u64>, name: Option<String>)
        requires
            old(self).wf(),
            old(self).total() < usize::MAX,
            tracks(outcome, identity) ==> old(self).is_account(identity->Some_0),
        ensures
            final(self).wf(),
            final(self).status_log@ == old(self).status_log@.insert(
                index,
                LogEntry { outcome, name, id: identity },
            ),
            forall|o: Outcome|
                #[trigger] final(self).count_of(o) == old(self).count_of(o) + if o == outcome {
                    1nat
                } else {
                    0nat
                },
            final(self).total() == old(self).total() + 1,
            tracks(outcome, identity) ==> final(self).latest@ == old(self).latest@.insert(
                identity->Some_0,
                outcome,
            ),
            tracks(outcome, identity) ==> final(self).live_ids@ == if outcome == Outcome::Live {
                old(self).live_ids@.insert(identity->Some_0)
            } else {
                old(self).live_ids@.remove(identity->Some_0)
            },
            !tracks(outcome, identity) ==> final(self).latest@ == old(self).latest@
                && final(self).live_ids@ == old(self).live_ids@,
            final(self).cookies@ == old(self).cookies@,
            final(self).accounts@ == old(self).accounts@,
            final(self).friends_count@ == old(self).friends_count@,
            final(self).final_ids@ == old(self).final_ids@,
    {
        match outcome {
            Outcome::Live => self.live = self.live + 1,
            Outcome::Dead => self.dead = self.dead + 1,
            Outcome::Banned => self.banned = self.banned + 1,
            Outcome::Error => self.error = self.error + 1,
            Outcome::Duplicate => self.duplicates = self.duplicates + 1,
        }
        if let Some(id) = identity {
            match outcome {
                Outcome::Live => {
                    self.live_ids.insert(id);
                    self.latest = Ghost(self.latest@.insert(id, outcome));
                },
                Outcome::Banned | Outcome::Error => {
                    self.live_ids.remove(&id);
                    self.latest = Ghost(self.latest@.insert(id, outcome));
                },
                _ => {},
            }
        }
        self.status_log.insert(index, LogEntry { outcome, name, id: identity });
        proof {
            assert forall|id: u64| #[trigger] self.live_ids@.contains(id) implies self.is_account(
                id,
            ) by {
                if old(self).live_ids@.contains(id) {
                    let k = choose|k: int|
                        0 <= k < old(self).accounts@.len() && #[trigger] old(self).accounts@[k].identity == id;
                    assert(self.accounts@[k].identity == id);
                } else {
                    assert(identity == Some(id));
                    assert(old(self).is_account(id));
                    let k = choose|k: int|
                        0 <= k < old(self).accounts@.len() && #[trigger] old(self).accounts@[k].identity == id;
                    assert(self.accounts@[k].identity == id);
                }
            }
            assert forall|id: u64| #[trigger] self.final_ids@.contains(id) implies self.is_account(
                id,
            ) by {
                let k = choose|k: int|
                    0 <= k < old(self).accounts@.len() && #[trigger] old(self).accounts@[k].identity
                        == id;
                assert(self.accounts@[k].identity == id);
            }
        }
    }
}

/// No more of the first `n` slots than `n` satisfy a predicate.
pub proof fn lemma_count_slots_bound(n: int, f: spec_fn(int) -> bool)
    requires
        n >= 0,
    ensures
        count_slots(n, f) <= n,
    decreases n,
{
    if n > 0 {
        lemma_count_slots_bound(n - 1, f);
    }
}

/// Well-formedness survives a change that keeps the accounts, the live set
/// and the latest outcomes, and keeps the final set among the accounts.
proof fn lemma_wf_frame(a: PhaseData, b: PhaseData)
    requires
        a.wf(),
        b.accounts@ == a.accounts@,
        b.cookies@.len() == a.cookies@.len(),
        b.live_ids@ == a.live_ids@,
        b.latest@ == a.latest@,
        forall|id: u64| #[trigger] b.final_ids@.contains(id) ==> a.is_account(id),
    ensures
        b.wf(),
{
    assert forall|id: u64| #[trigger] b.live_ids@.contains(id) implies b.is_account(id) by {
        assert(a.is_account(id));
        let w = choose|w: int| 0 <= w < a.accounts@.len() && #[trigger] a.accounts@[w].identity == id;
        assert(b.accounts@[w].identity == id);
    }
    assert forall|id: u64| #[trigger] b.final_ids@.contains(id) implies b.is_account(id) by {
        assert(a.is_account(id));
        let w = choose|w: int| 0 <= w < a.accounts@.len() && #[trigger] a.accounts@[w].identity == id;
        assert(b.accounts@[w].identity == id);
    }
}

/// Authentication: classifies every processed slot from the reply of its
/// identity lookup, one slot at a time in input order. Unreachable or
/// unreadable replies are DEAD, moderated ones BANNED, an identity seen in an
/// earlier slot DUPLICATE; the first slot of each identity becomes an account
/// whose outcome the ban check decides.
pub fn phase1_auth(data: &mut PhaseData, replies: &Vec<AuthReply>)
    requires
        old(data).pristine(),
        replies@.len() == old(data).cookies@.len(),
    ensures
        final(data).wf(),
        final(data).cookies@ == old(data).cookies@,
        forall|i: int|
            0 <= i < replies@.len() ==> match #[trigger] auth_entry(old(data).cookies@, replies@, i) {
                Some(e) => final(data).status_log@.contains_key(i as usize) && entry_view(
                    final(data).status_log@[i as usize],
                ) == e,
                None => !final(data).status_log@.contains_key(i as usize),
            },
        forall|i: usize| #[trigger]
            final(data).status_log@.contains_key(i) ==> i < replies@.len(),
        forall|k: int|
            0 <= k < final(data).accounts@.len() ==> {
                let a = #[trigger] final(data).accounts@[k];
                &&& first_sighting(old(data).cookies@, replies@, a.source_index as int)
                &&& resolved_identity(replies@[a.source_index as int]) == Some(a.identity)
                &&& a.credential@ == old(data).cookies@[a.source_index as int]@
                &&& replies@[a.source_index as int] matches AuthReply::Answered {
                    parsed: Some(r),
                    ..
                } && r.name@ == a.display_name@
            },
        forall|i: int|
            0 <= i < replies@.len() && #[trigger] first_sighting(old(data).cookies@, replies@, i)
                ==> exists|k: int|
                0 <= k < final(data).accounts@.len() && #[trigger] final(data).accounts@[k].source_index == i,
        forall|o: Outcome|
            #[trigger] final(data).count_of(o) == auth_count(
                old(data).cookies@,
                replies@,
                replies@.len() as int,
                o,
            ),
        final(data).total() + final(data).accounts@.len() == nonblank_count(
            old(data).cookies@,
            replies@.len() as int,
        ),
        final(data).latest@ == old(data).latest@,
        final(data).live_ids@ == old(data).live_ids@,
        final(data).final_ids@ == old(data).final_ids@,
        final(data).friends_count@ == old(data).friends_count@,
{
    let ghost cookies = data.cookies@;
    let n = data.cookies.len();
    let mut seen: HashSet<u64> = HashSet::new();
    let mut i: usize = 0;
    proof {
        assert forall|id: u64| !data.final_ids@.contains(id) by {
            if data.final_ids@.contains(id) {
                assert(data.is_account(id));
            }
        }
        assert forall|id: u64| !data.live_ids@.contains(id) by {
            if data.live_ids@.contains(id) {
                assert(data.latest@.contains_key(id));
            }
        }
        assert(data.final_ids@ =~= Set::<u64>::empty());
        assert(data.live_ids@ =~= Set::<u64>::empty());
    }
    while i < n
        invariant
            n == cookies.len(),
            replies@.len() == n,
            i <= n,
            data.wf(),
            data.cookies@ == cookies,
            data.latest@ == old(data).latest@,
            data.latest@ == Map::<u64, Outcome>::empty(),
            data.live_ids@ == Set::<u64>::empty(),
            data.final_ids@ == Set::<u64>::empty(),
            data.live_ids@ == old(data).live_ids@,
            data.final_ids@ == old(data).final_ids@,
            data.friends_count@ == old(data).friends_count@,
            forall|id: u64| #[trigger]
                seen@.contains(id) <==> seen_before(cookies, replies@, i as int, id),
            forall|k: int|
                0 <= k < data.accounts@.len() ==> {
                    let a = #[trigger] data.accounts@[k];
                    &&& a.source_index < i
                    &&& seen@.contains(a.identity)
                    &&& first_sighting(cookies, replies@, a.source_index as int)
                    &&& resolved_identity(replies@[a.source_index as int]) == Some(a.identity)
                    &&& a.credential@ == cookies[a.source_index as int]@
                    &&& replies@[a.source_index as int] matches AuthReply::Answered {
                        parsed: Some(r),
                        ..
                    } && r.name@ == a.display_name@
                },
            forall|j: int|
                0 <= j < i && #[trigger] first_sighting(cookies, replies@, j) ==> exists|k: int|
                    0 <= k < data.accounts@.len() && #[trigger] data.accounts@[k].source_index
                        == j,
            forall|j: int|
                0 <= j < i ==> match #[trigger] auth_entry(cookies, replies@, j) {
                    Some(e) => data.status_log@.contains_key(j as usize) && entry_view(
                        data.status_log@[j as usize],
                    ) == e,
                    None => !data.status_log@.contains_key(j as usize),
                },
            forall|j: usize| #[trigger] data.status_log@.contains_key(j) ==> j < i,
            forall|o: Outcome| #[trigger] data.count_of(o) == auth_count(cookies, replies@, i as int, o),
            data.total() + data.accounts@.len() == nonblank_count(cookies, i as int),
        decreases n - i,
    {
        proof {
            lemma_count_slots_bound(i as int, |j: int| counted(cookies, j));
        }
        let ghost old_seen = seen@;
        let ghost accs = data.accounts@;
        let ghost before = *data;
        let blank = is_blank(data.cookies[i].as_str());
        if !blank {
            match &replies[i] {
                AuthReply::Unreachable => {
                    data.record(i, Outcome::Dead, None, None);
                },
                AuthReply::Answered { body, parsed } => {
                    if contains_text(body.as_str(), "User is moderated") {
                        data.record(i, Outcome::Banned, None, None);
                    } else {
                        match parsed {
                            None => {
                                data.record(i, Outcome::Dead, None, None);
                            },
                            Some(auth) => {
                                if seen.insert(auth.id) {
                                    let account = Account {
                                        assigned_order: data.accounts.len(),
                                        source_index: i,
                                        identity: auth.id,
                                        display_name: auth.name.clone(),
                                        credential: data.cookies[i].clone(),
                                    };
                                    data.accounts.push(account);
                                    proof {
                                        assert(first_sighting(cookies, replies@, i as int));
                                        assert(data.accounts@[data.accounts@.len() - 1].source_index
                                            == i);
                                    }
                                } else {
                                    data.record(i, Outcome::Duplicate, Some(auth.id), Some(auth.name.clone()));
                                }
                            },
                        }
                    }
                },
            }
        }
        proof {
            let step = if counted(cookies, i as int) {
                resolved_identity(replies@[i as int])
            } else {
                None
            };
            assert(seen@ == match step {
                Some(id) => old_seen.insert(id),
                None => old_seen,
            });
            assert forall|o: Outcome| #[trigger]
                data.count_of(o) == auth_count(cookies, replies@, i + 1, o) by {
                let bump = match auth_entry(cookies, replies@, i as int) {
                    Some(e) => if e.0 == o {
                        1nat
                    } else {
                        0nat
                    },
                    None => 0nat,
                };
                assert(auth_count(cookies, replies@, i + 1, o) == auth_count(
                    cookies,
                    replies@,
                    i as int,
                    o,
                ) + bump);
                assert(before.count_of(o) == auth_count(cookies, replies@, i as int, o));
                assert(data.count_of(o) == before.count_of(o) + bump);
            }
            if first_sighting(cookies, replies@, i as int) {
                assert(data.accounts@.len() == accs.len() + 1);
                assert(data.accounts@[accs.len() as int].source_index == i);
            } else {
                assert(data.accounts@ == accs);
            }
            assert forall|j: int|
                0 <= j < i + 1 && #[trigger] first_sighting(cookies, replies@, j) implies exists|k: int|
                0 <= k < data.accounts@.len() && #[trigger] data.accounts@[k].source_index == j by {
                if j < i {
                    let k = choose|k: int| 0 <= k < accs.len() && #[trigger] accs[k].source_index == j;
                    assert(data.accounts@[k].source_index == j);
                } else {
                    assert(data.accounts@[accs.len() as int].source_index == i);
                }
            }
            assert forall|id: u64| #[trigger]
                seen@.contains(id) <==> seen_before(cookies, replies@, i + 1, id) by {
                if seen_before(cookies, replies@, i + 1, id) && !seen_before(
                    cookies,
                    replies@,
                    i as int,
                    id,
                ) {
                    let j = choose|j: int|
                        0 <= j < i + 1 && counted(cookies, j) && #[trigger] resolved_identity(
                            replies@[j],
                        ) == Some(id);
                    assert(j == i);
                }
                if seen_before(cookies, replies@, i as int, id) {
                    let j = choose|j: int|
                        0 <= j < i && counted(cookies, j) && #[trigger] resolved_identity(
                            replies@[j],
                        ) == Some(id);
                    assert(0 <= j < i + 1);
                }
                if step == Some(id) {
                    assert(resolved_identity(replies@[i as int]) == Some(id));
                }
            }
        }
        i = i + 1;
    }
}

/// The ban results cover the accounts one for one: each result names an
/// existing account by its creation order and carries its identity, no two
/// results name the same account, and every account has a result.
pub open spec fn covers_accounts(accounts: Seq<Account>, results: Seq<BanResult>) -> bool {
    &&& forall|j: int|
        0 <= j < results.len() ==> (#[trigger] results[j]).index < accounts.len()
            && results[j].id == accounts[results[j].index as int].identity
    &&& forall|j1: int, j2: int|
        0 <= j1 < results.len() && 0 <= j2 < results.len() && j1 != j2 ==> (#[trigger] results[j1]).index
            != (#[trigger] results[j2]).index
    &&& forall|k: int| 0 <= k < accounts.len() ==> #[trigger] has_result(results, k)
}

/// Some result names the account created `k`-th.
pub open spec fn has_result(results: Seq<BanResult>, k: int) -> bool {
    exists|j: int| 0 <= j < results.len() && #[trigger] results[j].index == k
}

/// The ban flag that the results give the account created `k`-th.
pub open spec fn result_flag(results: Seq<BanResult>, k: int) -> Option<bool> {
    results[choose|j: int| 0 <= j < results.len() && #[trigger] results[j].index == k].is_banned
}

/// How many of the first `n` accounts the results classify as `o`.
pub open spec fn ban_count(results: Seq<BanResult>, n: int, o: Outcome) -> nat {
    count_slots(n, |k: int| ban_outcome(result_flag(results, k)) == o)
}

/// Slot `s` is the source of one of the first `n` accounts.
pub open spec fn account_slot(accounts: Seq<Account>, n: int, s: usize) -> bool {
    exists|k: int| 0 <= k < n && #[trigger] accounts[k].source_index == s
}

/// Identity `id` belongs to one of the first `n` accounts.
pub open spec fn account_identity(accounts: Seq<Account>, n: int, id: u64) -> bool {
    exists|k: int| 0 <= k < n && #[trigger] accounts[k].identity == id
}

/// Ban check: applies each account's ban flag in account creation order,
/// whatever order the checks completed in. A banned flag records BANNED, a
/// clear one LIVE (the identity joins the live set), an unknown one ERROR.
pub fn phase2_ban_check(data: &mut PhaseData, results: &Vec<BanResult>)
    requires
        old(data).wf(),
        old(data).total() + old(data).accounts@.len() <= usize::MAX,
        covers_accounts(old(data).accounts@, results@),
    ensures
        final(data).wf(),
        forall|j: int|
            0 <= j < results@.len() ==> {
                let a = old(data).accounts@[(#[trigger] results@[j]).index as int];
                &&& final(data).status_log@.contains_key(a.source_index)
                &&& entry_view(final(data).status_log@[a.source_index]) == (
                    ban_outcome(results@[j].is_banned),
                    Some(a.display_name@),
                    Some(a.identity),
                )
                &&& final(data).latest@.contains_key(a.identity)
                &&& final(data).latest@[a.identity] == ban_outcome(results@[j].is_banned)
            },
        forall|s: usize|
            !account_slot(old(data).accounts@, old(data).accounts@.len() as int, s) ==> (
            #[trigger] final(data).status_log@.contains_key(s) == old(data).status_log@.contains_key(s))
                && (old(data).status_log@.contains_key(s) ==> final(data).status_log@[s]
                == old(data).status_log@[s]),
        forall|id: u64|
            !account_identity(old(data).accounts@, old(data).accounts@.len() as int, id) ==> (
            #[trigger] final(data).latest@.contains_key(id) == old(data).latest@.contains_key(id))
                && (old(data).latest@.contains_key(id) ==> final(data).latest@[id]
                == old(data).latest@[id]),
        forall|o: Outcome|
            #[trigger] final(data).count_of(o) == old(data).count_of(o) + ban_count(
                results@,
                old(data).accounts@.len() as int,
                o,
            ),
        final(data).total() == old(data).total() + old(data).accounts@.len(),
        old(data).total() + old(data).accounts@.len() == nonblank_count(
            old(data).cookies@,
            old(data).cookies@.len() as int,
        ) ==> final(data).total() == nonblank_count(
            final(data).cookies@,
            final(data).cookies@.len() as int,
        ),
        final(data).cookies@ == old(data).cookies@,
        final(data).accounts@ == old(data).accounts@,
        final(data).friends_count@ == old(data).friends_count@,
        final(data).final_ids@ == old(data).final_ids@,
{
    let n = data.accounts.len();
    let ghost start = *data;
    let ghost accounts = data.accounts@;
    let mut k: usize = 0;
    while k < n
        invariant
            n == accounts.len(),
            k <= n,
            data.wf(),
            covers_accounts(accounts, results@),
            start.total() + n <= usize::MAX,
            data.accounts@ == accounts,
            data.cookies@ == start.cookies@,
            data.friends_count@ == start.friends_count@,
            data.final_ids@ == start.final_ids@,
            data.total() == start.total() + k,
            forall|o: Outcome|
                #[trigger] data.count_of(o) == start.count_of(o) + ban_count(results@, k as int, o),
            forall|m: int|
                0 <= m < k ==> {
                    let a = #[trigger] accounts[m];
                    &&& data.status_log@.contains_key(a.source_index)
                    &&& entry_view(data.status_log@[a.source_index]) == (
                        ban_outcome(result_flag(results@, m)),
                        Some(a.display_name@),
                        Some(a.identity),
                    )
                    &&& data.latest@.contains_key(a.identity)
                    &&& data.latest@[a.identity] == ban_outcome(result_flag(results@, m))
                },
            forall|s: usize|
                !account_slot(accounts, k as int, s) ==> (#[trigger] data.status_log@.contains_key(s)
                    == start.status_log@.contains_key(s)) && (start.status_log@.contains_key(s)
                    ==> data.status_log@[s] == start.status_log@[s]),
            forall|id: u64|
                !account_identity(accounts, k as int, id) ==> (#[trigger] data.latest@.contains_key(id)
                    == start.latest@.contains_key(id)) && (start.latest@.contains_key(id)
                    ==> data.latest@[id] == start.latest@[id]),
        decreases n - k,
    {
        let mut j: usize = 0;
        while j < results.len() && results[j].index != k
            invariant
                j <= results@.len(),
                forall|j2: int| 0 <= j2 < j ==> (#[trigger] results@[j2]).index != k,
            decreases results@.len() - j,
        {
            j = j + 1;
        }
        proof {
            assert(has_result(results@, k as int));
            if j == results@.len() {
                let w = choose|w: int| 0 <= w < results@.len() && #[trigger] results@[w].index == k;
                assert(results@[w].index == k);
            }
            let c = choose|c: int| 0 <= c < results@.len() && #[trigger] results@[c].index == k;
            assert(results@[c].index == k);
            assert(c == j);
        }
        let ghost before = *data;
        let flag = results[j].is_banned;
        let outcome = outcome_of_ban(flag);
        let src = data.accounts[k].source_index;
        let name = data.accounts[k].display_name.clone();
        proof {
            assert(accounts[k as int].identity == results@[j as int].id);
            assert(data.is_account(results@[j as int].id));
        }
        data.record(src, outcome, Some(results[j].id), Some(name));
        proof {
            assert forall|o: Outcome| #[trigger]
                data.count_of(o) == start.count_of(o) + ban_count(results@, k + 1, o) by {
                assert(ban_count(results@, k + 1, o) == ban_count(results@, k as int, o) + if ban_outcome(
                    result_flag(results@, k as int),
                ) == o {
                    1nat
                } else {
                    0nat
                });
                assert(before.count_of(o) == start.count_of(o) + ban_count(results@, k as int, o));
            }
            assert forall|m: int| 0 <= m < k + 1 implies {
                let a = #[trigger] accounts[m];
                &&& data.status_log@.contains_key(a.source_index)
                &&& entry_view(data.status_log@[a.source_index]) == (
                    ban_outcome(result_flag(results@, m)),
                    Some(a.display_name@),
                    Some(a.identity),
                )
                &&& data.latest@.contains_key(a.identity)
                &&& data.latest@[a.identity] == ban_outcome(result_flag(results@, m))
            } by {
                if m < k {
                    assert(accounts[m].source_index < accounts[k as int].source_index);
                    assert(accounts[m].identity != accounts[k as int].identity);
                }
            }
            assert forall|s: usize| !account_slot(accounts, k + 1, s) implies (
            #[trigger] data.status_log@.contains_key(s) == start.status_log@.contains_key(s)) && (
            start.status_log@.contains_key(s) ==> data.status_log@[s] == start.status_log@[s]) by {
                assert(accounts[k as int].source_index == src);
                if s == src {
                    assert(account_slot(accounts, k + 1, s));
                }
                if account_slot(accounts, k as int, s) {
                    let w = choose|w: int| 0 <= w < k && #[trigger] accounts[w].source_index == s;
                    assert(0 <= w < k + 1 && accounts[w].source_index == s);
                }
                assert(!account_slot(accounts, k as int, s));
                assert(before.status_log@.contains_key(s) == start.status_log@.contains_key(s));
                assert(start.status_log@.contains_key(s) ==> before.status_log@[s]
                    == start.status_log@[s]);
                assert(s != src);
            }
            assert forall|id: u64| !account_identity(accounts, k + 1, id) implies (
            #[trigger] data.latest@.contains_key(id) == start.latest@.contains_key(id)) && (
            start.latest@.contains_key(id) ==> data.latest@[id] == start.latest@[id]) by {
                assert(accounts[k as int].identity == results@[j as int].id);
                if id == accounts[k as int].identity {
                    assert(account_identity(accounts, k + 1, id));
                }
                if account_identity(accounts, k as int, id) {
                    let w = choose|w: int| 0 <= w < k && #[trigger] accounts[w].identity == id;
                    assert(0 <= w < k + 1 && accounts[w].identity == id);
                }
                assert(before.latest@.contains_key(id) == start.latest@.contains_key(id));
                assert(start.latest@.contains_key(id) ==> before.latest@[id] == start.latest@[id]);
                assert(data.latest@ == before.latest@.insert(accounts[k as int].identity, outcome));
            }
        }
        k = k + 1;
    }
    proof {
        assert forall|j: int| 0 <= j < results@.len() implies result_flag(
            results@,
            (#[trigger] results@[j]).index as int,
        ) == results@[j].is_banned by {
            let k = results@[j].index as int;
            let c = choose|c: int| 0 <= c < results@.len() && #[trigger] results@[c].index == k;
            assert(results@[c].index == k);
        }
        assert forall|s: usize|
            !account_slot(accounts, n as int, s) implies (#[trigger] data.status_log@.contains_key(s)
            == start.status_log@.contains_key(s)) && (start.status_log@.contains_key(s)
            ==> data.status_log@[s] == start.status_log@[s]) by {}
    }
}

/// The identities of the live accounts, once each, in account order.
pub fn live_list(data: &PhaseData) -> (r: Vec<u64>)
    requires
        data.wf(),
    ensures
        forall|id: u64| r@.contains(id) <==> data.live_ids@.contains(id),
        r@.no_duplicates(),
{
    let n = data.accounts.len();
    let mut r: Vec<u64> = Vec::new();
    let mut k: usize = 0;
    while k < n
        invariant
            n == data.accounts@.len(),
            k <= n,
            data.wf(),
            r@.no_duplicates(),
            forall|id: u64|
                r@.contains(id) <==> (account_identity(data.accounts@, k as int, id)
                    && data.live_ids@.contains(id)),
        decreases n - k,
    {
        let id = data.accounts[k].identity;
        let ghost r0 = r@;
        if data.live_ids.contains(&id) {
            proof {
                if r@.contains(id) {
                    let w = choose|w: int| 0 <= w < k && #[trigger] data.accounts@[w].identity == id;
                    assert(data.accounts@[w].identity != data.accounts@[k as int].identity);
                }
            }
            r.push(id);
        }
        proof {
            assert forall|x: u64|
                r@.contains(x) <==> (account_identity(data.accounts@, k + 1, x)
                    && data.live_ids@.contains(x)) by {
                if account_identity(data.accounts@, k + 1, x) && !account_identity(
                    data.accounts@,
                    k as int,
                    x,
                ) {
                    let w = choose|w: int| 0 <= w < k + 1 && #[trigger] data.accounts@[w].identity == x;
                    assert(w == k);
                }
                if account_identity(data.accounts@, k as int, x) {
                    let w = choose|w: int| 0 <= w < k && #[trigger] data.accounts@[w].identity == x;
                    assert(0 <= w < k + 1);
                }
                if x == id && data.live_ids@.contains(x) {
                    assert(r@[r@.len() - 1] == x);
                }
                if r0.contains(x) {
                    let i = choose|i: int| 0 <= i < r0.len() && r0[i] == x;
                    assert(r@[i] == x);
                }
                if r@.contains(x) && !r0.contains(x) {
                    let i = choose|i: int| 0 <= i < r@.len() && r@[i] == x;
                    if i < r0.len() {
                        assert(r0[i] == x);
                    }
                }
            }
        }
        k = k + 1;
    }
    proof {
        assert forall|id: u64| data.live_ids@.contains(id) implies r@.contains(id) by {
            assert(data.is_account(id));
            let w = choose|w: int| 0 <= w < n && #[trigger] data.accounts@[w].identity == id;
            assert(account_identity(data.accounts@, n as int, id));
        }
    }
    r
}

/// A friend count as the map knows it: `None` where it is unknown.
pub open spec fn known_count(m: Map<u64, i64>, id: u64) -> Option<i64> {
    if m.contains_key(id) {
        Some(m[id])
    } else {
        None
    }
}

/// Identity `id` got a friend count from the fetch and is live.
pub open spec fn fetched_live(data: PhaseData, fetched: Seq<(u64, Option<i64>)>, id: u64) -> bool {
    data.live_ids@.contains(id) && got_count(fetched, fetched.len() as int, id)
}

/// One of the first `j` fetches gave identity `id` a count.
pub open spec fn got_count(fetched: Seq<(u64, Option<i64>)>, j: int, id: u64) -> bool {
    exists|m: int| 0 <= m < j && (#[trigger] fetched[m]).0 == id && fetched[m].1 is Some
}

/// Friend-count enrichment: stores the count fetched for each live identity.
/// A failed fetch leaves the count unknown; no counter or classification
/// changes.
#[verifier::rlimit(30)]
pub fn phase3_friends_fetch(data: &mut PhaseData, fetched: &Vec<(u64, Option<i64>)>)
    requires
        old(data).wf(),
        forall|j1: int, j2: int|
            0 <= j1 < j2 < fetched@.len() ==> (#[trigger] fetched@[j1]).0 != (#[trigger] fetched@[j2]).0,
    ensures
        final(data).wf(),
        forall|j: int|
            0 <= j < fetched@.len() && old(data).live_ids@.contains((#[trigger] fetched@[j]).0)
                && fetched@[j].1 is Some ==> known_count(final(data).friends_count@, fetched@[j].0)
                == fetched@[j].1,
        forall|id: u64|
            !fetched_live(*old(data), fetched@, id) ==> #[trigger] known_count(
                final(data).friends_count@,
                id,
            ) == known_count(old(data).friends_count@, id),
        final(data).cookies@ == old(data).cookies@,
        final(data).accounts@ == old(data).accounts@,
        final(data).status_log@ == old(data).status_log@,
        final(data).live_ids@ == old(data).live_ids@,
        final(data).final_ids@ == old(data).final_ids@,
        final(data).latest@ == old(data).latest@,
        forall|o: Outcome| #[trigger] final(data).count_of(o) == old(data).count_of(o),
{
    let ghost start = *data;
    let mut j: usize = 0;
    while j < fetched.len()
        invariant
            j <= fetched@.len(),
            data.wf(),
            forall|j1: int, j2: int|
                0 <= j1 < j2 < fetched@.len() ==> (#[trigger] fetched@[j1]).0 != (#[trigger] fetched@[j2]).0,
            data.cookies@ == start.cookies@,
            data.accounts@ == start.accounts@,
            data.status_log@ == start.status_log@,
            data.live_ids@ == start.live_ids@,
            data.final_ids@ == start.final_ids@,
            data.latest@ == start.latest@,
            data.live == start.live && data.dead == start.dead && data.banned == start.banned
                && data.error == start.error && data.duplicates == start.duplicates,
            forall|m: int|
                0 <= m < j && start.live_ids@.contains((#[trigger] fetched@[m]).0) && fetched@[m].1 is Some
                    ==> known_count(data.friends_count@, fetched@[m].0) == fetched@[m].1,
            forall|id: u64|
                !(start.live_ids@.contains(id) && got_count(fetched@, j as int, id))
                    ==> #[trigger] known_count(data.friends_count@, id) == known_count(
                    start.friends_count@,
                    id,
                ),
        decreases fetched@.len() - j,
    {
        let (id, count) = fetched[j];
        let ghost fc0 = data.friends_count@;
        let ghost d0 = *data;
        if let Some(c) = count {
            if data.live_ids.contains(&id) {
                data.friends_count.insert(id, c);
            }
        }
        proof {
            lemma_wf_frame(d0, *data);
        }
        proof {
            assert forall|id2: u64|
                !(start.live_ids@.contains(id2) && got_count(fetched@, j + 1, id2))
                    implies #[trigger] known_count(data.friends_count@, id2) == known_count(
                    start.friends_count@,
                    id2,
                ) by {
                if id2 == id && start.live_ids@.contains(id2) && count is Some {
                    assert(fetched@[j as int].0 == id2);
                }
                if got_count(fetched@, j as int, id2) {
                    let m = choose|m: int| 0 <= m < j && (#[trigger] fetched@[m]).0 == id2 && fetched@[m].1 is Some;
                    assert(0 <= m < j + 1);
                }
                assert(known_count(fc0, id2) == known_count(start.friends_count@, id2));
            }
            assert forall|m: int|
                0 <= m < j + 1 && start.live_ids@.contains((#[trigger] fetched@[m]).0)
                    && fetched@[m].1 is Some implies known_count(data.friends_count@, fetched@[m].0)
                == fetched@[m].1 by {
                if m < j {
                    assert(fetched@[m].0 != fetched@[j as int].0);
                }
            }
        }
        j = j + 1;
    }
}

/// A threshold on friend counts.
#[derive(Clone, Copy, Debug, PartialEq, Eq, Structural)]
pub enum FriendFilter {
    /// At most the given count.
    Below(i64),
    /// Within the given bounds, both inclusive.
    Between(i64, i64),
    /// At least the given count.
    Above(i64),
}

/// A known count passes the filter; an unknown one never does.
pub open spec fn filter_keeps(f: FriendFilter, count: Option<i64>) -> bool {
    match count {
        None => false,
        Some(c) => match f {
            FriendFilter::Below(max) => c <= max,
            FriendFilter::Between(min, max) => min <= c && c <= max,
            FriendFilter::Above(min) => min <= c,
        },
    }
}

pub fn passes_filter(f: FriendFilter, count: Option<i64>) -> (r: bool)
    ensures
        r == filter_keeps(f, count),
{
    match count {
        None => false,
        Some(c) => match f {
            FriendFilter::Below(max) => c <= max,
            FriendFilter::Between(min, max) => min <= c && c <= max,
            FriendFilter::Above(min) => min <= c,
        },
    }
}

/// Takes the reportable final set: the identities live after the ban check.
pub fn select_live(data: &mut PhaseData)
    requires
        old(data).wf(),
    ensures
        final(data).wf(),
        final(data).final_ids@ == old(data).live_ids@,
        final(data).live_ids@ == old(data).live_ids@,
        final(data).friends_count@ == old(data).friends_count@,
        final(data).accounts@ == old(data).accounts@,
        final(data).cookies@ == old(data).cookies@,
        final(data).status_log@ == old(data).status_log@,
        final(data).latest@ == old(data).latest@,
        forall|o: Outcome| #[trigger] final(data).count_of(o) == old(data).count_of(o),
{
    let n = data.accounts.len();
    let mut chosen: HashSet<u64> = HashSet::new();
    let mut k: usize = 0;
    while k < n
        invariant
            n == data.accounts@.len(),
            k <= n,
            data.wf(),
            forall|id: u64|
                chosen@.contains(id) <==> (account_identity(data.accounts@, k as int, id)
                    && data.live_ids@.contains(id)),
        decreases n - k,
    {
        let id = data.accounts[k].identity;
        if data.live_ids.contains(&id) {
            chosen.insert(id);
        }
        proof {
            assert forall|x: u64|
                chosen@.contains(x) <==> (account_identity(data.accounts@, k + 1, x)
                    && data.live_ids@.contains(x)) by {
                if account_identity(data.accounts@, k + 1, x) && !account_identity(
                    data.accounts@,
                    k as int,
                    x,
                ) {
                    let w = choose|w: int| 0 <= w < k + 1 && #[trigger] data.accounts@[w].identity == x;
                    assert(w == k);
                }
                if account_identity(data.accounts@, k as int, x) {
                    let w = choose|w: int| 0 <= w < k && #[trigger] data.accounts@[w].identity == x;
                    assert(0 <= w < k + 1);
                }
                if x == id {
                    assert(data.accounts@[k as int].identity == x);
                }
            }
        }
        k = k + 1;
    }
    proof {
        assert forall|id: u64| data.live_ids@.contains(id) implies chosen@.contains(id) by {
            assert(data.is_account(id));
            let w = choose|w: int| 0 <= w < n && #[trigger] data.accounts@[w].identity == id;
            assert(account_identity(data.accounts@, n as int, id));
        }
        assert(chosen@ =~= data.live_ids@);
    }
    let ghost d0 = *data;
    data.final_ids = chosen;
    proof {
        lemma_wf_frame(d0, *data);
    }
}

/// Keeps in the final set only the identities whose friend count is known
/// and passes the filter. Counters already recorded stay as they are.
pub fn apply_friend_filter(data: &mut PhaseData, f: FriendFilter)
    requires
        old(data).wf(),
    ensures
        final(data).wf(),
        forall|id: u64|
            #[trigger] final(data).final_ids@.contains(id) <==> (old(data).final_ids@.contains(id)
                && filter_keeps(f, known_count(old(data).friends_count@, id))),
        final(data).live_ids@ == old(data).live_ids@,
        final(data).friends_count@ == old(data).friends_count@,
        final(data).accounts@ == old(data).accounts@,
        final(data).cookies@ == old(data).cookies@,
        final(data).status_log@ == old(data).status_log@,
        final(data).latest@ == old(data).latest@,
        forall|o: Outcome| #[trigger] final(data).count_of(o) == old(data).count_of(o),
{
    let n = data.accounts.len();
    let mut chosen: HashSet<u64> = HashSet::new();
    let mut k: usize = 0;
    while k < n
        invariant
            n == data.accounts@.len(),
            k <= n,
            data.wf(),
            forall|id: u64|
                chosen@.contains(id) <==> (account_identity(data.accounts@, k as int, id)
                    && data.final_ids@.contains(id) && filter_keeps(
                    f,
                    known_count(data.friends_count@, id),
                )),
        decreases n - k,
    {
        let id = data.accounts[k].identity;
        let count = match data.friends_count.get(&id) {
            Some(c) => Some(*c),
            None => None,
        };
        if data.final_ids.contains(&id) && passes_filter(f, count) {
            chosen.insert(id);
        }
        proof {
            assert(count == known_count(data.friends_count@, id));
            assert forall|x: u64|
                chosen@.contains(x) <==> (account_identity(data.accounts@, k + 1, x)
                    && data.final_ids@.contains(x) && filter_keeps(
                    f,
                    known_count(data.friends_count@, x),
                )) by {
                if account_identity(data.accounts@, k + 1, x) && !account_identity(
                    data.accounts@,
                    k as int,
                    x,
                ) {
                    let w = choose|w: int| 0 <= w < k + 1 && #[trigger] data.accounts@[w].identity == x;
                    assert(w == k);
                }
                if account_identity(data.accounts@, k as int, x) {
                    let w = choose|w: int| 0 <= w < k && #[trigger] data.accounts@[w].identity == x;
                    assert(0 <= w < k + 1);
                }
                if x == id {
                    assert(data.accounts@[k as int].identity == x);
                }
            }
        }
        k = k + 1;
    }
    proof {
        assert forall|id: u64|
            data.final_ids@.contains(id) && filter_keeps(f, known_count(data.friends_count@, id))
                implies chosen@.contains(id) by {
            assert(data.is_account(id));
            let w = choose|w: int| 0 <= w < n && #[trigger] data.accounts@[w].identity == id;
            assert(account_identity(data.accounts@, n as int, id));
        }
        assert forall|id: u64| #[trigger] chosen@.contains(id) implies data.is_account(id) by {
            assert(account_identity(data.accounts@, n as int, id));
            let w = choose|w: int| 0 <= w < n && #[trigger] data.accounts@[w].identity == id;
            assert(data.accounts@[w].identity == id);
        }
    }
    let ghost d0 = *data;
    data.final_ids = chosen;
    proof {
        lemma_wf_frame(d0, *data);
    }
}

/// Every processed credential after the first that resolves to an identity
/// is a DUPLICATE of it, and never becomes an account.
pub proof fn lemma_later_sightings_are_duplicates(
    cookies: Seq<String>,
    replies: Seq<AuthReply>,
    i: int,
    j: int,
)
    requires
        0 <= i < j < replies.len(),
        counted(cookies, i),
        counted(cookies, j),
        resolved_identity(replies[i]) is Some,
        resolved_identity(replies[j]) == resolved_identity(replies[i]),
    ensures
        auth_entry(cookies, replies, j) matches Some(e) && e.0 == Outcome::Duplicate,
        !first_sighting(cookies, replies, j),
{
    let id = resolved_identity(replies[j])->Some_0;
    assert(seen_before(cookies, replies, j, id));
}

/// The first processed credential that resolves to an identity is never a
/// DUPLICATE: authentication makes it an account.
pub proof fn lemma_first_sighting_not_duplicate(cookies: Seq<String>, replies: Seq<AuthReply>, i: int)
    requires
        0 <= i < replies.len(),
        counted(cookies, i),
        resolved_identity(replies[i]) is Some,
        forall|j: int|
            0 <= j < i && counted(cookies, j) ==> #[trigger] resolved_identity(replies[j])
                != resolved_identity(replies[i]),
    ensures
        auth_entry(cookies, replies, i) is None,
        first_sighting(cookies, replies, i),
{
}

/// A count over a range depends only on the predicate within the range.
proof fn lemma_count_slots_agree(n: int, f: spec_fn(int) -> bool, g: spec_fn(int) -> bool)
    requires
        forall|k: int| 0 <= k < n ==> #[trigger] f(k) == g(k),
    ensures
        count_slots(n, f) == count_slots(n, g),
    decreases n,
{
    if n > 0 {
        lemma_count_slots_agree(n - 1, f, g);
    }
}

/// The ban check's effect depends on its results as a collection, not on
/// the order in which they completed: two completion orders of the same
/// results give every account the same flag and every outcome the same count.
pub proof fn lemma_ban_results_order_free(accounts: Seq<Account>, a: Seq<BanResult>, b: Seq<BanResult>)
    requires
        covers_accounts(accounts, a),
        covers_accounts(accounts, b),
        a.to_multiset() == b.to_multiset(),
    ensures
        forall|k: int| 0 <= k < accounts.len() ==> #[trigger] result_flag(a, k) == result_flag(b, k),
        forall|o: Outcome|
            #[trigger] ban_count(a, accounts.len() as int, o) == ban_count(b, accounts.len() as int, o),
{
    broadcast use vstd::seq_lib::group_to_multiset_ensures;

    assert forall|k: int| 0 <= k < accounts.len() implies #[trigger] result_flag(a, k) == result_flag(
        b,
        k,
    ) by {
        assert(has_result(a, k));
        let ja = choose|ja: int| 0 <= ja < a.len() && #[trigger] a[ja].index == k;
        assert(a[ja].index == k);
        assert(a.contains(a[ja]));
        assert(a.to_multiset().count(a[ja]) > 0);
        assert(b.contains(a[ja]));
        let jb = choose|jb: int| 0 <= jb < b.len() && b[jb] == a[ja];
        assert(b[jb].index == k);
        let cb = choose|cb: int| 0 <= cb < b.len() && #[trigger] b[cb].index == k;
        assert(b[cb].index == k);
    }
    assert forall|o: Outcome|
        #[trigger] ban_count(a, accounts.len() as int, o) == ban_count(b, accounts.len() as int, o) by {
        lemma_count_slots_agree(
            accounts.len() as int,
            |k: int| ban_outcome(result_flag(a, k)) == o,
            |k: int| ban_outcome(result_flag(b, k)) == o,
        );
    }
}

/// The slots that hold a log entry, in increasing input order.
pub fn log_order(data: &PhaseData) -> (r: Vec<usize>)
    ensures
        forall|m1: int, m2: int| 0 <= m1 < m2 < r@.len() ==> r@[m1] < r@[m2],
        forall|i: usize|
            i < data.cookies@.len() ==> (r@.contains(i) <==> data.status_log@.contains_key(i)),
        forall|m: int| 0 <= m < r@.len() ==> r@[m] < data.cookies@.len(),
{
    let n = data.cookies.len();
    let mut r: Vec<usize> = Vec::new();
    let mut i: usize = 0;
    while i < n
        invariant
            n == data.cookies@.len(),
            i <= n,
            forall|m1: int, m2: int| 0 <= m1 < m2 < r@.len() ==> r@[m1] < r@[m2],
            forall|m: int| 0 <= m < r@.len() ==> r@[m] < i,
            forall|x: usize| x < i ==> (r@.contains(x) <==> data.status_log@.contains_key(x)),
        decreases n - i,
    {
        let ghost r0 = r@;
        if data.status_log.contains_key(&i) {
            r.push(i);
        }
        proof {
            assert forall|x: usize| x < i + 1 implies (r@.contains(x)
                <==> data.status_log@.contains_key(x)) by {
                if r0.contains(x) {
                    let m = choose|m: int| 0 <= m < r0.len() && r0[m] == x;
                    assert(r@[m] == x);
                }
                if r@.contains(x) {
                    let m = choose|m: int| 0 <= m < r@.len() && r@[m] == x;
                    if m < r0.len() {
                        assert(r0[m] == x);
                    }
                }
                if x == i && data.status_log@.contains_key(x) {
                    assert(r@[r@.len() - 1] == x);
                }
            }
        }
        i = i + 1;
    }
    r
}

} // verus!
