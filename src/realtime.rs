use std::collections::HashSet;
use vstd::prelude::*;

use crate::models::{LogEntry, Outcome, ban_outcome, outcome_of_ban};
use crate::phase::{AuthReply, moderation_marker};
use crate::text::{contains_text, is_blank, is_blank_seq, seq_contains};

verus! {

broadcast use vstd::std_specs::hash::group_hash_axioms;

/// The shortest re-check interval accepted, in seconds.
pub const MIN_INTERVAL: u32 = 60;

/// The longest re-check interval accepted, in seconds.
pub const MAX_INTERVAL: u32 = 360;

/// How many log lines the continuous mode keeps.
pub const LOG_CAPACITY: usize = 100;

/// How many identities one presence request may carry.
pub const PRESENCE_BATCH: usize = 100;

pub fn interval_in_range(seconds: u32) -> (r: bool)
    ensures
        r == (MIN_INTERVAL <= seconds <= MAX_INTERVAL),
{
    MIN_INTERVAL <= seconds && seconds <= MAX_INTERVAL
}

/// The five counters of a cycle.
#[derive(Clone, Copy, Debug, PartialEq, Eq, Structural)]
pub struct RealtimeStats {
    pub live: usize,
    pub dead: usize,
    pub banned: usize,
    pub error: usize,
    pub duplicates: usize,
}

impl RealtimeStats {
    pub open spec fn count_of(&self, o: Outcome) -> nat {
        match o {
            Outcome::Live => self.live as nat,
            Outcome::Dead => self.dead as nat,
            Outcome::Banned => self.banned as nat,
            Outcome::Error => self.error as nat,
            Outcome::Duplicate => self.duplicates as nat,
        }
    }

    pub open spec fn total(&self) -> nat {
        (self.live + self.dead + self.banned + self.error + self.duplicates) as nat
    }

    pub fn zero() -> (r: RealtimeStats)
        ensures
            forall|o: Outcome| #[trigger] r.count_of(o) == 0,
            r.total() == 0,
    {
        RealtimeStats { live: 0, dead: 0, banned: 0, error: 0, duplicates: 0 }
    }
}

/// How many of the live identities are in each presence state.
#[derive(Clone, Copy, Debug, PartialEq, Eq, Structural)]
pub struct PresenceStats {
    pub online: usize,
    pub offline: usize,
    pub in_game: usize,
    pub in_studio: usize,
}

impl PresenceStats {
    pub fn zero() -> (r: PresenceStats)
        ensures
            r == (PresenceStats { online: 0, offline: 0, in_game: 0, in_studio: 0 }),
    {
        PresenceStats { online: 0, offline: 0, in_game: 0, in_studio: 0 }
    }
}

/// One line of the continuous-mode log: when it was written, the slot it
/// concerns and what was recorded.
#[derive(Clone, Debug)]
pub struct TimedEntry {
    pub stamp: String,
    pub slot: usize,
    pub entry: LogEntry,
}

/// What the authentication step left to do for a credential.
#[derive(Clone, Debug)]
pub enum AuthStep {
    /// The slot is blank: nothing was recorded.
    Skipped,
    /// The outcome was recorded.
    Recorded(Outcome),
    /// A new identity: its ban status decides the outcome.
    CheckBan { id: u64, name: String },
}

/// The shared state of the continuous mode.
pub struct RealtimeData {
    pub cookies: Vec<String>,
    pub stats: RealtimeStats,
    pub presence: PresenceStats,
    pub logs: Vec<TimedEntry>,
    pub seen_ids: HashSet<u64>,
    pub live_ids: Vec<u64>,
    pub countdown: u32,
    pub check_interval: u32,
}

/// The outcome that the authentication step records for a processed slot,
/// given the identities already seen this cycle; `None` where a ban check
/// must decide.
pub open spec fn realtime_auth_outcome(seen: Set<u64>, reply: AuthReply) -> Option<Outcome> {
    match reply {
        AuthReply::Unreachable => Some(Outcome::Dead),
        AuthReply::Answered { body, parsed } => if seq_contains(body@, moderation_marker()) {
            Some(Outcome::Banned)
        } else {
            match parsed {
                None => Some(Outcome::Dead),
                Some(a) => if seen.contains(a.id) {
                    Some(Outcome::Duplicate)
                } else {
                    None
                },
            }
        },
    }
}

impl RealtimeData {
    /// At most a log's capacity of lines; no identity twice in the live list.
    pub open spec fn wf(&self) -> bool {
        &&& self.logs@.len() <= LOG_CAPACITY
        &&& self.live_ids@.no_duplicates()
    }

    pub fn new(cookies: Vec<String>, check_interval: u32) -> (r: RealtimeData)
        ensures
            r.wf(),
            r.cookies@ == cookies@,
            r.stats.total() == 0,
            r.presence == (PresenceStats { online: 0, offline: 0, in_game: 0, in_studio: 0 }),
            r.logs@.len() == 0,
            r.seen_ids@ == Set::<u64>::empty(),
            r.live_ids@.len() == 0,
            r.countdown == check_interval,
            r.check_interval == check_interval,
    {
        RealtimeData {
            cookies,
            stats: RealtimeStats::zero(),
            presence: PresenceStats::zero(),
            logs: Vec::new(),
            seen_ids: HashSet::new(),
            live_ids: Vec::new(),
            countdown: check_interval,
            check_interval,
        }
    }

    /// Starts a re-check cycle from a clean slate: counters, the identities
    /// seen, the live identities and the presence tally are cleared, and the
    /// countdown starts over. The log is kept.
    pub fn begin_cycle(&mut self)
        requires
            old(self).wf(),
        ensures
            final(self).wf(),
            forall|o: Outcome| #[trigger] final(self).stats.count_of(o) == 0,
            final(self).stats.total() == 0,
            final(self).seen_ids@ == Set::<u64>::empty(),
            final(self).live_ids@.len() == 0,
            final(self).presence == (PresenceStats { online: 0, offline: 0, in_game: 0, in_studio: 0 }),
            final(self).countdown == old(self).check_interval,
            final(self).check_interval == old(self).check_interval,
            final(self).cookies@ == old(self).cookies@,
            final(self).logs@ == old(self).logs@,
    {
        self.stats = RealtimeStats::zero();
        self.seen_ids.clear();
        self.countdown = self.check_interval;
        self.live_ids = Vec::new();
        self.presence = PresenceStats::zero();
    }

    /// One second of the display countdown: it counts down to zero, then
    /// starts over from the interval.
    pub fn tick(&mut self)
        ensures
            final(self).countdown == if old(self).countdown > 0 {
                (old(self).countdown - 1) as u32
            } else {
                old(self).check_interval
            },
            final(self).check_interval == old(self).check_interval,
            final(self).stats == old(self).stats,
            final(self).logs@ == old(self).logs@,
            final(self).live_ids@ == old(self).live_ids@,
            final(self).seen_ids@ == old(self).seen_ids@,
            final(self).presence == old(self).presence,
            final(self).cookies@ == old(self).cookies@,
    {
        if self.countdown > 0 {
            self.countdown = self.countdown - 1;
        } else {
            self.countdown = self.check_interval;
        }
    }

    /// Appends a log line, dropping the oldest once the capacity is passed.
    pub fn push_log(&mut self, line: TimedEntry)
        requires
            old(self).wf(),
        ensures
            final(self).wf(),
            final(self).logs@ == if old(self).logs@.len() + 1 > LOG_CAPACITY {
                old(self).logs@.push(line).drop_first()
            } else {
                old(self).logs@.push(line)
            },
            final(self).stats == old(self).stats,
            final(self).live_ids@ == old(self).live_ids@,
            final(self).seen_ids@ == old(self).seen_ids@,
            final(self).presence == old(self).presence,
            final(self).cookies@ == old(self).cookies@,
            final(self).countdown == old(self).countdown,
            final(self).check_interval == old(self).check_interval,
    {
        self.logs.push(line);
        if self.logs.len() > LOG_CAPACITY {
            self.logs.remove(0);
        }
        proof {
            assert(old(self).logs@.push(line).drop_first() =~= old(self).logs@.push(line).remove(0));
        }
    }

    fn bump(&mut self, o: Outcome)
        requires
            old(self).stats.total() < usize::MAX,
        ensures
            forall|p: Outcome|
                #[trigger] final(self).stats.count_of(p) == old(self).stats.count_of(p) + if p == o {
                    1nat
                } else {
                    0nat
                },
            final(self).stats.total() == old(self).stats.total() + 1,
            final(self).logs@ == old(self).logs@,
            final(self).live_ids@ == old(self).live_ids@,
            final(self).seen_ids@ == old(self).seen_ids@,
            final(self).presence == old(self).presence,
            final(self).cookies@ == old(self).cookies@,
            final(self).countdown == old(self).countdown,
            final(self).check_interval == old(self).check_interval,
    {
        match o {
            Outcome::Live => self.stats.live = self.stats.live + 1,
            Outcome::Dead => self.stats.dead = self.stats.dead + 1,
            Outcome::Banned => self.stats.banned = self.stats.banned + 1,
            Outcome::Error => self.stats.error = self.stats.error + 1,
            Outcome::Duplicate => self.stats.duplicates = self.stats.duplicates + 1,
        }
    }

    /// There is room to count one more outcome in this cycle.
    pub fn has_room(&self) -> (r: bool)
        ensures
            r == (self.stats.total() < usize::MAX),
    {
        self.stats.live < usize::MAX - self.stats.dead && self.stats.live + self.stats.dead
            < usize::MAX - self.stats.banned && self.stats.live + self.stats.dead
            + self.stats.banned < usize::MAX - self.stats.error && self.stats.live
            + self.stats.dead + self.stats.banned + self.stats.error < usize::MAX
            - self.stats.duplicates
    }

    /// The authentication step of one credential in a cycle. Blank slots are
    /// skipped; an unreachable or unreadable reply is DEAD, a moderated one
    /// BANNED, an identity already seen this cycle a DUPLICATE. A new identity
    /// is marked seen and handed back for its ban check.
    pub fn check_single_cookie(&mut self, index: usize, reply: &AuthReply, stamp: String) -> (r: AuthStep)
        requires
            old(self).wf(),
            old(self).stats.total() < usize::MAX,
            index < old(self).cookies@.len(),
        ensures
            final(self).wf(),
            is_blank_seq(old(self).cookies@[index as int]@) ==> r is Skipped && final(self).stats
                == old(self).stats && final(self).seen_ids@ == old(self).seen_ids@
                && final(self).logs@ == old(self).logs@,
            !is_blank_seq(old(self).cookies@[index as int]@) ==> match realtime_auth_outcome(
                old(self).seen_ids@,
                *reply,
            ) {
                Some(o) => r == AuthStep::Recorded(o) && forall|p: Outcome|
                    #[trigger] final(self).stats.count_of(p) == old(self).stats.count_of(p) + if p
                        == o {
                        1nat
                    } else {
                        0nat
                    },
                None => reply matches AuthReply::Answered { parsed: Some(a), .. } && r matches AuthStep::CheckBan { id, name }
                    && id == a.id && name@ == a.name@ && final(self).seen_ids@ == old(
                    self,
                ).seen_ids@.insert(a.id) && final(self).stats == old(self).stats,
            },
            r is Recorded ==> final(self).seen_ids@ == old(self).seen_ids@ && final(self).logs@.len()
                > 0 && final(self).logs@.last().slot == index && r == AuthStep::Recorded(
                final(self).logs@.last().entry.outcome,
            ),
            !(r is Recorded) ==> final(self).logs@ == old(self).logs@,
            final(self).live_ids@ == old(self).live_ids@,
            final(self).presence == old(self).presence,
            final(self).cookies@ == old(self).cookies@,
            final(self).countdown == old(self).countdown,
            final(self).check_interval == old(self).check_interval,
    {
        if is_blank(self.cookies[index].as_str()) {
            return AuthStep::Skipped;
        }
        match reply {
            AuthReply::Unreachable => {
                self.bump(Outcome::Dead);
                self.push_log(
                    TimedEntry { stamp, slot: index, entry: LogEntry { outcome: Outcome::Dead, name: None, id: None } },
                );
                AuthStep::Recorded(Outcome::Dead)
            },
            AuthReply::Answered { body, parsed } => {
                if contains_text(body.as_str(), "User is moderated") {
                    self.bump(Outcome::Banned);
                    self.push_log(
                        TimedEntry { stamp, slot: index, entry: LogEntry { outcome: Outcome::Banned, name: None, id: None } },
                    );
                    return AuthStep::Recorded(Outcome::Banned);
                }
                match parsed {
                    None => {
                        self.bump(Outcome::Dead);
                        self.push_log(
                            TimedEntry { stamp, slot: index, entry: LogEntry { outcome: Outcome::Dead, name: None, id: None } },
                        );
                        AuthStep::Recorded(Outcome::Dead)
                    },
                    Some(a) => {
                        if self.seen_ids.insert(a.id) {
                            AuthStep::CheckBan { id: a.id, name: a.name.clone() }
                        } else {
                            self.bump(Outcome::Duplicate);
                            self.push_log(
                                TimedEntry {
                                    stamp,
                                    slot: index,
                                    entry: LogEntry {
                                        outcome: Outcome::Duplicate,
                                        name: Some(a.name.clone()),
                                        id: Some(a.id),
                                    },
                                },
                            );
                            AuthStep::Recorded(Outcome::Duplicate)
                        }
                    },
                }
            },
        }
    }

    /// The ban-check step of a new identity: a banned flag records BANNED, a
    /// clear one LIVE (the identity joins the live list), an unknown one ERROR.
    pub fn record_ban_check(&mut self, index: usize, id: u64, name: String, is_banned: Option<bool>, stamp: String) -> (r: Outcome)
        requires
            old(self).wf(),
            old(self).stats.total() < usize::MAX,
        ensures
            final(self).wf(),
            r == ban_outcome(is_banned),
            forall|p: Outcome|
                #[trigger] final(self).stats.count_of(p) == old(self).stats.count_of(p) + if p == r {
                    1nat
                } else {
                    0nat
                },
            r == Outcome::Live ==> forall|x: u64| #[trigger] final(self).live_ids@.contains(x) <==> (old(self).live_ids@.contains(x) || x == id),
            r != Outcome::Live ==> final(self).live_ids@ == old(self).live_ids@,
            final(self).logs@.len() > 0,
            final(self).logs@.last().slot == index,
            final(self).logs@.last().entry.outcome == r,
            final(self).logs@.last().entry.id == Some(id),
            final(self).logs@.last().entry.name == Some(name),
            final(self).seen_ids@ == old(self).seen_ids@,
            final(self).presence == old(self).presence,
            final(self).cookies@ == old(self).cookies@,
            final(self).countdown == old(self).countdown,
            final(self).check_interval == old(self).check_interval,
    {
        let outcome = outcome_of_ban(is_banned);
        self.bump(outcome);
        if let Outcome::Live = outcome {
            let mut present = false;
            let mut k: usize = 0;
            while k < self.live_ids.len()
                invariant
                    k <= self.live_ids@.len(),
                    present == exists|m: int| 0 <= m < k && self.live_ids@[m] == id,
                decreases self.live_ids@.len() - k,
            {
                if self.live_ids[k] == id {
                    present = true;
                }
                k = k + 1;
            }
            let ghost l0 = self.live_ids@;
            if !present {
                self.live_ids.push(id);
            }
            proof {
                if present {
                    let m = choose|m: int| 0 <= m < l0.len() && l0[m] == id;
                    assert(l0.contains(id));
                }
                {
                    assert forall|x: u64| self.live_ids@.contains(x) <==> (l0.contains(x) || x == id) by {
                        if !present {
                            if l0.contains(x) {
                                let m = choose|m: int| 0 <= m < l0.len() && l0[m] == x;
                                assert(self.live_ids@[m] == x);
                            }
                            if self.live_ids@.contains(x) {
                                let m = choose|m: int| 0 <= m < self.live_ids@.len() && self.live_ids@[m] == x;
                                if m < l0.len() {
                                    assert(l0[m] == x);
                                }
                            }
                            assert(self.live_ids@[l0.len() as int] == id);
                        }
                    }
                }
            }
        }
        self.push_log(TimedEntry { stamp, slot: index, entry: LogEntry { outcome, name: Some(name), id: Some(id) } });
        outcome
    }
}

/// How many entries of `s` equal `code`.
pub open spec fn count_code(s: Seq<u64>, code: u64) -> nat
    decreases s.len(),
{
    if s.len() == 0 {
        0
    } else {
        count_code(s.drop_last(), code) + if s.last() == code {
            1nat
        } else {
            0nat
        }
    }
}

/// The end of the presence batch that starts at `start`.
pub open spec fn batch_end(start: int, n: int) -> int {
    if start + PRESENCE_BATCH <= n {
        start + PRESENCE_BATCH
    } else {
        n
    }
}

impl RealtimeData {
    /// The live identities cut into consecutive batches of at most a
    /// presence request's size, in order.
    pub fn presence_batches(&self) -> (r: Vec<Vec<u64>>)
        ensures
            forall|c: int|
                0 <= c < r@.len() ==> (#[trigger] r@[c])@ == self.live_ids@.subrange(
                    PRESENCE_BATCH * c,
                    batch_end(PRESENCE_BATCH * c, self.live_ids@.len() as int),
                ),
            PRESENCE_BATCH * r@.len() >= self.live_ids@.len(),
            r@.len() == 0 || PRESENCE_BATCH * (r@.len() - 1) < self.live_ids@.len(),
    {
        let n = self.live_ids.len();
        let mut r: Vec<Vec<u64>> = Vec::new();
        let mut start: usize = 0;
        while start < n
            invariant
                n == self.live_ids@.len(),
                start <= n,
                start == if PRESENCE_BATCH * r@.len() <= n {
                    PRESENCE_BATCH * r@.len()
                } else {
                    n as int
                },
                r@.len() == 0 || PRESENCE_BATCH * (r@.len() - 1) < n,
                forall|c: int|
                    0 <= c < r@.len() ==> (#[trigger] r@[c])@ == self.live_ids@.subrange(
                        PRESENCE_BATCH * c,
                        batch_end(PRESENCE_BATCH * c, n as int),
                    ),
            decreases n - start,
        {
            let end = if n - start > PRESENCE_BATCH {
                start + PRESENCE_BATCH
            } else {
                n
            };
            let mut chunk: Vec<u64> = Vec::new();
            let mut k: usize = start;
            while k < end
                invariant
                    start <= k <= end <= n,
                    n == self.live_ids@.len(),
                    chunk@ == self.live_ids@.subrange(start as int, k as int),
                decreases end - k,
            {
                chunk.push(self.live_ids[k]);
                proof {
                    assert(self.live_ids@.subrange(start as int, k + 1) =~= self.live_ids@.subrange(
                        start as int,
                        k as int,
                    ).push(self.live_ids@[k as int]));
                }
                k = k + 1;
            }
            proof {
                assert(start == PRESENCE_BATCH * r@.len());
                assert(end == batch_end(start as int, n as int));
            }
            r.push(chunk);
            start = end;
        }
        r
    }

    /// Adds the presence codes of one batch to the tally: 0 offline, 1
    /// online, 2 in a game, 3 in the studio; other codes are ignored.
    pub fn tally_presence(&mut self, codes: &Vec<u64>)
        requires
            old(self).presence.online + old(self).presence.offline + old(self).presence.in_game
                + old(self).presence.in_studio + codes@.len() <= usize::MAX,
        ensures
            final(self).presence.offline == old(self).presence.offline + count_code(codes@, 0),
            final(self).presence.online == old(self).presence.online + count_code(codes@, 1),
            final(self).presence.in_game == old(self).presence.in_game + count_code(codes@, 2),
            final(self).presence.in_studio == old(self).presence.in_studio + count_code(codes@, 3),
            final(self).stats == old(self).stats,
            final(self).logs@ == old(self).logs@,
            final(self).live_ids@ == old(self).live_ids@,
            final(self).seen_ids@ == old(self).seen_ids@,
            final(self).cookies@ == old(self).cookies@,
            final(self).countdown == old(self).countdown,
            final(self).check_interval == old(self).check_interval,
    {
        let ghost tally0 = self.presence;
        let mut j: usize = 0;
        while j < codes.len()
            invariant
                j <= codes@.len(),
                tally0.online + tally0.offline + tally0.in_game + tally0.in_studio + codes@.len() <= usize::MAX,
                self.presence.offline == tally0.offline + count_code(codes@.take(j as int), 0),
                self.presence.online == tally0.online + count_code(codes@.take(j as int), 1),
                self.presence.in_game == tally0.in_game + count_code(codes@.take(j as int), 2),
                self.presence.in_studio == tally0.in_studio + count_code(codes@.take(j as int), 3),
                count_code(codes@.take(j as int), 0) + count_code(codes@.take(j as int), 1)
                    + count_code(codes@.take(j as int), 2) + count_code(codes@.take(j as int), 3) <= j,
                self.stats == old(self).stats,
                self.logs@ == old(self).logs@,
                self.live_ids@ == old(self).live_ids@,
                self.seen_ids@ == old(self).seen_ids@,
                self.cookies@ == old(self).cookies@,
                self.countdown == old(self).countdown,
                self.check_interval == old(self).check_interval,
            decreases codes@.len() - j,
        {
            proof {
                assert(codes@.take(j + 1).drop_last() =~= codes@.take(j as int));
            }
            let code = codes[j];
            if code == 0 {
                self.presence.offline = self.presence.offline + 1;
            } else if code == 1 {
                self.presence.online = self.presence.online + 1;
            } else if code == 2 {
                self.presence.in_game = self.presence.in_game + 1;
            } else if code == 3 {
                self.presence.in_studio = self.presence.in_studio + 1;
            }
            j = j + 1;
        }
        proof {
            assert(codes@.take(codes@.len() as int) =~= codes@);
        }
    }
}

/// After a cycle has begun, no identity is a DUPLICATE on its first
/// sighting: whatever the previous cycle saw is forgotten.
pub proof fn lemma_fresh_cycle_has_no_duplicates(reply: AuthReply)
    ensures
        realtime_auth_outcome(Set::<u64>::empty(), reply) != Some(Outcome::Duplicate),
{
}

} // verus!
