use vstd::prelude::*;

verus! {

/// The admission gate of a bounded task pool: `total` units of work, of
/// which at most `limit` may be in flight at once. Units are admitted in
/// submission order; they may finish in any order.
pub struct BoundedPool {
    limit: usize,
    total: usize,
    started: usize,
    finished: usize,
    peak: usize,
}

impl BoundedPool {
    pub closed spec fn limit_spec(&self) -> nat {
        self.limit as nat
    }

    pub closed spec fn total_spec(&self) -> nat {
        self.total as nat
    }

    pub closed spec fn started_spec(&self) -> nat {
        self.started as nat
    }

    pub closed spec fn finished_spec(&self) -> nat {
        self.finished as nat
    }

    pub closed spec fn peak_spec(&self) -> nat {
        self.peak as nat
    }

    /// Units admitted and not yet finished.
    pub open spec fn in_flight_spec(&self) -> int {
        self.started_spec() - self.finished_spec()
    }

    /// Never more than `limit` units in flight, and the highest number ever
    /// in flight is recorded and within the limit too.
    pub open spec fn wf(&self) -> bool {
        &&& self.limit_spec() >= 1
        &&& self.finished_spec() <= self.started_spec() <= self.total_spec()
        &&& self.in_flight_spec() <= self.peak_spec() <= self.limit_spec()
    }

    pub fn new(limit: usize, total: usize) -> (r: BoundedPool)
        requires
            limit >= 1,
        ensures
            r.wf(),
            r.limit_spec() == limit,
            r.total_spec() == total,
            r.started_spec() == 0,
            r.finished_spec() == 0,
            r.peak_spec() == 0,
    {
        BoundedPool { limit, total, started: 0, finished: 0, peak: 0 }
    }

    /// Admits the next unit if a slot is free and units are waiting, and
    /// returns its submission index.
    pub fn try_start(&mut self) -> (r: Option<usize>)
        requires
            old(self).wf(),
        ensures
            final(self).wf(),
            final(self).limit_spec() == old(self).limit_spec(),
            final(self).total_spec() == old(self).total_spec(),
            final(self).finished_spec() == old(self).finished_spec(),
            old(self).in_flight_spec() < old(self).limit_spec() && old(self).started_spec()
                < old(self).total_spec() ==> r == Some(old(self).started_spec() as usize)
                && final(self).started_spec() == old(self).started_spec() + 1,
            !(old(self).in_flight_spec() < old(self).limit_spec() && old(self).started_spec()
                < old(self).total_spec()) ==> r is None && final(self).started_spec() == old(
                self).started_spec(),
    {
        if self.started - self.finished < self.limit && self.started < self.total {
            let index = self.started;
            self.started = self.started + 1;
            if self.started - self.finished > self.peak {
                self.peak = self.started - self.finished;
            }
            Some(index)
        } else {
            None
        }
    }

    /// Marks one in-flight unit as finished, freeing its slot.
    pub fn finish(&mut self)
        requires
            old(self).wf(),
            old(self).in_flight_spec() > 0,
        ensures
            final(self).wf(),
            final(self).limit_spec() == old(self).limit_spec(),
            final(self).total_spec() == old(self).total_spec(),
            final(self).started_spec() == old(self).started_spec(),
            final(self).finished_spec() == old(self).finished_spec() + 1,
            final(self).peak_spec() == old(self).peak_spec(),
    {
        self.finished = self.finished + 1;
    }

    pub fn in_flight(&self) -> (r: usize)
        requires
            self.wf(),
        ensures
            r == self.in_flight_spec(),
    {
        self.started - self.finished
    }

    /// The most units that were ever in flight at once.
    pub fn peak(&self) -> (r: usize)
        ensures
            r == self.peak_spec(),
    {
        self.peak
    }

    /// Every unit has been admitted and has finished.
    pub fn is_done(&self) -> (r: bool)
        ensures
            r == (self.finished_spec() == self.total_spec()),
    {
        self.finished == self.total
    }
}

/// Whatever sequence of admissions and completions a pool goes through, the
/// units in flight never exceed its limit, for every limit of at least one.
pub proof fn lemma_pool_within_limit(p: BoundedPool)
    requires
        p.wf(),
    ensures
        p.in_flight_spec() <= p.limit_spec(),
        p.peak_spec() <= p.limit_spec(),
        p.limit_spec() >= 1,
{
}

} // verus!
