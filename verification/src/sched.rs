//! The scheduler core: a registry of recurring jobs, each with a parsed cron
//! schedule and a next fire instant, advanced by a polling tick.
//!
//! The core never runs a job's handler itself: a tick reports the ids of the
//! jobs that are due, so the host can dispatch them without the tick ever
//! waiting on one, and recomputes each reported job's next fire instant from
//! the tick's clock reading. One job's state never enters another's firing
//! decision.

use vstd::prelude::*;
use vstd::string::StringSliceAdditionalSpecFns;
use crate::datetime::{dt_key, key_of, valid_dt, DateTime};
use crate::expr::CronExpr;
use crate::fire::{lemma_next_fire_sound, next_fire, spec_next_fire};
use crate::parse::{expr_from, expr_ok, parse_expr};

verus! {

/// Why a registration was refused.
#[derive(Clone, Copy, PartialEq, Eq, Structural, Debug)]
pub enum SchedError {
    /// The expression does not satisfy the cron grammar.
    InvalidSchedule,
    /// The expression is grammatical but matches no instant before the end
    /// of the calendar range.
    NeverFires,
}

/// One registered recurring job.
#[derive(Debug)]
pub struct Job {
    /// Identifier handed out at registration: the job's position in the
    /// registration order.
    pub id: u64,
    /// The parsed schedule.
    pub expr: CronExpr,
    /// The next instant the job is owed a firing, or `None` once the
    /// schedule is exhausted.
    pub next_fire_time: Option<DateTime>,
}

/// A job's internal invariant: its schedule is well formed and any pending
/// fire instant is a valid instant that the schedule matches.
pub open spec fn job_wf(j: Job) -> bool {
    &&& j.expr.wf()
    &&& match j.next_fire_time {
        Some(t) => valid_dt(t) && j.expr.fire_matches(t),
        None => true,
    }
}

/// A job is due at `now` when its pending fire instant is at or before `now`.
pub open spec fn job_due(j: Job, now: DateTime) -> bool {
    &&& j.next_fire_time is Some
    &&& dt_key(j.next_fire_time->0) <= dt_key(now)
}

/// The ids of the due jobs, in registration order.
pub open spec fn due_ids(jobs: Seq<Job>, now: DateTime) -> Seq<u64>
    decreases jobs.len(),
{
    if jobs.len() == 0 {
        Seq::empty()
    } else {
        let rest = due_ids(jobs.drop_last(), now);
        if job_due(jobs.last(), now) {
            rest.push(jobs.last().id)
        } else {
            rest
        }
    }
}

/// The scheduler core: the registered jobs and whether the host has started
/// driving the tick loop.
#[derive(Debug)]
pub struct Scheduler {
    pub jobs: Vec<Job>,
    pub running: bool,
}

impl Scheduler {
    /// Well-formedness: each job is well formed and carries its position as
    /// its id, so ids are unique.
    pub open spec fn wf(self) -> bool {
        forall|i: int|
            0 <= i < self.jobs@.len() ==> job_wf(#[trigger] self.jobs@[i]) && self.jobs@[i].id
                == i as u64
    }

    /// An idle scheduler with an empty job set.
    pub fn new() -> (s: Scheduler)
        ensures
            s.wf(),
            s.jobs@.len() == 0,
            !s.running,
    {
        Scheduler { jobs: Vec::new(), running: false }
    }

    /// Mark the scheduler started. Starting an already running scheduler
    /// changes nothing, so the call is idempotent.
    pub fn start(&mut self)
        ensures
            final(self).running,
            final(self).jobs == old(self).jobs,
    {
        self.running = true;
    }

    pub fn is_running(&self) -> (r: bool)
        ensures
            r == self.running,
    {
        self.running
    }

    pub fn job_count(&self) -> (n: usize)
        ensures
            n == self.jobs@.len(),
    {
        self.jobs.len()
    }

    /// Register a job. On success the job enters the set with the next fire
    /// instant strictly after `now`; on failure the job set is unchanged.
    pub fn add(&mut self, sched_expr: &str, now: &DateTime) -> (r: Result<u64, SchedError>)
        requires
            old(self).wf(),
            valid_dt(*now),
        ensures
            final(self).wf(),
            final(self).running == old(self).running,
            match r {
                Ok(id) => {
                    &&& expr_ok(sched_expr.spec_bytes())
                    &&& id == old(self).jobs@.len() as u64
                    &&& final(self).jobs@.len() == old(self).jobs@.len() + 1
                    &&& forall|i: int|
                        0 <= i < old(self).jobs@.len() ==> final(self).jobs@[i] == old(
                            self,
                        ).jobs@[i]
                    &&& ({
                        let j = final(self).jobs@.last();
                        &&& j.id == id
                        &&& expr_from(j.expr, sched_expr.spec_bytes())
                        &&& j.next_fire_time == spec_next_fire(j.expr, *now)
                        &&& j.next_fire_time is Some
                    })
                },
                Err(SchedError::InvalidSchedule) => {
                    &&& !expr_ok(sched_expr.spec_bytes())
                    &&& *final(self) == *old(self)
                },
                Err(SchedError::NeverFires) => {
                    &&& expr_ok(sched_expr.spec_bytes())
                    &&& (exists|e2: CronExpr|
                        expr_from(e2, sched_expr.spec_bytes()) && spec_next_fire(e2, *now) is None)
                    &&& *final(self) == *old(self)
                },
            },
    {
        match parse_expr(sched_expr) {
            None => Err(SchedError::InvalidSchedule),
            Some(ex) => {
                match next_fire(&ex, now) {
                    None => {
                        proof {
                            assert(expr_from(ex, sched_expr.spec_bytes())
                                && spec_next_fire(ex, *now) is None);
                        }
                        Err(SchedError::NeverFires)
                    },
                    Some(t) => {
                        let id = self.jobs.len() as u64;
                        proof {
                            lemma_next_fire_sound(ex, *now);
                        }
                        self.jobs.push(Job { id, expr: ex, next_fire_time: Some(t) });
                        Ok(id)
                    },
                }
            },
        }
    }

    /// One polling pass at clock reading `now`: report every due job, in
    /// registration order, and recompute each reported job's next fire
    /// instant from `now`. Jobs that are not due are untouched, so no job's
    /// firing decision depends on any other job.
    #[verifier::loop_isolation(false)]
    pub fn tick(&mut self, now: &DateTime) -> (fired: Vec<u64>)
        requires
            old(self).wf(),
            valid_dt(*now),
        ensures
            final(self).wf(),
            final(self).running == old(self).running,
            final(self).jobs@.len() == old(self).jobs@.len(),
            forall|i: int|
                0 <= i < old(self).jobs@.len() ==> {
                    let jo = #[trigger] old(self).jobs@[i];
                    let jn = final(self).jobs@[i];
                    &&& jn.id == jo.id
                    &&& jn.expr == jo.expr
                    &&& (job_due(jo, *now) ==> jn.next_fire_time == spec_next_fire(jo.expr, *now))
                    &&& (!job_due(jo, *now) ==> jn == jo)
                },
            fired@ == due_ids(old(self).jobs@, *now),
    {
        let mut fired: Vec<u64> = Vec::new();
        let n = self.jobs.len();
        let mut i: usize = 0;
        while i < n
            invariant
                0 <= i <= n,
                self.jobs@.len() == n,
                self.running == old(self).running,
                forall|k: int| i <= k < n ==> self.jobs@[k] == old(self).jobs@[k],
                forall|k: int|
                    0 <= k < i ==> {
                        let jo = #[trigger] old(self).jobs@[k];
                        let jn = self.jobs@[k];
                        &&& jn.id == jo.id
                        &&& jn.expr == jo.expr
                        &&& job_wf(jn)
                        &&& (job_due(jo, *now) ==> jn.next_fire_time == spec_next_fire(
                            jo.expr,
                            *now,
                        ))
                        &&& (!job_due(jo, *now) ==> jn == jo)
                    },
                fired@ == due_ids(old(self).jobs@.take(i as int), *now),
            decreases n - i,
        {
            let due: bool = match &self.jobs[i].next_fire_time {
                Some(t) => key_of(t) <= key_of(now),
                None => false,
            };
            assert(due == job_due(old(self).jobs@[i as int], *now));
            if due {
                fired.push(self.jobs[i].id);
                let nf = next_fire(&self.jobs[i].expr, now);
                proof {
                    if nf is Some {
                        lemma_next_fire_sound(self.jobs@[i as int].expr, *now);
                    }
                }
                self.jobs[i].next_fire_time = nf;
            }
            proof {
                assert(old(self).jobs@.take(i as int + 1).drop_last() =~= old(self).jobs@.take(
                    i as int,
                ));
                assert(old(self).jobs@.take(i as int + 1).last() == old(self).jobs@[i as int]);
            }
            i = i + 1;
        }
        proof {
            assert(old(self).jobs@.take(n as int) =~= old(self).jobs@);
            assert forall|q: int|
                0 <= q < self.jobs@.len() implies job_wf(#[trigger] self.jobs@[q])
                && self.jobs@[q].id == q as u64 by {
                assert(old(self).jobs@[q].id == q as u64);
            }
        }
        fired
    }

    /// The pending next fire instant of the job with the given id, or `None`
    /// if no such job is registered or its schedule is exhausted.
    pub fn next_fire_time(&self, id: u64) -> (r: Option<DateTime>)
        requires
            self.wf(),
        ensures
            r == if (id as int) < self.jobs@.len() {
                self.jobs@[id as int].next_fire_time
            } else {
                Option::<DateTime>::None
            },
    {
        if id < self.jobs.len() as u64 {
            let idx = id as usize;
            self.jobs[idx].next_fire_time
        } else {
            None
        }
    }
}

/// A job's pending fire instant never moves backward: when a tick fires a
/// due job, the instant recomputed from the tick's clock reading lies
/// strictly after the one that made the job due.
pub proof fn lemma_fire_time_monotone(j: Job, now: DateTime)
    requires
        job_wf(j),
        valid_dt(now),
        job_due(j, now),
        spec_next_fire(j.expr, now) is Some,
    ensures
        dt_key(spec_next_fire(j.expr, now)->Some_0) > dt_key(j.next_fire_time->0),
{
    lemma_next_fire_sound(j.expr, now);
}

/// The ids a tick reports are exactly the ids of due jobs.
proof fn lemma_due_ids_elems(jobs: Seq<Job>, now: DateTime, x: u64)
    ensures
        due_ids(jobs, now).contains(x) <==> exists|k: int|
            0 <= k < jobs.len() && #[trigger] jobs[k].id == x && job_due(jobs[k], now),
    decreases jobs.len(),
{
    if jobs.len() > 0 {
        let rest = jobs.drop_last();
        lemma_due_ids_elems(rest, now, x);
        let l = jobs.len() - 1;
        if due_ids(jobs, now).contains(x) {
            if job_due(jobs.last(), now) && jobs.last().id == x {
                assert(jobs[l].id == x && job_due(jobs[l], now));
            } else {
                assert(due_ids(rest, now).contains(x));
                let k = choose|k: int|
                    0 <= k < rest.len() && #[trigger] rest[k].id == x && job_due(rest[k], now);
                assert(jobs[k].id == x && job_due(jobs[k], now));
            }
        }
        if exists|k: int| 0 <= k < jobs.len() && #[trigger] jobs[k].id == x && job_due(jobs[k], now) {
            let k = choose|k: int|
                0 <= k < jobs.len() && #[trigger] jobs[k].id == x && job_due(jobs[k], now);
            if k < l {
                assert(rest[k].id == x && job_due(rest[k], now));
                assert(due_ids(rest, now).contains(x));
                let p = choose|p: int| 0 <= p < due_ids(rest, now).len() && due_ids(rest, now)[p] == x;
                assert(due_ids(jobs, now)[p] == x);
            } else {
                assert(job_due(jobs.last(), now) && jobs.last().id == x);
                assert(due_ids(jobs, now).last() == x);
            }
        }
    }
}

/// Isolation of firing decisions: a tick reports a job's id exactly when
/// that job's own next fire instant is due. No sibling job's schedule,
/// state, or handler outcome enters the decision, so a failing or stalled
/// sibling cannot keep a due job from being reported.
pub proof fn lemma_tick_isolation(jobs: Seq<Job>, now: DateTime, i: int)
    requires
        0 <= i < jobs.len(),
        forall|p: int, q: int|
            0 <= p < q < jobs.len() ==> #[trigger] jobs[p].id != #[trigger] jobs[q].id,
    ensures
        due_ids(jobs, now).contains(jobs[i].id) <==> job_due(jobs[i], now),
{
    lemma_due_ids_elems(jobs, now, jobs[i].id);
    if due_ids(jobs, now).contains(jobs[i].id) {
        let k = choose|k: int|
            0 <= k < jobs.len() && #[trigger] jobs[k].id == jobs[i].id && job_due(jobs[k], now);
        if k != i {
            if k < i {
                assert(jobs[k].id != jobs[i].id);
            } else {
                assert(jobs[i].id != jobs[k].id);
            }
        }
    }
}

} // verus!
