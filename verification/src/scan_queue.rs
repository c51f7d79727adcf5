//! The scan queue. Scans run one at a time. A request during a scan joins
//! it and gets that scan's result; a full scan requested during an install
//! scan runs right after it. The worker takes the next scan and files its
//! result; waiting for either is the caller's.

use vstd::prelude::*;
use crate::placeholders::strs;
use crate::text::{chars_eq, chars_of, string_of};

verus! {

/// A queued or running scan.
#[derive(Debug, Clone)]
pub struct Job {
    pub id: u64,
    pub full: bool,
    pub user: bool,
    /// Why it runs, for the log. Requests that join a scan add theirs.
    pub reasons: Vec<String>,
}

/// A job as plain values: id, full, user, reasons.
pub type JobView = (u64, bool, bool, Seq<Seq<char>>);

pub open spec fn job_view(j: Job) -> JobView {
    (j.id, j.full, j.user, strs(j.reasons@))
}

pub open spec fn opt_job(j: Option<Job>) -> Option<JobView> {
    match j {
        Some(x) => Some(job_view(x)),
        None => None,
    }
}

/// The scan that runs, the one that runs next, the last id given out, the
/// recent results by scan id, and whether the host is stopping.
#[derive(Debug)]
pub struct Queue<R> {
    pub running: Option<Job>,
    pub next: Option<Job>,
    pub counter: u64,
    pub results: Vec<(u64, R)>,
    pub stopped: bool,
}

/// The queue as plain values.
pub type QueueView<R> = (Option<JobView>, Option<JobView>, u64, Seq<(u64, R)>, bool);

pub open spec fn queue_view<R>(q: Queue<R>) -> QueueView<R> {
    (opt_job(q.running), opt_job(q.next), q.counter, q.results@, q.stopped)
}

/// The reasons with one more, unless it is there already.
pub open spec fn add_reason(reasons: Seq<Seq<char>>, reason: Seq<char>) -> Seq<Seq<char>> {
    if reasons.contains(reason) {
        reasons
    } else {
        reasons.push(reason)
    }
}

/// A request for a scan: the queue after it and the id of the scan that
/// will answer it. A running scan that covers it (full, or the request is
/// an install scan) takes it; else the queued scan does, becoming full when
/// asked; else a new scan is queued.
pub open spec fn request_spec<R>(q: QueueView<R>, full: bool, user: bool, reason: Seq<char>) -> (QueueView<R>, u64) {
    match q.0 {
        Some(j) if j.1 || !full => (
            (Some((j.0, j.1, j.2 || user, add_reason(j.3, reason))), q.1, q.2, q.3, q.4),
            j.0,
        ),
        _ => match q.1 {
            Some(n) => ((q.0, Some((n.0, n.1 || full, n.2 || user, add_reason(n.3, reason))), q.2, q.3, q.4), n.0),
            None => (
                (q.0, Some(((q.2 + 1) as u64, full, user, seq![reason])), (q.2 + 1) as u64, q.3, q.4),
                (q.2 + 1) as u64,
            ),
        },
    }
}

/// What the worker gets when it looks for work.
#[derive(Debug)]
pub enum Take {
    /// The host is stopping.
    Stopped,
    /// Nothing queued: wait for a request.
    Idle,
    /// This scan runs now.
    Run(Job),
}

/// The queue after the worker looks for work, and the job it starts.
pub open spec fn take_spec<R>(q: QueueView<R>) -> (QueueView<R>, Option<JobView>) {
    if q.4 {
        (q, None)
    } else {
        match q.1 {
            Some(j) => ((Some(j), None, q.2, q.3, q.4), Some(j)),
            None => (q, None),
        }
    }
}

/// The result recorded for a scan id: the first entry with it.
pub open spec fn result_of<R>(results: Seq<(u64, R)>, id: u64) -> Option<R>
    decreases results.len(),
{
    if results.len() == 0 {
        None
    } else if results[0].0 == id {
        Some(results[0].1)
    } else {
        result_of(results.drop_first(), id)
    }
}

/// The oldest result id that is dropped once scan `id` finishes.
pub open spec fn oldest_kept_after(id: u64) -> u64 {
    if id >= 64 {
        (id - 64) as u64
    } else {
        0
    }
}

impl Job {
    /// A copy of the job.
    pub fn duplicate(&self) -> (r: Job)
        ensures
            job_view(r) == job_view(*self),
    {
        let mut reasons: Vec<String> = Vec::new();
        let mut i: usize = 0;
        while i < self.reasons.len()
            invariant
                i <= self.reasons.len(),
                strs(reasons@) == strs(self.reasons@).take(i as int),
            decreases self.reasons.len() - i,
        {
            let ghost before = strs(reasons@);
            reasons.push(string_of(&chars_of(self.reasons[i].as_str())));
            assert(strs(reasons@) =~= before.push(strs(self.reasons@)[i as int]));
            assert(strs(self.reasons@).take(i + 1) =~= strs(self.reasons@).take(i as int).push(
                strs(self.reasons@)[i as int],
            ));
            i = i + 1;
        }
        assert(strs(self.reasons@).take(i as int) =~= strs(self.reasons@));
        Job { id: self.id, full: self.full, user: self.user, reasons }
    }

    fn has_reason(&self, reason: &[char]) -> (r: bool)
        ensures
            r == strs(self.reasons@).contains(reason@),
    {
        let mut i: usize = 0;
        while i < self.reasons.len()
            invariant
                i <= self.reasons.len(),
                forall|k: int| 0 <= k < i ==> #[trigger] strs(self.reasons@)[k] != reason@,
            decreases self.reasons.len() - i,
        {
            if chars_eq(&chars_of(self.reasons[i].as_str()), reason) {
                assert(strs(self.reasons@)[i as int] == reason@);
                return true;
            }
            i = i + 1;
        }
        false
    }

    fn add_reason(&mut self, reason: &str)
        ensures
            strs(final(self).reasons@) == add_reason(strs(old(self).reasons@), reason@),
            final(self).id == old(self).id,
            final(self).full == old(self).full,
            final(self).user == old(self).user,
    {
        if !self.has_reason(&chars_of(reason)) {
            let ghost before = strs(self.reasons@);
            self.reasons.push(string_of(&chars_of(reason)));
            assert(strs(self.reasons@) =~= before.push(reason@));
        }
    }
}

impl<R> Queue<R> {
    /// An empty queue.
    pub fn new() -> (r: Self)
        ensures
            queue_view(r) == (None::<JobView>, None::<JobView>, 0u64, Seq::<(u64, R)>::empty(), false),
    {
        Queue { running: None, next: None, counter: 0, results: Vec::new(), stopped: false }
    }

    /// Asks for a scan and returns the id of the scan that will answer it.
    pub fn request(&mut self, full: bool, user: bool, reason: &str) -> (r: u64)
        requires
            old(self).counter < u64::MAX,
        ensures
            (queue_view(*final(self)), r) == request_spec(queue_view(*old(self)), full, user, reason@),
    {
        let covered = match &self.running {
            Some(running) => running.full || !full,
            None => false,
        };
        if covered {
            let mut running = self.running.take().unwrap();
            running.user = running.user || user;
            running.add_reason(reason);
            let id = running.id;
            self.running = Some(running);
            return id;
        }
        if self.next.is_some() {
            let mut next = self.next.take().unwrap();
            next.full = next.full || full;
            next.user = next.user || user;
            next.add_reason(reason);
            let id = next.id;
            self.next = Some(next);
            return id;
        }
        self.counter = self.counter + 1;
        let id = self.counter;
        let reasons = vec![string_of(&chars_of(reason))];
        assert(strs(reasons@) =~= seq![reason@]);
        self.next = Some(Job { id, full, user, reasons });
        id
    }

    /// Starts the queued scan, unless the host is stopping.
    pub fn take(&mut self) -> (r: Take)
        ensures
            (queue_view(*final(self)), match r {
                Take::Run(j) => Some(job_view(j)),
                _ => None,
            }) == take_spec(queue_view(*old(self))),
            r is Stopped <==> old(self).stopped,
            r is Idle <==> !old(self).stopped && old(self).next is None,
    {
        if self.stopped {
            return Take::Stopped;
        }
        match self.next.take() {
            Some(job) => {
                self.running = Some(job.duplicate());
                Take::Run(job)
            },
            None => Take::Idle,
        }
    }

    /// Files the running scan's result and returns its job.
    pub fn finish(&mut self, result: R) -> (r: Job)
        requires
            old(self).running is Some,
        ensures
            job_view(r) == job_view(old(self).running->Some_0),
            ({
                let q = queue_view(*final(self));
                &&& (q.0, q.1, q.2, q.4) == (None::<JobView>, opt_job(old(self).next), old(self).counter, old(self).stopped)
                &&& result_of(q.3, r.id) == Some(result)
                &&& forall|id: u64| id != r.id ==> #[trigger] result_of(q.3, id) == if id > oldest_kept_after(r.id) {
                    result_of(old(self).results@, id)
                } else {
                    None::<R>
                }
            }),
    {
        let job = self.running.take().unwrap();
        let oldest: u64 = if job.id >= 64 {
            job.id - 64
        } else {
            0
        };
        let mut kept: Vec<(u64, R)> = Vec::new();
        kept.push((job.id, result));
        let mut rest: Vec<(u64, R)> = Vec::new();
        std::mem::swap(&mut rest, &mut self.results);
        let ghost start = rest@;
        assert(start.len() == rest.len());
        let mut i: usize = 0;
        assert(start.skip(0) == start);
        assert(start.take(0) =~= Seq::<(u64, R)>::empty());
        assert(kept@.drop_first() =~= Seq::<(u64, R)>::empty());
        assert(forall|id: u64| id != job.id ==> #[trigger] result_of(kept@, id) == result_of(kept@.drop_first(), id));
        while rest.len() > 0
            invariant
                rest@ == start.skip(i as int),
                i <= start.len() <= usize::MAX,
                kept@.len() > 0,
                kept@[0] == (job.id, result),
                forall|id: u64| id != job.id ==> #[trigger] result_of(kept@, id) == if id > oldest {
                    result_of(start.take(i as int), id)
                } else {
                    None
                },
            decreases rest.len(),
        {
            let entry = rest.remove(0);
            assert(start.skip(i as int)[0] == entry);
            assert(start[i as int] == entry);
            assert(start.skip(i as int).drop_first() == start.skip(i + 1));
            assert(start.take(i + 1) == start.take(i as int).push(entry));
            let ghost before = kept@;
            if entry.0 != job.id && entry.0 > oldest {
                kept.push(entry);
            }
            proof {
                assert forall|id: u64| id != job.id implies #[trigger] result_of(kept@, id) == if id > oldest {
                    result_of(start.take(i + 1), id)
                } else {
                    None
                } by {
                    lemma_result_push(start.take(i as int), entry, id);
                    if entry.0 != job.id && entry.0 > oldest {
                        lemma_result_push(before, entry, id);
                    }
                }
            }
            i = i + 1;
        }
        assert(start.take(i as int) == start);
        assert(result_of(kept@, job.id) == Some(result));
        self.results = kept;
        job
    }

    /// The result of a scan, while it is kept.
    pub fn result(&self, id: u64) -> (r: Option<&R>)
        ensures
            match r {
                Some(x) => result_of(self.results@, id) == Some(*x),
                None => result_of(self.results@, id) is None,
            },
    {
        let mut i: usize = 0;
        assert(self.results@.skip(0) == self.results@);
        while i < self.results.len()
            invariant
                i <= self.results.len(),
                result_of(self.results@, id) == result_of(self.results@.skip(i as int), id),
            decreases self.results.len() - i,
        {
            assert(self.results@.skip(i as int)[0] == self.results@[i as int]);
            if self.results[i].0 == id {
                return Some(&self.results[i].1);
            }
            assert(self.results@.skip(i as int).drop_first() == self.results@.skip(i + 1));
            i = i + 1;
        }
        assert(self.results@.skip(i as int).len() == 0);
        None
    }

    /// Whether a scan runs.
    pub fn is_running(&self) -> (r: bool)
        ensures
            r == self.running is Some,
    {
        self.running.is_some()
    }

    /// Whether the running scan was asked for by the user.
    pub fn running_user(&self) -> (r: bool)
        ensures
            r == (self.running matches Some(j) && j.user),
    {
        match &self.running {
            Some(j) => j.user,
            None => false,
        }
    }

    /// The host is stopping: no more scans start.
    pub fn stop(&mut self)
        ensures
            queue_view(*final(self)) == (
                queue_view(*old(self)).0,
                queue_view(*old(self)).1,
                queue_view(*old(self)).2,
                queue_view(*old(self)).3,
                true,
            ),
    {
        self.stopped = true;
    }
}

proof fn lemma_result_push<R>(results: Seq<(u64, R)>, e: (u64, R), id: u64)
    ensures
        result_of(results.push(e), id) == if result_of(results, id) is Some {
            result_of(results, id)
        } else if id == e.0 {
            Some(e.1)
        } else {
            None
        },
    decreases results.len(),
{
    let pushed = results.push(e);
    if results.len() > 0 {
        assert(pushed[0] == results[0]);
        assert(pushed.drop_first() == results.drop_first().push(e));
        lemma_result_push(results.drop_first(), e, id);
        if results[0].0 != id {
            assert(result_of(pushed, id) == result_of(pushed.drop_first(), id));
            assert(result_of(results, id) == result_of(results.drop_first(), id));
        }
    } else {
        assert(pushed[0] == e);
        assert(pushed.drop_first() =~= Seq::<(u64, R)>::empty());
    }
}

/// A request during a scan that covers it joins that scan: it is answered
/// with the running scan's id, so the result [`Queue::finish`] files for
/// the running scan is its answer, and nothing new is queued.
pub proof fn law_a_request_during_a_scan_joins_it<R>(q: QueueView<R>, full: bool, user: bool, reason: Seq<char>)
    requires
        q.0 matches Some(j) && (j.1 || !full),
    ensures
        ({
            let (q1, id) = request_spec(q, full, user, reason);
            &&& id == q.0->Some_0.0
            &&& q1.0 matches Some(j1) && j1.0 == id
            &&& q1.1 == q.1
            &&& q1.2 == q.2
        }),
{
}

/// A full scan requested during an install scan runs right after it: once
/// the install scan finishes, the next scan the worker starts is full and
/// answers the request.
pub proof fn law_a_full_scan_runs_after_an_install_scan<R>(
    q: QueueView<R>,
    user: bool,
    reason: Seq<char>,
    after: QueueView<R>,
)
    requires
        q.0 matches Some(j) && !j.1,
        !q.4,
        after.0 is None,
        after.1 == request_spec(q, true, user, reason).0.1,
        after.4 == request_spec(q, true, user, reason).0.4,
    ensures
        take_spec(after).1 matches Some(k) && k.0 == request_spec(q, true, user, reason).1 && k.1,
{
}

/// Two requests while nothing runs or waits are answered by one scan, full
/// when either asks for a full scan.
pub proof fn law_requests_while_idle_share_a_scan<R>(
    q: QueueView<R>,
    full1: bool,
    user1: bool,
    reason1: Seq<char>,
    full2: bool,
    user2: bool,
    reason2: Seq<char>,
)
    requires
        q.0 is None,
        q.1 is None,
        q.2 < u64::MAX,
    ensures
        ({
            let (q1, id1) = request_spec(q, full1, user1, reason1);
            let (q2, id2) = request_spec(q1, full2, user2, reason2);
            &&& id1 == id2
            &&& q2.1 matches Some(n) && n.0 == id1 && n.1 == (full1 || full2) && n.2 == (user1 || user2)
        }),
{
}

} // verus!
