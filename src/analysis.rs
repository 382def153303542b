use vstd::prelude::*;

use crate::common::{dur, wcet_of, Task, TaskResult, Tasks, TasksResult, Trace};
use crate::id_prio::IdPrio;

verus! {

// ---------------------------------------------------------------------------
// Priority ceilings
// ---------------------------------------------------------------------------

/// `m` with the entry for `id` raised to at least `p`, created if absent.
pub open spec fn raise(m: Map<Seq<char>, u8>, id: Seq<char>, p: u8) -> Map<Seq<char>, u8> {
    if m.contains_key(id) && m[id] >= p {
        m
    } else {
        m.insert(id, p)
    }
}

/// `m` raised to `p` at every identifier found in the subtrees of the first
/// `n` children of `t`, in order.
pub open spec fn raise_children(m: Map<Seq<char>, u8>, p: u8, t: Trace, n: int) -> Map<
    Seq<char>,
    u8,
>
    decreases t, n,
{
    if n <= 0 || n > t.inner@.len() {
        m
    } else {
        let c = t.inner@[n - 1];
        raise_children(raise(raise_children(m, p, t, n - 1), c.id@, p), p, c, c.inner@.len() as int)
    }
}

/// `m` raised to `p` at every identifier of the tree `t`.
pub open spec fn raise_tree(m: Map<Seq<char>, u8>, p: u8, t: Trace) -> Map<Seq<char>, u8> {
    raise_children(raise(m, t.id@, p), p, t, t.inner@.len() as int)
}

/// The priority ceiling of every identifier used by a task set: the highest
/// priority of a task whose trace holds that identifier.
pub open spec fn ceilings(ts: Seq<Task>) -> Map<Seq<char>, u8>
    decreases ts.len(),
{
    if ts.len() == 0 {
        Map::empty()
    } else {
        raise_tree(ceilings(ts.drop_last()), ts.last().prio, ts.last().trace)
    }
}

// ---------------------------------------------------------------------------
// Blocking
// ---------------------------------------------------------------------------

/// A node blocks a task of priority `prio` when the ceiling of its
/// identifier reaches that priority (ceiling equal to the priority counts).
pub open spec fn blocks(c: Trace, prio: u8, ip: Map<Seq<char>, u8>) -> bool {
    ip.contains_key(c.id@) && ip[c.id@] >= prio
}

/// The largest blocking contribution among the first `n` children of `t`.
pub open spec fn children_blocking(t: Trace, n: int, prio: u8, ip: Map<Seq<char>, u8>) -> int
    decreases t, n,
{
    if n <= 0 || n > t.inner@.len() {
        0
    } else {
        let c = t.inner@[n - 1];
        let b = if blocks(c, prio, ip) {
            dur(c)
        } else {
            children_blocking(c, c.inner@.len() as int, prio, ip)
        };
        let a = children_blocking(t, n - 1, prio, ip);
        if b > a {
            b
        } else {
            a
        }
    }
}

/// The longest critical section of `t` that can block a task of priority
/// `prio`: the node itself if it blocks, else the largest among its children.
pub open spec fn trace_blocking(t: Trace, prio: u8, ip: Map<Seq<char>, u8>) -> int {
    if blocks(t, prio, ip) {
        dur(t)
    } else {
        children_blocking(t, t.inner@.len() as int, prio, ip)
    }
}

/// The largest blocking contribution to a task of priority `prio` from the
/// tasks of `ts` whose priority is strictly lower.
pub open spec fn set_blocking(ts: Seq<Task>, prio: u8, ip: Map<Seq<char>, u8>) -> int
    decreases ts.len(),
{
    if ts.len() == 0 {
        0
    } else {
        let a = set_blocking(ts.drop_last(), prio, ip);
        let b = if ts.last().prio < prio {
            trace_blocking(ts.last().trace, prio, ip)
        } else {
            0
        };
        if b > a {
            b
        } else {
            a
        }
    }
}

// ---------------------------------------------------------------------------
// Busy period
// ---------------------------------------------------------------------------

/// The preemption, within a busy period of length `l`, by the tasks of `ts`
/// of priority strictly higher than `prio`: each is released once at the
/// start and once more per full inter-arrival time.
pub open spec fn interference(ts: Seq<Task>, prio: u8, l: int) -> int
    decreases ts.len(),
{
    if ts.len() == 0 {
        0
    } else {
        let h = ts.last();
        interference(ts.drop_last(), prio, l) + if h.prio > prio {
            (1 + l / h.inter_arrival as int) * wcet_of(h)
        } else {
            0
        }
    }
}

/// The busy-period iteration started from `l`: the next estimate is the
/// execution time plus blocking plus interference; past the deadline there is
/// no response time; an estimate that does not grow is the response time.
pub open spec fn busy_period_from(t: Task, ts: Seq<Task>, b: int, l: int) -> Option<u32>
    decreases t.deadline - l,
{
    let n = wcet_of(t) + b + interference(ts, t.prio, l);
    if n > t.deadline {
        None
    } else if n <= l {
        Some(n as u32)
    } else {
        busy_period_from(t, ts, b, n)
    }
}

/// The first estimate of the busy period: execution time plus blocking in the
/// exact variant, the deadline in the bounded one.
pub open spec fn initial_estimate(t: Task, b: int, exact: bool) -> int {
    if exact {
        wcet_of(t) + b
    } else {
        t.deadline as int
    }
}

/// The response time of `t` within `ts`, given its blocking.
pub open spec fn response_time_of(t: Task, ts: Seq<Task>, b: int, exact: bool) -> Option<u32> {
    busy_period_from(t, ts, b, initial_estimate(t, b, exact))
}

/// Each task of `ts` that is of higher priority than `prio` has a positive
/// inter-arrival time and a root interval that ends no earlier than it starts.
pub open spec fn higher_valid(ts: Seq<Task>, prio: u8) -> bool {
    forall|j: int|
        0 <= j < ts.len() && #[trigger] ts[j].prio > prio ==> ts[j].inter_arrival > 0
            && ts[j].trace.start <= ts[j].trace.end
}

/// A task set fit for analysis: every trace is well formed, and every task
/// that has a task of lower priority below it has a positive inter-arrival time.
pub open spec fn valid_tasks(ts: Seq<Task>) -> bool {
    &&& forall|i: int| 0 <= i < ts.len() ==> (#[trigger] ts[i]).trace.wf()
    &&& forall|i: int, j: int|
        0 <= i < ts.len() && 0 <= j < ts.len() && #[trigger] ts[i].prio < #[trigger] ts[j].prio
            ==> ts[j].inter_arrival > 0
}

/// What the analysis reports for task `t` of the task set `ts`.
pub open spec fn result_for(r: TaskResult, ts: Seq<Task>, t: Task, exact: bool) -> bool {
    let b = set_blocking(ts, t.prio, ceilings(ts));
    &&& r.task.same(t)
    &&& r.exact == exact
    &&& r.wcet == wcet_of(t)
    &&& r.blocking == b
    &&& r.response_time == response_time_of(t, ts, b, exact)
    &&& r.interference == match r.response_time {
        Some(x) => Some((x - wcet_of(t) - b) as u32),
        None => None,
    }
}

/// The interference is never negative.
pub proof fn lemma_interference_nonneg(ts: Seq<Task>, prio: u8, l: int)
    requires
        l >= 0,
        higher_valid(ts, prio),
    ensures
        interference(ts, prio, l) >= 0,
    decreases ts.len(),
{
    if ts.len() > 0 {
        let h = ts.last();
        assert(ts.drop_last().len() == ts.len() - 1);
        assert(higher_valid(ts.drop_last(), prio)) by {
            assert forall|j: int| 0 <= j < ts.drop_last().len() implies ts.drop_last()[j] == ts[j] by {}
        }
        lemma_interference_nonneg(ts.drop_last(), prio, l);
        if h.prio > prio {
            assert(ts[ts.len() - 1].prio > prio);
            assert(h.inter_arrival > 0);
            assert(l / h.inter_arrival as int >= 0) by (nonlinear_arith)
                requires l >= 0, h.inter_arrival > 0;
            assert((1 + l / h.inter_arrival as int) * wcet_of(h) >= 0) by (nonlinear_arith)
                requires l / h.inter_arrival as int >= 0, wcet_of(h) >= 0;
        }
    }
}

/// A response time found by the busy-period iteration is never below the
/// execution time plus blocking: interference is not negative.
pub proof fn lemma_response_covers_demand(t: Task, ts: Seq<Task>, b: int, l: int)
    requires
        l >= 0,
        higher_valid(ts, t.prio),
    ensures
        busy_period_from(t, ts, b, l) matches Some(r) ==> r >= wcet_of(t) + b,
    decreases t.deadline - l,
{
    lemma_interference_nonneg(ts, t.prio, l);
    let n = wcet_of(t) + b + interference(ts, t.prio, l);
    if n <= t.deadline && n > l {
        lemma_response_covers_demand(t, ts, b, n);
    }
}

// ---------------------------------------------------------------------------
// Executable analysis
// ---------------------------------------------------------------------------

/// Raises the ceiling of every identifier of `trace` to at least `prio`.
pub fn update_prio(prio: u8, trace: &Trace, hm: &mut IdPrio)
    requires
        old(hm).wf(),
    ensures
        final(hm).wf(),
        final(hm)@ == raise_tree(old(hm)@, prio, *trace),
    decreases trace,
{
    match hm.get(&trace.id) {
        Some(old_prio) => {
            if prio > old_prio {
                hm.insert(trace.id.clone(), prio);
            }
        },
        None => {
            hm.insert(trace.id.clone(), prio);
        },
    }
    let ghost m1 = hm@;
    let mut i: usize = 0;
    while i < trace.inner.len()
        invariant
            i <= trace.inner@.len(),
            hm.wf(),
            m1 == raise(old(hm)@, trace.id@, prio),
            hm@ == raise_children(m1, prio, *trace, i as int),
        decreases trace.inner@.len() - i,
    {
        proof {
            assert(decreases_to!(*trace => trace.inner@[i as int]));
        }
        update_prio(prio, &trace.inner[i], hm);
        i = i + 1;
    }
}

impl Trace {
    /// The longest critical section in this tree that can block `t`, under
    /// the ceilings `ip`.
    pub fn blocking(&self, t: &Task, ip: &IdPrio) -> (r: u32)
        requires
            self.wf(),
            ip.wf(),
        ensures
            r == trace_blocking(*self, t.prio, ip@),
        decreases self,
    {
        if let Some(p) = ip.get(&self.id) {
            if p >= t.prio {
                return self.wcet();
            }
        }
        let mut blocking: u32 = 0;
        let mut i: usize = 0;
        while i < self.inner.len()
            invariant
                i <= self.inner@.len(),
                self.wf(),
                ip.wf(),
                !blocks(*self, t.prio, ip@),
                blocking == children_blocking(*self, i as int, t.prio, ip@),
            decreases self.inner@.len() - i,
        {
            proof {
                assert(decreases_to!(*self => self.inner@[i as int]));
                assert(self.inner@[i as int].wf());
            }
            let b = self.inner[i].blocking(t, ip);
            if b > blocking {
                blocking = b;
            }
            i = i + 1;
        }
        blocking
    }
}

impl Task {
    /// The longest critical section in the trace of `self` that can block `t`.
    pub fn blocking(&self, t: &Task, ip: &IdPrio) -> (r: u32)
        requires
            self.trace.wf(),
            ip.wf(),
        ensures
            r == trace_blocking(self.trace, t.prio, ip@),
    {
        self.trace.blocking(t, ip)
    }
}

/// `x`, or `cap` where `x` exceeds it.
pub open spec fn capped(x: int, cap: int) -> int {
    if x > cap {
        cap
    } else {
        x
    }
}

impl Tasks {
    /// The priority ceiling of every identifier used by the task set.
    pub fn pre_analysis(&self) -> (r: IdPrio)
        ensures
            r.wf(),
            r@ == ceilings(self.0@),
    {
        let mut ip = IdPrio::new();
        let mut i: usize = 0;
        while i < self.0.len()
            invariant
                i <= self.0@.len(),
                ip.wf(),
                ip@ == ceilings(self.0@.take(i as int)),
            decreases self.0@.len() - i,
        {
            assert(self.0@.take(i + 1).drop_last() =~= self.0@.take(i as int));
            update_prio(self.0[i].prio, &self.0[i].trace, &mut ip);
            i = i + 1;
        }
        assert(self.0@.take(i as int) =~= self.0@);
        ip
    }

    /// The tasks of priority strictly lower than that of `t`, in order.
    pub fn lower(&self, t: &Task) -> (r: Tasks)
        ensures
            r.0@.len() == self.0@.filter(|x: Task| x.prio < t.prio).len(),
            forall|i: int|
                0 <= i < r.0@.len() ==> (#[trigger] r.0@[i]).same(
                    self.0@.filter(|x: Task| x.prio < t.prio)[i],
                ),
    {
        let ghost pred = |x: Task| x.prio < t.prio;
        let mut v: Vec<Task> = Vec::new();
        let mut i: usize = 0;
        while i < self.0.len()
            invariant
                i <= self.0@.len(),
                pred == (|x: Task| x.prio < t.prio),
                v@.len() == self.0@.take(i as int).filter(pred).len(),
                forall|j: int|
                    0 <= j < v@.len() ==> (#[trigger] v@[j]).same(
                        self.0@.take(i as int).filter(pred)[j],
                    ),
            decreases self.0@.len() - i,
        {
            proof {
                reveal(Seq::filter);
                assert(self.0@.take(i + 1).drop_last() =~= self.0@.take(i as int));
            }
            if self.0[i].prio < t.prio {
                v.push(self.0[i].clone());
            }
            i = i + 1;
        }
        assert(self.0@.take(i as int) =~= self.0@);
        Tasks(v)
    }

    /// The tasks of priority strictly higher than that of `t`, in order.
    pub fn higher(&self, t: &Task) -> (r: Tasks)
        ensures
            r.0@.len() == self.0@.filter(|x: Task| x.prio > t.prio).len(),
            forall|i: int|
                0 <= i < r.0@.len() ==> (#[trigger] r.0@[i]).same(
                    self.0@.filter(|x: Task| x.prio > t.prio)[i],
                ),
    {
        let ghost pred = |x: Task| x.prio > t.prio;
        let mut v: Vec<Task> = Vec::new();
        let mut i: usize = 0;
        while i < self.0.len()
            invariant
                i <= self.0@.len(),
                pred == (|x: Task| x.prio > t.prio),
                v@.len() == self.0@.take(i as int).filter(pred).len(),
                forall|j: int|
                    0 <= j < v@.len() ==> (#[trigger] v@[j]).same(
                        self.0@.take(i as int).filter(pred)[j],
                    ),
            decreases self.0@.len() - i,
        {
            proof {
                reveal(Seq::filter);
                assert(self.0@.take(i + 1).drop_last() =~= self.0@.take(i as int));
            }
            if self.0[i].prio > t.prio {
                v.push(self.0[i].clone());
            }
            i = i + 1;
        }
        assert(self.0@.take(i as int) =~= self.0@);
        Tasks(v)
    }

    /// The blocking suffered by `t`: the longest critical section, among all
    /// tasks of strictly lower priority, whose ceiling reaches the priority of `t`.
    pub fn blocking(&self, t: &Task, ip: &IdPrio) -> (r: u32)
        requires
            forall|i: int| 0 <= i < self.0@.len() ==> (#[trigger] self.0@[i]).trace.wf(),
            ip.wf(),
        ensures
            r == set_blocking(self.0@, t.prio, ip@),
    {
        let mut blocking: u32 = 0;
        let mut i: usize = 0;
        while i < self.0.len()
            invariant
                i <= self.0@.len(),
                forall|j: int| 0 <= j < self.0@.len() ==> (#[trigger] self.0@[j]).trace.wf(),
                ip.wf(),
                blocking == set_blocking(self.0@.take(i as int), t.prio, ip@),
            decreases self.0@.len() - i,
        {
            assert(self.0@.take(i + 1).drop_last() =~= self.0@.take(i as int));
            let t1 = &self.0[i];
            if t1.prio < t.prio {
                let b = t1.blocking(t, ip);
                if b > blocking {
                    blocking = b;
                }
            }
            i = i + 1;
        }
        assert(self.0@.take(i as int) =~= self.0@);
        blocking
    }

    /// One step of the busy-period iteration from the estimate `busy_period`,
    /// repeated until the estimate stops growing or passes the deadline.
    pub fn busy_period_rec(&self, t: &Task, blocking: u32, busy_period: u32) -> (r: Option<u32>)
        requires
            higher_valid(self.0@, t.prio),
            t.trace.start <= t.trace.end,
        ensures
            r == busy_period_from(*t, self.0@, blocking as int, busy_period as int),
        decreases t.deadline - busy_period,
    {
        let cap: u128 = t.deadline as u128 + 1;
        let mut preemption: u128 = 0;
        let mut i: usize = 0;
        while i < self.0.len()
            invariant
                i <= self.0@.len(),
                higher_valid(self.0@, t.prio),
                cap == t.deadline + 1,
                preemption == capped(
                    interference(self.0@.take(i as int), t.prio, busy_period as int),
                    cap as int,
                ),
            decreases self.0@.len() - i,
        {
            assert(self.0@.take(i + 1).drop_last() =~= self.0@.take(i as int));
            let t1 = &self.0[i];
            if t1.prio > t.prio {
                assert(self.0@[i as int].prio > t.prio);
                let nr: u128 = 1 + (busy_period / t1.inter_arrival) as u128;
                let w: u128 = t1.wcet() as u128;
                assert(nr * w <= 0x1_0000_0000u128 * 0xFFFF_FFFFu128) by (nonlinear_arith)
                    requires nr <= 0x1_0000_0000u128, w <= 0xFFFF_FFFFu128, nr >= 0, w >= 0;
                let pre: u128 = nr * w;
                let sum: u128 = preemption + pre;
                preemption = if sum > cap { cap } else { sum };
            }
            i = i + 1;
        }
        assert(self.0@.take(i as int) =~= self.0@);
        let new_busy_period: u128 = t.wcet() as u128 + blocking as u128 + preemption;
        if new_busy_period > t.deadline as u128 {
            None
        } else if new_busy_period <= busy_period as u128 {
            Some(new_busy_period as u32)
        } else {
            self.busy_period_rec(t, blocking, new_busy_period as u32)
        }
    }

    /// The worst-case response time of `t` under interference from the tasks
    /// of higher priority, or `None` when it misses its deadline.
    pub fn busy_period(&self, t: &Task, blocking: u32, exact: bool) -> (r: Option<u32>)
        requires
            higher_valid(self.0@, t.prio),
            t.trace.start <= t.trace.end,
        ensures
            r == response_time_of(*t, self.0@, blocking as int, exact),
    {
        if exact {
            let start: u64 = t.wcet() as u64 + blocking as u64;
            if start > t.deadline as u64 {
                proof {
                    lemma_interference_nonneg(self.0@, t.prio, start as int);
                }
                return None;
            }
            self.busy_period_rec(t, blocking, start as u32)
        } else {
            self.busy_period_rec(t, blocking, t.deadline)
        }
    }

    /// Response-time analysis of every task of the set, in the order of the set.
    pub fn response_time(&self, exact: bool) -> (r: TasksResult)
        requires
            valid_tasks(self.0@),
        ensures
            r.0@.len() == self.0@.len(),
            forall|i: int|
                0 <= i < self.0@.len() ==> result_for(
                    #[trigger] r.0@[i],
                    self.0@,
                    self.0@[i],
                    exact,
                ),
    {
        let ip = self.pre_analysis();
        let mut results: Vec<TaskResult> = Vec::new();
        let mut i: usize = 0;
        while i < self.0.len()
            invariant
                i <= self.0@.len(),
                valid_tasks(self.0@),
                ip.wf(),
                ip@ == ceilings(self.0@),
                results@.len() == i,
                forall|j: int|
                    0 <= j < i ==> result_for(#[trigger] results@[j], self.0@, self.0@[j], exact),
            decreases self.0@.len() - i,
        {
            let t = &self.0[i];
            proof {
                assert(t.trace.wf());
                assert forall|j: int|
                    0 <= j < self.0@.len() && #[trigger] self.0@[j].prio > t.prio implies
                        self.0@[j].inter_arrival > 0 && self.0@[j].trace.start
                        <= self.0@[j].trace.end by {
                    assert(self.0@[i as int].prio < self.0@[j].prio);
                    assert(self.0@[j].trace.wf());
                }
            }
            let blocking = self.blocking(t, &ip);
            let response_time = self.busy_period(t, blocking, exact);
            let wcet = t.wcet();
            proof {
                lemma_response_covers_demand(
                    *t,
                    self.0@,
                    blocking as int,
                    initial_estimate(*t, blocking as int, exact),
                );
            }
            let interference = match response_time {
                Some(rp) => Some(rp - (wcet + blocking)),
                None => None,
            };
            let task_result = TaskResult {
                task: t.clone(),
                exact,
                response_time,
                wcet,
                blocking,
                interference,
            };
            results.push(task_result);
            i = i + 1;
        }
        TasksResult(results)
    }
}

} // verus!
