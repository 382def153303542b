use vstd::prelude::*;

use vstd::arithmetic::div_mod::lemma_div_is_ordered;

use crate::analysis::{
    blocks, busy_period_from, ceilings, children_blocking, higher_valid, initial_estimate,
    interference, lemma_interference_nonneg, lemma_response_covers_demand, raise, result_for,
    response_time_of, set_blocking, valid_tasks,
};
use crate::common::{dur, wcet_of, Task, TaskResult, Trace};

verus! {

/// Interference grows with the length of the busy period.
pub proof fn lemma_interference_grows(ts: Seq<Task>, prio: u8, l1: int, l2: int)
    requires
        0 <= l1 <= l2,
        higher_valid(ts, prio),
    ensures
        interference(ts, prio, l1) <= interference(ts, prio, l2),
    decreases ts.len(),
{
    if ts.len() > 0 {
        let h = ts.last();
        assert(higher_valid(ts.drop_last(), prio)) by {
            assert forall|j: int| 0 <= j < ts.drop_last().len() implies ts.drop_last()[j] == ts[j] by {}
        }
        lemma_interference_grows(ts.drop_last(), prio, l1, l2);
        if h.prio > prio {
            assert(ts[ts.len() - 1].prio > prio);
            let a = h.inter_arrival as int;
            lemma_div_is_ordered(l1, l2, a);
            assert((1 + l1 / a) * wcet_of(h) <= (1 + l2 / a) * wcet_of(h)) by (nonlinear_arith)
                requires l1 / a <= l2 / a, wcet_of(h) >= 0;
        }
    }
}

/// Interference shrinks as the priority of the task that suffers it rises:
/// fewer tasks stand above it.
pub proof fn lemma_interference_shrinks(ts: Seq<Task>, p1: u8, p2: u8, l: int)
    requires
        p1 <= p2,
        l >= 0,
        higher_valid(ts, p1),
    ensures
        interference(ts, p2, l) <= interference(ts, p1, l),
    decreases ts.len(),
{
    if ts.len() > 0 {
        let h = ts.last();
        assert(higher_valid(ts.drop_last(), p1)) by {
            assert forall|j: int| 0 <= j < ts.drop_last().len() implies ts.drop_last()[j] == ts[j] by {}
        }
        lemma_interference_shrinks(ts.drop_last(), p1, p2, l);
        if h.prio > p1 {
            assert(ts[ts.len() - 1].prio > p1);
            let a = h.inter_arrival as int;
            assert(l / a >= 0) by (nonlinear_arith)
                requires l >= 0, a > 0;
            assert((1 + l / a) * wcet_of(h) >= 0) by (nonlinear_arith)
                requires l / a >= 0, wcet_of(h) >= 0;
        }
    }
}

/// Started from an estimate that the recurrence does not lower, the iteration
/// ends, when it finds a response time, on a fixed point of the recurrence.
proof fn lemma_result_is_fixed_point(t: Task, ts: Seq<Task>, b: int, l: int)
    requires
        l >= 0,
        higher_valid(ts, t.prio),
        l <= wcet_of(t) + b + interference(ts, t.prio, l),
    ensures
        busy_period_from(t, ts, b, l) matches Some(r) ==> r <= t.deadline && r == wcet_of(t) + b
            + interference(ts, t.prio, r as int),
    decreases t.deadline - l,
{
    let n = wcet_of(t) + b + interference(ts, t.prio, l);
    if n <= t.deadline {
        if n <= l {
            assert(n == l);
        } else {
            lemma_interference_grows(ts, t.prio, l, n);
            lemma_result_is_fixed_point(t, ts, b, n);
        }
    }
}

/// Started below a point `f` that the recurrence does not raise, with `f`
/// within the deadline, the iteration finds a response time no larger than `f`.
proof fn lemma_bounded_by_fixed_point(t: Task, ts: Seq<Task>, b: int, l: int, f: int)
    requires
        0 <= l <= f <= t.deadline,
        higher_valid(ts, t.prio),
        l <= wcet_of(t) + b + interference(ts, t.prio, l),
        wcet_of(t) + b + interference(ts, t.prio, f) <= f,
    ensures
        busy_period_from(t, ts, b, l) matches Some(r) && r <= f,
    decreases t.deadline - l,
{
    lemma_interference_grows(ts, t.prio, l, f);
    let n = wcet_of(t) + b + interference(ts, t.prio, l);
    if n > l {
        lemma_interference_grows(ts, t.prio, l, n);
        lemma_bounded_by_fixed_point(t, ts, b, n, f);
    }
}

/// Raising the priority of a task, with its execution profile, deadline,
/// blocking and the other tasks left as they are, never raises the
/// interference it suffers over any busy period, never turns a response time
/// into a deadline miss, and never raises its response time.
pub proof fn law_raised_priority(t1: Task, t2: Task, ts: Seq<Task>, b: int, exact: bool)
    requires
        t1.prio <= t2.prio,
        wcet_of(t1) == wcet_of(t2),
        t1.deadline == t2.deadline,
        t1.trace.start <= t1.trace.end,
        b >= 0,
        higher_valid(ts, t1.prio),
    ensures
        forall|l: int|
            l >= 0 ==> #[trigger] interference(ts, t2.prio, l) <= interference(ts, t1.prio, l),
        response_time_of(t1, ts, b, exact) matches Some(r1) ==> (response_time_of(
            t2,
            ts,
            b,
            exact,
        ) matches Some(r2) && r2 <= r1),
{
    assert forall|l: int| l >= 0 implies #[trigger] interference(ts, t2.prio, l) <= interference(
        ts,
        t1.prio,
        l,
    ) by {
        lemma_interference_shrinks(ts, t1.prio, t2.prio, l);
    }
    assert(higher_valid(ts, t2.prio));
    let l0 = initial_estimate(t1, b, exact);
    assert(l0 == initial_estimate(t2, b, exact));
    if let Some(r1) = response_time_of(t1, ts, b, exact) {
        lemma_interference_nonneg(ts, t1.prio, l0);
        lemma_interference_nonneg(ts, t2.prio, l0);
        if exact {
            lemma_result_is_fixed_point(t1, ts, b, l0);
            lemma_response_covers_demand(t1, ts, b, l0);
            lemma_bounded_by_fixed_point(t2, ts, b, l0, r1 as int);
        } else {
            lemma_interference_shrinks(ts, t1.prio, t2.prio, l0);
        }
    }
}

/// Wherever the analysis finds a response time, it is at least the execution
/// time plus the blocking, and the interference it reports is the difference.
pub proof fn law_response_covers_demand(ts: Seq<Task>, i: int, exact: bool, r: TaskResult)
    requires
        valid_tasks(ts),
        0 <= i < ts.len(),
        result_for(r, ts, ts[i], exact),
    ensures
        r.response_time matches Some(x) ==> x >= r.wcet + r.blocking && r.interference == Some(
            (x - r.wcet - r.blocking) as u32,
        ),
{
    let t = ts[i];
    assert(higher_valid(ts, t.prio)) by {
        assert forall|j: int| 0 <= j < ts.len() && #[trigger] ts[j].prio > t.prio implies ts[j].inter_arrival
            > 0 && ts[j].trace.start <= ts[j].trace.end by {
            assert(ts[i].prio < ts[j].prio);
            assert(ts[j].trace.wf());
        }
    }
    assert(t.trace.wf());
    lemma_response_covers_demand(t, ts, r.blocking as int, initial_estimate(t, r.blocking as int, exact));
}

/// The longest interval nested, at any depth, under the first `n` children of
/// `t`, those children included.
pub open spec fn nested_longest(t: Trace, n: int) -> int
    decreases t, n,
{
    if n <= 0 || n > t.inner@.len() {
        0
    } else {
        let c = t.inner@[n - 1];
        let d = nested_longest(c, c.inner@.len() as int);
        let b = if dur(c) > d {
            dur(c)
        } else {
            d
        };
        let a = nested_longest(t, n - 1);
        if b > a {
            b
        } else {
            a
        }
    }
}

/// The longest critical section of a task's trace: the longest interval
/// nested under its root.
pub open spec fn longest_section(t: Trace) -> int {
    nested_longest(t, t.inner@.len() as int)
}

/// The longest critical section among the tasks of `ts` of priority strictly
/// lower than `p`.
pub open spec fn lower_longest_section(ts: Seq<Task>, p: u8) -> int
    decreases ts.len(),
{
    if ts.len() == 0 {
        0
    } else {
        let a = lower_longest_section(ts.drop_last(), p);
        let b = if ts.last().prio < p {
            longest_section(ts.last().trace)
        } else {
            0
        };
        if b > a {
            b
        } else {
            a
        }
    }
}

proof fn lemma_children_blocking_bounded(t: Trace, n: int, p: u8, ip: Map<Seq<char>, u8>)
    ensures
        children_blocking(t, n, p, ip) <= nested_longest(t, n),
    decreases t, n,
{
    if 0 < n <= t.inner@.len() {
        let c = t.inner@[n - 1];
        assert(decreases_to!(t => c));
        lemma_children_blocking_bounded(c, c.inner@.len() as int, p, ip);
        lemma_children_blocking_bounded(t, n - 1, p, ip);
    }
}

/// The blocking that lower-priority tasks cause never exceeds the longest
/// critical section among them, wherever no lower-priority task can block
/// through its own identifier (its root interval, which is no critical section).
pub proof fn law_blocking_within_longest_section(ts: Seq<Task>, p: u8, ip: Map<Seq<char>, u8>)
    requires
        forall|i: int| 0 <= i < ts.len() && #[trigger] ts[i].prio < p ==> !blocks(ts[i].trace, p, ip),
    ensures
        set_blocking(ts, p, ip) <= lower_longest_section(ts, p),
    decreases ts.len(),
{
    if ts.len() > 0 {
        let s = ts.drop_last();
        assert forall|i: int| 0 <= i < s.len() && #[trigger] s[i].prio < p implies !blocks(
            s[i].trace,
            p,
            ip,
        ) by {
            assert(s[i] == ts[i]);
        }
        law_blocking_within_longest_section(s, p, ip);
        let t = ts.last().trace;
        assert(ts.last() == ts[ts.len() - 1]);
        lemma_children_blocking_bounded(t, t.inner@.len() as int, p, ip);
    }
}

/// The number of estimates the busy-period iteration computes when started
/// from `l`.
pub open spec fn busy_period_steps(t: Task, ts: Seq<Task>, b: int, l: int) -> int
    decreases t.deadline - l,
{
    let n = wcet_of(t) + b + interference(ts, t.prio, l);
    if n > t.deadline || n <= l {
        1
    } else {
        1 + busy_period_steps(t, ts, b, n)
    }
}

/// The busy-period iteration ends: each estimate but the last grows and stays
/// within the deadline, so it computes at most one estimate more than the
/// distance from the first estimate to the deadline.
pub proof fn law_busy_period_steps(t: Task, ts: Seq<Task>, b: int, l: int)
    ensures
        1 <= busy_period_steps(t, ts, b, l),
        l <= t.deadline ==> busy_period_steps(t, ts, b, l) <= t.deadline - l + 1,
        l > t.deadline ==> busy_period_steps(t, ts, b, l) == 1,
    decreases t.deadline - l,
{
    let n = wcet_of(t) + b + interference(ts, t.prio, l);
    if !(n > t.deadline || n <= l) {
        law_busy_period_steps(t, ts, b, n);
    }
}

/// Two trees that have the same shape and contents as a third have the same
/// shape and contents as each other.
pub proof fn lemma_same_as_same(a: Trace, b: Trace, c: Trace)
    requires
        a.same(c),
        b.same(c),
    ensures
        a.same(b),
    decreases a,
{
    assert forall|i: int| 0 <= i < a.inner@.len() implies (#[trigger] a.inner@[i]).same(
        b.inner@[i],
    ) by {
        assert(decreases_to!(a => a.inner@[i]));
        lemma_same_as_same(a.inner@[i], b.inner@[i], c.inner@[i]);
    }
}

/// The analysis of a task set is a function of the task set and the variant:
/// any two results that it may give agree on every task, field for field.
pub proof fn law_analysis_deterministic(
    ts: Seq<Task>,
    exact: bool,
    r1: Seq<TaskResult>,
    r2: Seq<TaskResult>,
)
    requires
        r1.len() == ts.len(),
        r2.len() == ts.len(),
        forall|i: int| 0 <= i < ts.len() ==> result_for(#[trigger] r1[i], ts, ts[i], exact),
        forall|i: int| 0 <= i < ts.len() ==> result_for(#[trigger] r2[i], ts, ts[i], exact),
    ensures
        forall|i: int|
            0 <= i < ts.len() ==> {
                &&& (#[trigger] r1[i]).task.same(r2[i].task)
                &&& r1[i].exact == r2[i].exact
                &&& r1[i].response_time == r2[i].response_time
                &&& r1[i].wcet == r2[i].wcet
                &&& r1[i].blocking == r2[i].blocking
                &&& r1[i].interference == r2[i].interference
            },
{
    assert forall|i: int| 0 <= i < ts.len() implies (#[trigger] r1[i]).task.same(r2[i].task) by {
        assert(result_for(r1[i], ts, ts[i], exact));
        assert(result_for(r2[i], ts, ts[i], exact));
        lemma_same_as_same(r1[i].task.trace, r2[i].task.trace, ts[i].trace);
    }
}

/// In a task set of tasks without critical sections, each under an
/// identifier of its own, the ceiling of each task's identifier is its own
/// priority, and no other identifier has one.
proof fn lemma_flat_ceilings(ts: Seq<Task>)
    requires
        forall|i: int| 0 <= i < ts.len() ==> (#[trigger] ts[i]).trace.inner@.len() == 0,
        forall|i: int, j: int|
            0 <= i < ts.len() && 0 <= j < ts.len() && i != j ==> #[trigger] ts[i].trace.id@
                != #[trigger] ts[j].trace.id@,
    ensures
        forall|k: Seq<char>|
            #[trigger] ceilings(ts).contains_key(k) ==> exists|j: int|
                0 <= j < ts.len() && ts[j].trace.id@ == k,
        forall|j: int|
            0 <= j < ts.len() ==> ceilings(ts).contains_key(#[trigger] ts[j].trace.id@)
                && ceilings(ts)[ts[j].trace.id@] == ts[j].prio,
    decreases ts.len(),
{
    if ts.len() > 0 {
        let s = ts.drop_last();
        let n = ts.len() - 1;
        assert forall|i: int, j: int|
            0 <= i < s.len() && 0 <= j < s.len() && i != j implies #[trigger] s[i].trace.id@
                != #[trigger] s[j].trace.id@ by {
            assert(s[i] == ts[i] && s[j] == ts[j]);
        }
        assert forall|i: int| 0 <= i < s.len() implies (#[trigger] s[i]).trace.inner@.len() == 0 by {
            assert(s[i] == ts[i]);
        }
        lemma_flat_ceilings(s);
        let m = ceilings(s);
        let last = ts[n];
        assert(ceilings(ts) == raise(m, last.trace.id@, last.prio));
        assert(!m.contains_key(last.trace.id@)) by {
            if m.contains_key(last.trace.id@) {
                let j = choose|j: int| 0 <= j < s.len() && s[j].trace.id@ == last.trace.id@;
                assert(ts[j].trace.id@ == ts[n].trace.id@);
            }
        }
        assert forall|k: Seq<char>| #[trigger] ceilings(ts).contains_key(k) implies exists|j: int|
            0 <= j < ts.len() && ts[j].trace.id@ == k by {
            if k != last.trace.id@ {
                let j = choose|j: int| 0 <= j < s.len() && s[j].trace.id@ == k;
                assert(ts[j] == s[j]);
            } else {
                assert(ts[n].trace.id@ == k);
            }
        }
        assert forall|j: int| 0 <= j < ts.len() implies ceilings(ts).contains_key(
            #[trigger] ts[j].trace.id@,
        ) && ceilings(ts)[ts[j].trace.id@] == ts[j].prio by {
            if j < n {
                assert(ts[j] == s[j]);
                assert(ts[j].trace.id@ != ts[n].trace.id@);
            }
        }
    }
}

/// No task of `ts` below priority `p` can block at its root, nor has critical
/// sections: then there is no blocking.
proof fn lemma_no_sections_no_blocking(ts: Seq<Task>, p: u8, ip: Map<Seq<char>, u8>)
    requires
        forall|i: int|
            0 <= i < ts.len() && #[trigger] ts[i].prio < p ==> !blocks(ts[i].trace, p, ip)
                && ts[i].trace.inner@.len() == 0,
    ensures
        set_blocking(ts, p, ip) == 0,
    decreases ts.len(),
{
    if ts.len() > 0 {
        let s = ts.drop_last();
        assert forall|i: int| 0 <= i < s.len() && #[trigger] s[i].prio < p implies !blocks(
            s[i].trace,
            p,
            ip,
        ) && s[i].trace.inner@.len() == 0 by {
            assert(s[i] == ts[i]);
        }
        lemma_no_sections_no_blocking(s, p, ip);
        assert(ts.last() == ts[ts.len() - 1]);
    }
}

/// A task set in which no task holds a resource, and each task runs under an
/// identifier of its own, blocks none of its tasks.
pub proof fn law_no_sections_no_blocking(ts: Seq<Task>)
    requires
        forall|i: int| 0 <= i < ts.len() ==> (#[trigger] ts[i]).trace.inner@.len() == 0,
        forall|i: int, j: int|
            0 <= i < ts.len() && 0 <= j < ts.len() && i != j ==> #[trigger] ts[i].trace.id@
                != #[trigger] ts[j].trace.id@,
    ensures
        forall|i: int| 0 <= i < ts.len() ==> set_blocking(ts, (#[trigger] ts[i]).prio, ceilings(ts)) == 0,
{
    lemma_flat_ceilings(ts);
    assert forall|i: int| 0 <= i < ts.len() implies set_blocking(ts, (#[trigger] ts[i]).prio, ceilings(ts))
        == 0 by {
        let p = ts[i].prio;
        assert forall|j: int| 0 <= j < ts.len() && #[trigger] ts[j].prio < p implies !blocks(
            ts[j].trace,
            p,
            ceilings(ts),
        ) && ts[j].trace.inner@.len() == 0 by {
            assert(ceilings(ts)[ts[j].trace.id@] == ts[j].prio);
        }
        lemma_no_sections_no_blocking(ts, p, ceilings(ts));
    }
}

} // verus!
