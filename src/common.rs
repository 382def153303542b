use vstd::prelude::*;

verus! {

/// One interval of a task's execution: the task itself at the root, a held
/// resource at each nested level.
#[derive(Debug, PartialEq, Eq)]
pub struct Trace {
    pub id: String,
    pub start: u32,
    pub end: u32,
    pub inner: Vec<Trace>,
}

/// The length of one interval, without regard to what is nested in it.
pub open spec fn dur(t: Trace) -> int {
    t.end as int - t.start as int
}

impl Trace {
    /// Every interval of the tree ends no earlier than it starts.
    pub open spec fn wf(self) -> bool
        decreases self,
    {
        &&& self.start <= self.end
        &&& forall|i: int| 0 <= i < self.inner@.len() ==> (#[trigger] self.inner@[i]).wf()
    }

    /// The two trees hold the same identifiers and intervals, node for node.
    pub open spec fn same(self, o: Trace) -> bool
        decreases self,
    {
        &&& self.id@ == o.id@
        &&& self.start == o.start
        &&& self.end == o.end
        &&& self.inner@.len() == o.inner@.len()
        &&& forall|i: int|
            0 <= i < self.inner@.len() ==> (#[trigger] self.inner@[i]).same(o.inner@[i])
    }

    /// The execution time of this interval.
    pub fn wcet(&self) -> (r: u32)
        requires
            self.start <= self.end,
        ensures
            r == dur(*self),
    {
        self.end - self.start
    }
}

impl Clone for Trace {
    fn clone(&self) -> (r: Trace)
        ensures
            r.same(*self),
        decreases self,
    {
        let mut inner: Vec<Trace> = Vec::new();
        let mut i: usize = 0;
        while i < self.inner.len()
            invariant
                i <= self.inner@.len(),
                inner@.len() == i,
                forall|j: int| 0 <= j < i ==> (#[trigger] inner@[j]).same(self.inner@[j]),
            decreases self.inner@.len() - i,
        {
            proof {
                assert(decreases_to!(*self => self.inner@[i as int]));
            }
            inner.push(self.inner[i].clone());
            i = i + 1;
        }
        Trace { id: self.id.clone(), start: self.start, end: self.end, inner }
    }
}

impl Default for Trace {
    fn default() -> (r: Trace)
        ensures
            r.id@ == Seq::<char>::empty(),
            r.start == 0,
            r.end == 0,
            r.inner@.len() == 0,
    {
        Trace { id: String::new(), start: 0, end: 0, inner: Vec::new() }
    }
}

/// A periodic task: its priority (higher value, higher precedence), relative
/// deadline, minimum time between releases, and execution profile.
#[derive(Debug, PartialEq, Eq)]
pub struct Task {
    pub id: String,
    pub prio: u8,
    pub deadline: u32,
    pub inter_arrival: u32,
    pub trace: Trace,
}

/// The worst-case execution time of a task: the length of its root interval.
pub open spec fn wcet_of(t: Task) -> int {
    dur(t.trace)
}

impl Task {
    /// The same task, field for field and node for node.
    pub open spec fn same(self, o: Task) -> bool {
        &&& self.id@ == o.id@
        &&& self.prio == o.prio
        &&& self.deadline == o.deadline
        &&& self.inter_arrival == o.inter_arrival
        &&& self.trace.same(o.trace)
    }

    /// The worst-case execution time of the task.
    pub fn wcet(&self) -> (r: u32)
        requires
            self.trace.start <= self.trace.end,
        ensures
            r == wcet_of(*self),
    {
        self.trace.end - self.trace.start
    }
}

impl Clone for Task {
    fn clone(&self) -> (r: Task)
        ensures
            r.same(*self),
    {
        Task {
            id: self.id.clone(),
            prio: self.prio,
            deadline: self.deadline,
            inter_arrival: self.inter_arrival,
            trace: self.trace.clone(),
        }
    }
}

impl Default for Task {
    fn default() -> (r: Task)
        ensures
            r.id@ == Seq::<char>::empty(),
            r.prio == 0,
            r.deadline == 0,
            r.inter_arrival == 0,
            r.trace.id@ == Seq::<char>::empty(),
            r.trace.start == 0,
            r.trace.end == 0,
            r.trace.inner@.len() == 0,
    {
        Task {
            id: String::new(),
            prio: 0,
            deadline: 0,
            inter_arrival: 0,
            trace: Trace::default(),
        }
    }
}

/// A task set, in the order in which it was given.
#[derive(Debug, PartialEq, Eq)]
pub struct Tasks(pub Vec<Task>);

/// What the analysis found for one task.
#[derive(Debug, PartialEq, Eq)]
pub struct TaskResult {
    pub task: Task,
    /// Whether the busy period was started from the execution time plus
    /// blocking (true) or from the deadline (false).
    pub exact: bool,
    /// The worst-case response time; `None` when the deadline is missed.
    pub response_time: Option<u32>,
    pub wcet: u32,
    pub blocking: u32,
    /// Response time less execution time and blocking; `None` exactly when
    /// the response time is.
    pub interference: Option<u32>,
}

/// One result per task, in the order of the task set.
#[derive(Debug, PartialEq, Eq)]
pub struct TasksResult(pub Vec<TaskResult>);

} // verus!
