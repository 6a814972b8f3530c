//! The backpressure queue: a priority queue of tasks that refuses new tasks
//! once it holds as many as its capacity, and hands out the task of highest
//! priority first.

use vstd::prelude::*;
use vstd::string::StringExecFns;
use priority_queue::PriorityQueue;

verus! {

/// How urgent a task is.
#[derive(Debug, PartialEq, Eq, PartialOrd, Ord, Clone, Copy, Hash, Structural)]
pub enum Priority {
    /// Logging, formatting.
    Low,
    /// Standard tasks.
    Medium,
    /// Reasoning, the boss agent.
    High,
}

impl Priority {
    /// The numeric level of a priority: 0, 1 or 2, higher is more urgent.
    pub open spec fn spec_level(self) -> u8 {
        match self {
            Priority::Low => 0,
            Priority::Medium => 1,
            Priority::High => 2,
        }
    }

    /// The numeric level of this priority.
    #[verifier::when_used_as_spec(spec_level)]
    pub fn level(self) -> (l: u8)
        ensures
            l == self.spec_level(),
    {
        match self {
            Priority::Low => 0,
            Priority::Medium => 1,
            Priority::High => 2,
        }
    }

    /// The priority with the given numeric level, if there is one.
    pub fn from_level(level: u8) -> (r: Option<Priority>)
        ensures
            r is Some <==> level <= 2,
            r matches Some(p) ==> p.level() == level,
    {
        match level {
            0 => Some(Priority::Low),
            1 => Some(Priority::Medium),
            2 => Some(Priority::High),
            _ => None,
        }
    }
}

/// The levels order the priorities: low is 0, medium 1, high 2.
pub proof fn lemma_priority_levels()
    ensures
        Priority::Low.spec_level() == 0,
        Priority::Medium.spec_level() == 1,
        Priority::High.spec_level() == 2,
{
}

/// A unit of work for an agent. Two tasks are the same task when all their
/// fields agree.
#[derive(Debug, Clone, Hash, PartialEq, Eq)]
pub struct Task {
    /// The task's UUID, as its 128-bit value.
    pub id: u128,
    pub name: String,
    pub priority: Priority,
    pub payload: String,
}

/// A task as a mathematical value.
pub struct TaskView {
    pub id: u128,
    pub name: Seq<char>,
    pub priority: Priority,
    pub payload: Seq<char>,
}

impl View for Task {
    type V = TaskView;

    open spec fn view(&self) -> TaskView {
        TaskView { id: self.id, name: self.name@, priority: self.priority, payload: self.payload@ }
    }
}

/// `priority_queue::PriorityQueue`, a heap of items each with a priority,
/// where an item occurs at most once.
#[verifier::external_type_specification]
#[verifier::external_body]
#[verifier::reject_recursive_types(I)]
#[verifier::reject_recursive_types(P)]
#[verifier::reject_recursive_types(H)]
pub struct ExPriorityQueue<I, P, H>(PriorityQueue<I, P, H>);

/// What a queue of tasks holds: each task it contains, with its priority.
pub uninterp spec fn queued(q: PriorityQueue<Task, u8>) -> Map<TaskView, u8>;

/// `PriorityQueue::new`: an empty queue.
#[verifier::external_body]
fn new_task_heap() -> (r: PriorityQueue<Task, u8>)
    ensures
        queued(r).is_empty(),
        queued(r).dom().finite(),
{
    PriorityQueue::new()
}

/// `PriorityQueue::len`: the number of items in the queue.
#[verifier::external_body]
fn task_heap_len(q: &PriorityQueue<Task, u8>) -> (r: usize)
    ensures
        r == queued(*q).len(),
{
    q.len()
}

/// `PriorityQueue::push`: puts `task` into the queue with `priority`. Where
/// an equal task (all fields equal, as `Task`'s `Eq` compares) is already in
/// the queue, only its priority is set; otherwise the task is added.
#[verifier::external_body]
fn task_heap_push(q: &mut PriorityQueue<Task, u8>, task: Task, priority: u8)
    ensures
        queued(*final(q)) == queued(*old(q)).insert(task@, priority),
{
    q.push(task, priority);
}

/// `PriorityQueue::pop`: takes out an item of greatest priority with its
/// priority, or gives `None` when the queue is empty. Which of several items
/// of equal priority leaves is not stated: the heap does not say.
#[verifier::external_body]
fn task_heap_pop(q: &mut PriorityQueue<Task, u8>) -> (r: Option<(Task, u8)>)
    ensures
        match r {
            Some((t, p)) => {
                &&& queued(*old(q)).contains_key(t@)
                &&& queued(*old(q))[t@] == p
                &&& forall|u: TaskView| #[trigger]
                    queued(*old(q)).contains_key(u) ==> queued(*old(q))[u] <= p
                &&& queued(*final(q)) == queued(*old(q)).remove(t@)
            },
            None => {
                &&& queued(*old(q)).is_empty()
                &&& queued(*final(q)) == queued(*old(q))
            },
        },
{
    q.pop()
}

/// The message of a refused push.
pub open spec fn full_message() -> Seq<char> {
    "Queue at capacity"@
}

/// The outcome of pushing `task` onto a queue that held `before` and has
/// room for `capacity` tasks: refused (`ok` false, nothing changes) exactly
/// when the queue is full, and otherwise the task is in the queue.
pub open spec fn pushed(
    before: Set<TaskView>,
    capacity: int,
    task: TaskView,
    after: Set<TaskView>,
    ok: bool,
) -> bool {
    &&& ok <==> before.len() < capacity
    &&& ok ==> after == before.insert(task)
    &&& !ok ==> after == before
}

/// A push is refused exactly when the queue already holds as many tasks as
/// its capacity: below the capacity it succeeds and the task is then queued;
/// at or above it the queue is left as it was.
pub proof fn lemma_push_refused_only_at_capacity(
    before: Set<TaskView>,
    capacity: int,
    task: TaskView,
    after: Set<TaskView>,
    ok: bool,
)
    requires
        pushed(before, capacity, task, after, ok),
    ensures
        before.len() < capacity ==> ok && after.contains(task) && after == before.insert(task),
        before.len() >= capacity ==> !ok && after == before,
{
}

/// The outcome of popping from a queue that held `before`: `None` exactly
/// when it was empty; otherwise a task of the highest priority present,
/// which leaves the queue.
pub open spec fn popped(before: Set<TaskView>, after: Set<TaskView>, r: Option<TaskView>) -> bool {
    match r {
        Some(t) => {
            &&& before.contains(t)
            &&& forall|u: TaskView| #[trigger]
                before.contains(u) ==> u.priority.spec_level() <= t.priority.spec_level()
            &&& after == before.remove(t)
        },
        None => before.is_empty() && after == before,
    }
}

/// A priority queue of tasks with a fixed capacity.
pub struct BackpressureQueue {
    queue: PriorityQueue<Task, u8>,
    capacity: usize,
}

impl BackpressureQueue {
    /// The tasks in the queue.
    pub closed spec fn tasks(&self) -> Set<TaskView> {
        queued(self.queue).dom()
    }

    /// How many tasks the queue takes.
    pub closed spec fn capacity(&self) -> usize {
        self.capacity
    }

    /// Each task is queued under its own priority's level, and the queue
    /// holds at most `capacity` tasks.
    pub closed spec fn wf(&self) -> bool {
        &&& queued(self.queue).dom().finite()
        &&& forall|t: TaskView| #[trigger]
            queued(self.queue).contains_key(t) ==> queued(self.queue)[t]
                == t.priority.spec_level()
        &&& queued(self.queue).len() <= self.capacity
    }

    /// An empty queue that takes up to `capacity` tasks.
    pub fn new(capacity: usize) -> (q: Self)
        ensures
            q.wf(),
            q.tasks() == Set::<TaskView>::empty(),
            q.capacity() == capacity,
    {
        let q = BackpressureQueue { queue: new_task_heap(), capacity };
        assert(q.tasks() =~= Set::<TaskView>::empty());
        q
    }

    /// The number of tasks in the queue.
    pub fn len(&self) -> (n: usize)
        requires
            self.wf(),
        ensures
            n == self.tasks().len(),
    {
        task_heap_len(&self.queue)
    }

    /// Puts `task` into the queue, or refuses it when the queue is full.
    pub fn push(&mut self, task: Task) -> (r: Result<(), String>)
        requires
            old(self).wf(),
        ensures
            final(self).wf(),
            final(self).capacity() == old(self).capacity(),
            pushed(old(self).tasks(), old(self).capacity() as int, task@, final(self).tasks(), r is Ok),
            r matches Err(e) ==> e@ == full_message(),
            r matches Err(e) ==> e@ == "Queue at capacity"@,
            (r is Ok) <==> old(self).tasks().len() < old(self).capacity(),
            r is Ok ==> final(self).tasks() == old(self).tasks().insert(task@),
            r is Err ==> final(self).tasks() == old(self).tasks(),
    {
        if task_heap_len(&self.queue) >= self.capacity {
            return Err(String::from_str("Queue at capacity"));
        }
        let level = task.priority.level();
        let ghost before = queued(self.queue);
        let ghost t = task@;
        task_heap_push(&mut self.queue, task, level);
        proof {
            let after = queued(self.queue);
            assert(after.dom() =~= before.dom().insert(t));
            assert(after.dom().len() <= before.dom().len() + 1);
        }
        Ok(())
    }

    /// Takes out a task of the highest priority present, or gives `None`
    /// when the queue is empty.
    pub fn pop(&mut self) -> (r: Option<Task>)
        requires
            old(self).wf(),
        ensures
            final(self).wf(),
            final(self).capacity() == old(self).capacity(),
            popped(
                old(self).tasks(),
                final(self).tasks(),
                match r {
                    Some(t) => Some(t@),
                    None => None,
                },
            ),
            r is None <==> old(self).tasks().is_empty(),
            r is None ==> final(self).tasks() == old(self).tasks(),
            r matches Some(t) ==> old(self).tasks().contains(t@) && final(self).tasks() == old(self).tasks().remove(t@),
            r matches Some(t) ==> forall|u: TaskView| #[trigger] old(self).tasks().contains(u)
                && u.priority == Priority::High ==> t.priority == Priority::High,
            r matches Some(t) ==> forall|u: TaskView| #[trigger] old(self).tasks().contains(u)
                && u.priority == Priority::Medium ==> t.priority != Priority::Low,
    {
        proof {
            lemma_priority_levels();
        }
        let ghost before = queued(self.queue);
        match task_heap_pop(&mut self.queue) {
            Some((t, p)) => {
                proof {
                    let after = queued(self.queue);
                    assert(after.dom() =~= before.dom().remove(t@));
                    assert forall|u: TaskView| #[trigger]
                        before.dom().contains(u) implies u.priority.spec_level()
                        <= t@.priority.spec_level() by {
                        assert(before.contains_key(u));
                    }
                }
                Some(t)
            },
            None => {
                assert(before.dom() =~= Set::<TaskView>::empty());
                None
            },
        }
    }
}

/// The queue never holds more tasks than its capacity.
pub proof fn lemma_never_over_capacity(q: BackpressureQueue)
    requires
        q.wf(),
    ensures
        q.tasks().len() <= q.capacity(),
{
}

/// A task pushed onto an empty queue of positive capacity is the task that
/// the next pop hands back, and the queue is empty again after it.
pub proof fn lemma_push_then_pop(
    capacity: int,
    task: TaskView,
    after_push: Set<TaskView>,
    ok: bool,
    after_pop: Set<TaskView>,
    r: Option<TaskView>,
)
    requires
        capacity > 0,
        pushed(Set::empty(), capacity, task, after_push, ok),
        popped(after_push, after_pop, r),
    ensures
        ok,
        r == Some(task),
        after_pop == Set::<TaskView>::empty(),
{
    assert(after_push.contains(task));
    match r {
        Some(t) => {
            assert(after_push =~= set![task]);
            assert(after_pop =~= Set::<TaskView>::empty());
        },
        None => {},
    }
}

/// Of two tasks of different priority in the queue, the more urgent one
/// leaves first.
pub proof fn lemma_higher_priority_first(
    before: Set<TaskView>,
    after: Set<TaskView>,
    high: TaskView,
    low: TaskView,
    r: Option<TaskView>,
)
    requires
        before.contains(high),
        before.contains(low),
        high.priority.spec_level() > low.priority.spec_level(),
        popped(before, after, r),
    ensures
        r is Some,
        r != Some(low),
{
    if r is Some {
        let t = r->0;
        assert(before.contains(high));
    }
}

proof fn lemma_drain_shrinks(sets: Seq<Set<TaskView>>, out: Seq<TaskView>, i: int, j: int)
    requires
        sets.len() == out.len() + 1,
        forall|k: int| 0 <= k < out.len() ==> popped(#[trigger] sets[k], sets[k + 1], Some(out[k])),
        0 <= i <= j < sets.len(),
    ensures
        sets[j].subset_of(sets[i]),
    decreases j - i,
{
    if i < j {
        lemma_drain_shrinks(sets, out, i + 1, j);
        assert(popped(sets[i], sets[i + 1], Some(out[i])));
    }
}

/// Popping a queue until it is empty hands out each of its tasks exactly
/// once, in order of priority, most urgent first.
pub proof fn lemma_drain_sorted(sets: Seq<Set<TaskView>>, out: Seq<TaskView>)
    requires
        sets.len() == out.len() + 1,
        sets[0].finite(),
        forall|k: int| 0 <= k < out.len() ==> popped(#[trigger] sets[k], sets[k + 1], Some(out[k])),
        popped(sets[out.len() as int], sets[out.len() as int], None),
    ensures
        forall|i: int, j: int|
            0 <= i <= j < out.len() ==> (#[trigger] out[i]).priority.spec_level()
                >= (#[trigger] out[j]).priority.spec_level(),
        out.no_duplicates(),
        out.to_set() == sets[0],
        out.len() == sets[0].len(),
{
    let n = out.len() as int;
    assert forall|i: int, j: int|
        0 <= i <= j < out.len() implies (#[trigger] out[i]).priority.spec_level()
        >= (#[trigger] out[j]).priority.spec_level() by {
        lemma_drain_shrinks(sets, out, i, j);
        assert(popped(sets[i], sets[i + 1], Some(out[i])));
        assert(popped(sets[j], sets[j + 1], Some(out[j])));
        assert(sets[i].contains(out[j]));
    }
    assert forall|i: int, j: int| 0 <= i < out.len() && 0 <= j < out.len() && i != j implies out[i]
        != out[j] by {
        let (a, b) = if i < j { (i, j) } else { (j, i) };
        lemma_drain_shrinks(sets, out, a + 1, b);
        assert(popped(sets[a], sets[a + 1], Some(out[a])));
        assert(popped(sets[b], sets[b + 1], Some(out[b])));
        assert(!sets[a + 1].contains(out[a]));
    }
    assert(out.to_set() =~= sets[0]) by {
        assert forall|t: TaskView| out.to_set().contains(t) implies sets[0].contains(t) by {
            let k = choose|k: int| 0 <= k < out.len() && out[k] == t;
            lemma_drain_shrinks(sets, out, 0, k);
            assert(popped(sets[k], sets[k + 1], Some(out[k])));
        }
        assert forall|t: TaskView| sets[0].contains(t) implies out.to_set().contains(t) by {
            lemma_drain_keeps_unpopped(sets, out, t, n);
            assert(popped(sets[n], sets[n], None));
        }
    }
    out.unique_seq_to_set();
}

proof fn lemma_drain_keeps_unpopped(sets: Seq<Set<TaskView>>, out: Seq<TaskView>, t: TaskView, k: int)
    requires
        sets.len() == out.len() + 1,
        forall|m: int| 0 <= m < out.len() ==> popped(#[trigger] sets[m], sets[m + 1], Some(out[m])),
        0 <= k <= out.len(),
        sets[0].contains(t),
    ensures
        sets[k].contains(t) || exists|m: int| 0 <= m < k && out[m] == t,
    decreases k,
{
    if k > 0 {
        lemma_drain_keeps_unpopped(sets, out, t, k - 1);
        assert(popped(sets[k - 1], sets[k], Some(out[k - 1])));
        if !sets[k].contains(t) && sets[k - 1].contains(t) {
            assert(out[k - 1] == t);
        }
    }
}

} // verus!
