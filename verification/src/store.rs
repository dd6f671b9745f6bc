//! The task store: an in-memory ordered collection of tasks that owns
//! id allocation and offers the create/read/update/delete and query
//! operations, together with the aggregate statistics.
//!
//! Well-formedness of a store (`TaskStore::wf`) says: all ids are
//! pairwise distinct, every id lies strictly below the next id to
//! assign, and `completed_at` is set exactly on completed tasks.
//! Every operation preserves it; ids of deleted tasks are never
//! reused within the lifetime of a store.

use vstd::prelude::*;
use vstd::pervasive::VecAdditionalExecFns;
use crate::model::{Task, TaskView, Priority, tasks_view, opt_view, group_tasks_view, clone_opt_string};
use crate::casefold::{lower_of, to_lower};
use crate::timefmt::now_stamp;

verus! {

broadcast use group_tasks_view;

/// The error of an operation that referenced an id absent from the
/// collection. Nothing changes in that case, and nothing is persisted.
#[derive(Clone, Copy, PartialEq, Eq, Structural, Debug)]
pub enum StoreError {
    NotFound,
}

/// Aggregate counts over the current collection snapshot.
#[derive(Clone, Copy, PartialEq, Eq, Structural, Debug)]
pub struct Stats {
    pub total: usize,
    pub completed: usize,
    pub pending: usize,
    pub high_priority_pending: usize,
}

pub open spec fn distinct_ids(s: Seq<TaskView>) -> bool {
    forall|i: int, j: int| 0 <= i < j < s.len() ==> s[i].id != s[j].id
}

pub open spec fn contains_id(s: Seq<TaskView>, id: nat) -> bool {
    exists|i: int| 0 <= i < s.len() && s[i].id == id
}

/// The index of the task with the given id; under `distinct_ids` it is
/// the one and only such index.
pub open spec fn idx_of(s: Seq<TaskView>, id: nat) -> int {
    choose|i: int| 0 <= i < s.len() && s[i].id == id
}

/// `completed_at` is set exactly on completed tasks.
pub open spec fn task_consistent(t: TaskView) -> bool {
    t.completed_at is Some <==> t.completed
}

pub open spec fn wf_seq(s: Seq<TaskView>) -> bool {
    &&& distinct_ids(s)
    &&& forall|i: int| 0 <= i < s.len() ==> task_consistent(#[trigger] s[i])
}

pub open spec fn max_id(s: Seq<TaskView>) -> nat
    decreases s.len(),
{
    if s.len() == 0 {
        0
    } else {
        let m = max_id(s.drop_last());
        if s.last().id >= m {
            s.last().id
        } else {
            m
        }
    }
}

/// The task that `create` appends: fresh id, not completed, stamped once.
pub open spec fn new_task_view(
    id: nat,
    description: Seq<char>,
    category: Seq<char>,
    priority: Priority,
    due_date: Option<Seq<char>>,
    created_at: Seq<char>,
) -> TaskView {
    TaskView {
        id,
        description,
        completed: false,
        category,
        priority,
        due_date,
        created_at,
        completed_at: None,
    }
}

/// Completion is one-directional and the first completion wins: a task
/// already completed keeps its original `completed_at`.
pub open spec fn completed_task(t: TaskView, ts: Seq<char>) -> TaskView {
    if t.completed {
        t
    } else {
        TaskView { completed: true, completed_at: Some(ts), ..t }
    }
}

pub open spec fn complete_seq(s: Seq<TaskView>, id: nat, ts: Seq<char>) -> Seq<TaskView> {
    if contains_id(s, id) {
        s.update(idx_of(s, id), completed_task(s[idx_of(s, id)], ts))
    } else {
        s
    }
}

/// A partial update: each field is replaced only where a new value is
/// supplied; identity, completion state and the creation stamp never move.
pub open spec fn updated_task(
    t: TaskView,
    description: Option<Seq<char>>,
    category: Option<Seq<char>>,
    priority: Option<Priority>,
    due_date: Option<Option<Seq<char>>>,
) -> TaskView {
    TaskView {
        description: match description {
            Some(d) => d,
            None => t.description,
        },
        category: match category {
            Some(c) => c,
            None => t.category,
        },
        priority: match priority {
            Some(p) => p,
            None => t.priority,
        },
        due_date: match due_date {
            Some(d) => d,
            None => t.due_date,
        },
        ..t
    }
}

pub open spec fn update_seq(
    s: Seq<TaskView>,
    id: nat,
    description: Option<Seq<char>>,
    category: Option<Seq<char>>,
    priority: Option<Priority>,
    due_date: Option<Option<Seq<char>>>,
) -> Seq<TaskView> {
    if contains_id(s, id) {
        s.update(
            idx_of(s, id),
            updated_task(s[idx_of(s, id)], description, category, priority, due_date),
        )
    } else {
        s
    }
}

pub open spec fn delete_seq(s: Seq<TaskView>, id: nat) -> Seq<TaskView> {
    if contains_id(s, id) {
        s.remove(idx_of(s, id))
    } else {
        s
    }
}

pub open spec fn count_completed(s: Seq<TaskView>) -> nat
    decreases s.len(),
{
    if s.len() == 0 {
        0
    } else {
        count_completed(s.drop_last()) + if s.last().completed {
            1nat
        } else {
            0nat
        }
    }
}

pub open spec fn is_high_pending(t: TaskView) -> bool {
    t.priority is High && !t.completed
}

pub open spec fn count_high_pending(s: Seq<TaskView>) -> nat
    decreases s.len(),
{
    if s.len() == 0 {
        0
    } else {
        count_high_pending(s.drop_last()) + if is_high_pending(s.last()) {
            1nat
        } else {
            0nat
        }
    }
}

/// The matching rule of the category filter: equality after case folding.
pub open spec fn cat_matches(t: TaskView, q: Seq<char>) -> bool {
    lower_of(t.category) == lower_of(q)
}

pub open spec fn filter_cat(s: Seq<TaskView>, q: Seq<char>) -> Seq<TaskView>
    decreases s.len(),
{
    if s.len() == 0 {
        Seq::empty()
    } else {
        filter_cat(s.drop_last(), q) + if cat_matches(s.last(), q) {
            seq![s.last()]
        } else {
            Seq::empty()
        }
    }
}

/// Both counts stay within the length of the collection, and the
/// high-priority pending tasks are among the pending ones.
proof fn lemma_counts(s: Seq<TaskView>)
    ensures
        count_completed(s) <= s.len(),
        count_high_pending(s) + count_completed(s) <= s.len(),
    decreases s.len(),
{
    if s.len() > 0 {
        lemma_counts(s.drop_last());
    }
}

/// The statistics invariant, for every collection state: completed and
/// pending tasks partition the collection, and the high-priority
/// pending count never exceeds the pending count.
pub proof fn lemma_statistics_partition(s: Seq<TaskView>)
    ensures
        count_completed(s) + (s.len() - count_completed(s)) == s.len(),
        count_high_pending(s) <= s.len() - count_completed(s),
{
    lemma_counts(s);
}

/// The id that would be assigned next is fresh: it collides with no id
/// currently in the collection. Together with the contract of `create`
/// (which returns the next id and then raises it) and of `delete`
/// (which never lowers it), ids handed out over any sequence of
/// operations are pairwise distinct and strictly increasing.
pub proof fn lemma_next_id_fresh(st: &TaskStore)
    requires
        st.wf(),
    ensures
        !contains_id(st.tasks_seq(), st.next_spec()),
        forall|i: int|
            0 <= i < st.tasks_seq().len() ==> (#[trigger] st.tasks_seq()[i]).id < st.next_spec(),
{
}

/// Completing a task twice is the same as completing it once: the
/// second call finds the task completed and leaves `completed_at`
/// untouched, whatever timestamp it carries.
pub proof fn lemma_complete_idempotent(s: Seq<TaskView>, id: nat, ts1: Seq<char>, ts2: Seq<char>)
    requires
        distinct_ids(s),
    ensures
        complete_seq(complete_seq(s, id, ts1), id, ts2) == complete_seq(s, id, ts1),
{
    if contains_id(s, id) {
        let k = idx_of(s, id);
        assert(0 <= k < s.len() && s[k].id == id);
        let s1 = complete_seq(s, id, ts1);
        assert(s1 == s.update(k, completed_task(s[k], ts1)));
        assert(s1[k].id == id);
        assert(contains_id(s1, id));
        let k1 = idx_of(s1, id);
        assert(0 <= k1 < s1.len() && s1[k1].id == id);
        if k1 != k {
            assert(s[k1].id == id);
            assert(false);
        }
        assert(s1[k].completed);
        assert(completed_task(s1[k], ts2) == s1[k]);
        assert(s1.update(k, s1[k]) =~= s1);
    }
}

/// Once a task is deleted, its id is gone: a later `complete` or
/// `update` with that id reports `NotFound` (their contracts return
/// `Err` exactly when the id is absent).
pub proof fn lemma_deleted_id_not_found(s: Seq<TaskView>, id: nat)
    requires
        distinct_ids(s),
        contains_id(s, id),
    ensures
        !contains_id(delete_seq(s, id), id),
{
    let k = idx_of(s, id);
    assert(0 <= k < s.len() && s[k].id == id);
    let r = delete_seq(s, id);
    assert(r == s.remove(k));
    assert forall|i: int| 0 <= i < r.len() implies (#[trigger] r[i]).id != id by {
        if i < k {
            assert(r[i] == s[i]);
        } else {
            assert(r[i] == s[i + 1]);
        }
    }
}

/// Under distinct ids, the index found by a scan is the index that
/// `idx_of` denotes.
proof fn lemma_found_index(s: Seq<TaskView>, id: nat, i: int)
    requires
        distinct_ids(s),
        0 <= i < s.len(),
        s[i].id == id,
    ensures
        contains_id(s, id),
        idx_of(s, id) == i,
{
    assert(contains_id(s, id));
    let k = idx_of(s, id);
    assert(0 <= k < s.len() && s[k].id == id);
    if k < i {
        assert(s[k].id != s[i].id);
        assert(false);
    }
    if i < k {
        assert(s[i].id != s[k].id);
        assert(false);
    }
}

proof fn lemma_max_id_is_id(s: Seq<TaskView>)
    requires
        s.len() > 0,
    ensures
        exists|i: int| 0 <= i < s.len() && (#[trigger] s[i]).id == max_id(s),
    decreases s.len(),
{
    if s.len() == 1 {
        assert(s[0].id == max_id(s));
    } else {
        let m = max_id(s.drop_last());
        if s.last().id >= m {
            assert(s[s.len() - 1].id == max_id(s));
        } else {
            lemma_max_id_is_id(s.drop_last());
            let i = choose|i: int| 0 <= i < s.drop_last().len() && (#[trigger] s.drop_last()[i]).id == m;
            assert(s[i].id == max_id(s));
        }
    }
}

proof fn lemma_max_id_ge(s: Seq<TaskView>)
    ensures
        forall|i: int| 0 <= i < s.len() ==> (#[trigger] s[i]).id <= max_id(s),
    decreases s.len(),
{
    if s.len() > 0 {
        lemma_max_id_ge(s.drop_last());
        assert forall|i: int| 0 <= i < s.len() implies (#[trigger] s[i]).id <= max_id(s) by {
            if i < s.len() - 1 {
                assert(s.drop_last()[i] == s[i]);
            }
        }
    }
}

/// The in-memory collection, the watermark for the next id, and the
/// operations over them.
pub struct TaskStore {
    tasks: Vec<Task>,
    next_id: usize,
}

impl TaskStore {
    /// The mathematical contents of the collection, in insertion order.
    pub closed spec fn tasks_seq(&self) -> Seq<TaskView> {
        tasks_view(self.tasks@)
    }

    /// The watermark: the id the next `create` will assign.
    pub closed spec fn next_spec(&self) -> nat {
        self.next_id as nat
    }

    pub open spec fn wf(&self) -> bool {
        &&& wf_seq(self.tasks_seq())
        &&& forall|i: int|
            0 <= i < self.tasks_seq().len() ==> (#[trigger] self.tasks_seq()[i]).id
                < self.next_spec()
        &&& 1 <= self.next_spec()
    }

    /// A store with no tasks; the very next `create` assigns id 1.
    pub fn empty() -> (r: TaskStore)
        ensures
            r.wf(),
            r.tasks_seq() == Seq::<TaskView>::empty(),
            r.next_spec() == 1,
    {
        let r = TaskStore { tasks: Vec::new(), next_id: 1 };
        proof {
            assert(r.tasks_seq() =~= Seq::<TaskView>::empty());
        }
        r
    }

    /// Builds a store around a loaded collection, recomputing the
    /// watermark as one more than the largest id present (1 when the
    /// collection is empty). Returns `None` when the collection is not
    /// well formed — a duplicated id, a completion state out of step
    /// with `completed_at`, or an id too large to ever allocate past.
    pub fn from_tasks(tasks: Vec<Task>) -> (r: Option<TaskStore>)
        ensures
            match r {
                Some(st) => {
                    &&& wf_seq(tasks_view(tasks@))
                    &&& forall|i: int|
                        0 <= i < tasks@.len() ==> (#[trigger] tasks_view(tasks@)[i]).id
                            < usize::MAX as nat
                    &&& st.wf()
                    &&& st.tasks_seq() == tasks_view(tasks@)
                    &&& st.next_spec() == if tasks@.len() == 0 {
                        1nat
                    } else {
                        max_id(tasks_view(tasks@)) + 1
                    }
                },
                None => !({
                    &&& wf_seq(tasks_view(tasks@))
                    &&& forall|i: int|
                        0 <= i < tasks@.len() ==> (#[trigger] tasks_view(tasks@)[i]).id
                            < usize::MAX as nat
                }),
            },
    {
        let ghost s = tasks_view(tasks@);
        let n = tasks.len();
        let mut max: usize = 0;
        let mut i: usize = 0;
        while i < n
            invariant
                n == tasks@.len(),
                0 <= i <= n,
                s == tasks_view(tasks@),
                forall|j: int| 0 <= j < i ==> task_consistent(#[trigger] s[j]),
                forall|j: int| 0 <= j < i ==> (#[trigger] s[j]).id < usize::MAX as nat,
                max as nat == max_id(s.take(i as int)),
            decreases n - i,
        {
            proof {
                assert(s[i as int] == tasks@[i as int]@);
            }
            let consistent = match &tasks[i].completed_at {
                Some(_) => tasks[i].completed,
                None => !tasks[i].completed,
            };
            if !consistent {
                proof {
                    assert(!task_consistent(s[i as int]));
                }
                return None;
            }
            if tasks[i].id == usize::MAX {
                proof {
                    assert(s[i as int].id == usize::MAX as nat);
                }
                return None;
            }
            if tasks[i].id > max {
                max = tasks[i].id;
            }
            proof {
                assert(s.take(i + 1).drop_last() =~= s.take(i as int));
                assert(s.take(i + 1).last() == s[i as int]);
            }
            i += 1;
        }
        let mut a: usize = 0;
        while a < n
            invariant
                n == tasks@.len(),
                0 <= a <= n,
                s == tasks_view(tasks@),
                forall|p: int, q: int| 0 <= p < q < n && p < a ==> s[p].id != s[q].id,
            decreases n - a,
        {
            let mut b: usize = a + 1;
            while b < n
                invariant
                    n == tasks@.len(),
                    a < n,
                    a < b <= n,
                    s == tasks_view(tasks@),
                    forall|q: int| a < q < b ==> s[a as int].id != (#[trigger] s[q]).id,
                decreases n - b,
            {
                if tasks[a].id == tasks[b].id {
                    proof {
                        assert(s[a as int] == tasks@[a as int]@);
                        assert(s[b as int] == tasks@[b as int]@);
                        assert(s[a as int].id == s[b as int].id);
                        assert(!distinct_ids(s));
                    }
                    return None;
                }
                b += 1;
            }
            a += 1;
        }
        proof {
            assert(s.take(n as int) =~= s);
            if n > 0 {
                lemma_max_id_ge(s);
                lemma_max_id_is_id(s);
            }
        }
        let next_id: usize = if n == 0 {
            1
        } else {
            max + 1
        };
        Some(TaskStore { tasks, next_id })
    }

    /// The full ordered sequence of tasks, in insertion order.
    pub fn list(&self) -> (r: &Vec<Task>)
        ensures
            tasks_view(r@) == self.tasks_seq(),
    {
        &self.tasks
    }

    /// The id the next `create` will assign.
    pub fn next_id(&self) -> (r: usize)
        ensures
            r as nat == self.next_spec(),
    {
        self.next_id
    }

    /// Appends a new task under a freshly allocated id and raises the
    /// watermark; the new task starts not completed, stamped once with
    /// `created_at`. Returns the assigned id.
    pub fn create(
        &mut self,
        description: String,
        category: String,
        priority: Priority,
        due_date: Option<String>,
        created_at: String,
    ) -> (id: usize)
        requires
            old(self).wf(),
            old(self).next_spec() < usize::MAX as nat,
        ensures
            final(self).wf(),
            id as nat == old(self).next_spec(),
            final(self).next_spec() == old(self).next_spec() + 1,
            final(self).tasks_seq() == old(self).tasks_seq().push(
                new_task_view(
                    old(self).next_spec(),
                    description@,
                    category@,
                    priority,
                    opt_view(due_date),
                    created_at@,
                ),
            ),
    {
        let id = self.next_id;
        let t = Task {
            id,
            description,
            completed: false,
            category,
            priority,
            due_date,
            created_at,
            completed_at: None,
        };
        self.tasks.push(t);
        self.next_id = id + 1;
        id
    }

    /// `create` with the creation stamp drawn from the clock.
    pub fn create_now(
        &mut self,
        description: String,
        category: String,
        priority: Priority,
        due_date: Option<String>,
    ) -> (id: usize)
        requires
            old(self).wf(),
            old(self).next_spec() < usize::MAX as nat,
        ensures
            final(self).wf(),
            id as nat == old(self).next_spec(),
            final(self).next_spec() == old(self).next_spec() + 1,
            exists|ts: Seq<char>|
                final(self).tasks_seq() == old(self).tasks_seq().push(
                    new_task_view(
                        old(self).next_spec(),
                        description@,
                        category@,
                        priority,
                        opt_view(due_date),
                        ts,
                    ),
                ),
    {
        let stamp = now_stamp();
        let ghost ts = stamp@;
        let id = self.create(description, category, priority, due_date, stamp);
        proof {
            assert(final(self).tasks_seq() == old(self).tasks_seq().push(
                new_task_view(
                    old(self).next_spec(),
                    description@,
                    category@,
                    priority,
                    opt_view(due_date),
                    ts,
                ),
            ));
        }
        id
    }

    /// Marks the task with the given id completed and stamps
    /// `completed_at`, under the first-completion-wins rule: a task
    /// already completed is left exactly as it is. `Err(NotFound)`
    /// exactly when no task carries the id; nothing changes then.
    pub fn complete(&mut self, id: usize, completed_at: String) -> (r: Result<(), StoreError>)
        requires
            old(self).wf(),
        ensures
            final(self).wf(),
            final(self).next_spec() == old(self).next_spec(),
            r is Ok <==> contains_id(old(self).tasks_seq(), id as nat),
            final(self).tasks_seq() == complete_seq(old(self).tasks_seq(), id as nat, completed_at@),
    {
        let ghost s0 = self.tasks_seq();
        let n = self.tasks.len();
        let mut i: usize = 0;
        while i < n
            invariant
                old(self).wf(),
                *self == *old(self),
                s0 == self.tasks_seq(),
                n == s0.len(),
                0 <= i <= n,
                forall|j: int| 0 <= j < i ==> (#[trigger] s0[j]).id != id as nat,
            decreases n - i,
        {
            if self.tasks[i].id == id {
                proof {
                    assert(s0[i as int] == self.tasks@[i as int]@);
                    assert(s0[i as int].id == id as nat);
                    lemma_found_index(s0, id as nat, i as int);
                }
                if self.tasks[i].completed {
                    proof {
                        assert(completed_task(s0[i as int], completed_at@) == s0[i as int]);
                        assert(s0.update(i as int, s0[i as int]) =~= s0);
                    }
                    return Ok(());
                }
                let new_t = {
                    let t = &self.tasks[i];
                    Task {
                        id: t.id,
                        description: t.description.clone(),
                        completed: true,
                        category: t.category.clone(),
                        priority: t.priority,
                        due_date: clone_opt_string(&t.due_date),
                        created_at: t.created_at.clone(),
                        completed_at: Some(completed_at),
                    }
                };
                self.tasks.set(i, new_t);
                return Ok(());
            }
            i += 1;
        }
        Err(StoreError::NotFound)
    }

    /// `complete` with the completion stamp drawn from the clock.
    pub fn complete_now(&mut self, id: usize) -> (r: Result<(), StoreError>)
        requires
            old(self).wf(),
        ensures
            final(self).wf(),
            final(self).next_spec() == old(self).next_spec(),
            r is Ok <==> contains_id(old(self).tasks_seq(), id as nat),
            exists|ts: Seq<char>|
                final(self).tasks_seq() == complete_seq(old(self).tasks_seq(), id as nat, ts),
    {
        let stamp = now_stamp();
        let ghost ts = stamp@;
        let r = self.complete(id, stamp);
        proof {
            assert(final(self).tasks_seq() == complete_seq(old(self).tasks_seq(), id as nat, ts));
        }
        r
    }

    /// Removes the task with the given id, keeping the order of the
    /// rest; the watermark does not move, so the id is never reused.
    /// `Err(NotFound)` exactly when no task carries the id.
    pub fn delete(&mut self, id: usize) -> (r: Result<(), StoreError>)
        requires
            old(self).wf(),
        ensures
            final(self).wf(),
            final(self).next_spec() == old(self).next_spec(),
            r is Ok <==> contains_id(old(self).tasks_seq(), id as nat),
            final(self).tasks_seq() == delete_seq(old(self).tasks_seq(), id as nat),
    {
        let ghost s0 = self.tasks_seq();
        let n = self.tasks.len();
        let mut i: usize = 0;
        while i < n
            invariant
                old(self).wf(),
                *self == *old(self),
                s0 == self.tasks_seq(),
                n == s0.len(),
                0 <= i <= n,
                forall|j: int| 0 <= j < i ==> (#[trigger] s0[j]).id != id as nat,
            decreases n - i,
        {
            if self.tasks[i].id == id {
                proof {
                    assert(s0[i as int] == self.tasks@[i as int]@);
                    assert(s0[i as int].id == id as nat);
                    lemma_found_index(s0, id as nat, i as int);
                }
                self.tasks.remove(i);
                proof {
                    s0.remove_ensures(i as int);
                    let s1 = s0.remove(i as int);
                    assert forall|p: int, q: int| 0 <= p < q < s1.len() implies s1[p].id
                        != s1[q].id by {
                        if q < i as int {
                            assert(s1[p] == s0[p]);
                            assert(s1[q] == s0[q]);
                        } else if p < i as int {
                            assert(s1[p] == s0[p]);
                            assert(s1[q] == s0[q + 1]);
                        } else {
                            assert(s1[p] == s0[p + 1]);
                            assert(s1[q] == s0[q + 1]);
                        }
                    }
                    assert forall|j: int| 0 <= j < s1.len() implies task_consistent(
                        #[trigger] s1[j],
                    ) && s1[j].id < old(self).next_spec() by {
                        if j < i as int {
                            assert(s1[j] == s0[j]);
                        } else {
                            assert(s1[j] == s0[j + 1]);
                        }
                    }
                }
                return Ok(());
            }
            i += 1;
        }
        Err(StoreError::NotFound)
    }

    /// Replaces, on the task with the given id, exactly the fields for
    /// which a new value is supplied; `None` leaves a field unchanged,
    /// and `Some(None)` for the due date clears it. Identity,
    /// completion state and the creation stamp never change.
    /// `Err(NotFound)` exactly when no task carries the id.
    pub fn update(
        &mut self,
        id: usize,
        description: Option<String>,
        category: Option<String>,
        priority: Option<Priority>,
        due_date: Option<Option<String>>,
    ) -> (r: Result<(), StoreError>)
        requires
            old(self).wf(),
        ensures
            final(self).wf(),
            final(self).next_spec() == old(self).next_spec(),
            r is Ok <==> contains_id(old(self).tasks_seq(), id as nat),
            final(self).tasks_seq() == update_seq(
                old(self).tasks_seq(),
                id as nat,
                match description {
                    Some(d) => Some(d@),
                    None => None,
                },
                match category {
                    Some(c) => Some(c@),
                    None => None,
                },
                priority,
                match due_date {
                    Some(d) => Some(opt_view(d)),
                    None => None,
                },
            ),
    {
        let ghost s0 = self.tasks_seq();
        let n = self.tasks.len();
        let mut i: usize = 0;
        while i < n
            invariant
                old(self).wf(),
                *self == *old(self),
                s0 == self.tasks_seq(),
                n == s0.len(),
                0 <= i <= n,
                forall|j: int| 0 <= j < i ==> (#[trigger] s0[j]).id != id as nat,
            decreases n - i,
        {
            if self.tasks[i].id == id {
                proof {
                    assert(s0[i as int] == self.tasks@[i as int]@);
                    assert(s0[i as int].id == id as nat);
                    lemma_found_index(s0, id as nat, i as int);
                }
                let new_t = {
                    let t = &self.tasks[i];
                    Task {
                        id: t.id,
                        description: match description {
                            Some(d) => d,
                            None => t.description.clone(),
                        },
                        completed: t.completed,
                        category: match category {
                            Some(c) => c,
                            None => t.category.clone(),
                        },
                        priority: match priority {
                            Some(p) => p,
                            None => t.priority,
                        },
                        due_date: match due_date {
                            Some(d) => d,
                            None => clone_opt_string(&t.due_date),
                        },
                        created_at: t.created_at.clone(),
                        completed_at: clone_opt_string(&t.completed_at),
                    }
                };
                self.tasks.set(i, new_t);
                return Ok(());
            }
            i += 1;
        }
        Err(StoreError::NotFound)
    }

    /// The tasks whose category matches the query without regard to
    /// case, in their order in the collection; empty when none match.
    pub fn filter_by_category(&self, category: &str) -> (r: Vec<Task>)
        ensures
            tasks_view(r@) == filter_cat(self.tasks_seq(), category@),
    {
        let ghost s = self.tasks_seq();
        let q = to_lower(category);
        let mut out: Vec<Task> = Vec::new();
        let n = self.tasks.len();
        let mut i: usize = 0;
        proof {
            assert(tasks_view(out@) =~= filter_cat(s.take(0), category@));
        }
        while i < n
            invariant
                s == self.tasks_seq(),
                n == s.len(),
                0 <= i <= n,
                q@ == lower_of(category@),
                tasks_view(out@) == filter_cat(s.take(i as int), category@),
            decreases n - i,
        {
            let tl = to_lower(self.tasks[i].category.as_str());
            if tl == q {
                out.push(self.tasks[i].clone());
            }
            proof {
                assert(s.take(i + 1).drop_last() =~= s.take(i as int));
                assert(s.take(i + 1).last() == s[i as int]);
                if cat_matches(s[i as int], category@) {
                    assert(tasks_view(out@) =~= filter_cat(s.take(i as int), category@)
                        + seq![s[i as int]]);
                } else {
                    assert(tasks_view(out@) =~= filter_cat(s.take(i as int), category@)
                        + Seq::<TaskView>::empty());
                }
            }
            i += 1;
        }
        proof {
            assert(s.take(n as int) =~= s);
        }
        out
    }

    /// The aggregate counts over the current snapshot: pending tasks
    /// are exactly those not completed, so completed and pending
    /// partition the total, and the high-priority pending tasks are
    /// among the pending ones.
    pub fn statistics(&self) -> (r: Stats)
        ensures
            r.total as nat == self.tasks_seq().len(),
            r.completed as nat == count_completed(self.tasks_seq()),
            r.pending as nat == self.tasks_seq().len() - count_completed(self.tasks_seq()),
            r.high_priority_pending as nat == count_high_pending(self.tasks_seq()),
            r.total == r.completed + r.pending,
            r.high_priority_pending <= r.pending,
    {
        let ghost s = self.tasks_seq();
        let n = self.tasks.len();
        let mut completed: usize = 0;
        let mut high: usize = 0;
        let mut i: usize = 0;
        while i < n
            invariant
                s == self.tasks_seq(),
                n == s.len(),
                0 <= i <= n,
                completed as nat == count_completed(s.take(i as int)),
                high as nat == count_high_pending(s.take(i as int)),
                completed <= i,
                high <= i,
            decreases n - i,
        {
            proof {
                assert(s.take(i + 1).drop_last() =~= s.take(i as int));
                assert(s.take(i + 1).last() == s[i as int]);
            }
            let t = &self.tasks[i];
            if t.completed {
                completed += 1;
            }
            if matches!(t.priority, Priority::High) && !t.completed {
                high += 1;
            }
            i += 1;
        }
        proof {
            assert(s.take(n as int) =~= s);
            lemma_counts(s);
        }
        Stats { total: n, completed, pending: n - completed, high_priority_pending: high }
    }
}

} // verus!
