//! The record model: `Priority` and `Task` value shapes, and the
//! mathematical view of a task used throughout the contracts.

use vstd::prelude::*;

verus! {

/// Urgency of a task. Equality is by variant; the order of the
/// variants carries no meaning for sorting.
#[derive(Clone, Copy, PartialEq, Eq, Structural, Debug)]
pub enum Priority {
    Low,
    Medium,
    High,
}

/// What a menu answer means as a priority: the three numbered choices
/// and nothing else.
pub open spec fn priority_of_choice(s: Seq<char>) -> Option<Priority> {
    if s == seq!['1'] {
        Some(Priority::High)
    } else if s == seq!['2'] {
        Some(Priority::Medium)
    } else if s == seq!['3'] {
        Some(Priority::Low)
    } else {
        None
    }
}

impl Priority {
    /// Reads an already-trimmed menu answer: `1`, `2` and `3` name the
    /// three priorities, anything else is rejected.
    pub fn from_choice(input: &str) -> (r: Option<Priority>)
        ensures
            r == priority_of_choice(input@),
    {
        let n = input.unicode_len();
        if n != 1 {
            proof {
                assert(input@ != seq!['1']);
                assert(input@ != seq!['2']);
                assert(input@ != seq!['3']);
            }
            return None;
        }
        let c = input.get_char(0);
        proof {
            if c == '1' {
                assert(input@ =~= seq!['1']);
            } else {
                assert(input@ != seq!['1']);
            }
            if c == '2' {
                assert(input@ =~= seq!['2']);
            } else {
                assert(input@ != seq!['2']);
            }
            if c == '3' {
                assert(input@ =~= seq!['3']);
            } else {
                assert(input@ != seq!['3']);
            }
        }
        if c == '1' {
            Some(Priority::High)
        } else if c == '2' {
            Some(Priority::Medium)
        } else if c == '3' {
            Some(Priority::Low)
        } else {
            None
        }
    }
}

/// One trackable unit of work.
///
/// `completed_at` is set exactly when `completed` goes from false to
/// true; completion is one-directional, there is no way back.
pub struct Task {
    pub id: usize,
    pub description: String,
    pub completed: bool,
    pub category: String,
    pub priority: Priority,
    pub due_date: Option<String>,
    pub created_at: String,
    pub completed_at: Option<String>,
}

/// The mathematical value of a `Task`: every text field as a
/// sequence of characters, the id as an unbounded natural.
pub ghost struct TaskView {
    pub id: nat,
    pub description: Seq<char>,
    pub completed: bool,
    pub category: Seq<char>,
    pub priority: Priority,
    pub due_date: Option<Seq<char>>,
    pub created_at: Seq<char>,
    pub completed_at: Option<Seq<char>>,
}

pub open spec fn opt_view(o: Option<String>) -> Option<Seq<char>> {
    match o {
        Some(s) => Some(s@),
        None => None,
    }
}

impl View for Task {
    type V = TaskView;

    open spec fn view(&self) -> TaskView {
        TaskView {
            id: self.id as nat,
            description: self.description@,
            completed: self.completed,
            category: self.category@,
            priority: self.priority,
            due_date: opt_view(self.due_date),
            created_at: self.created_at@,
            completed_at: opt_view(self.completed_at),
        }
    }
}

/// The view of a whole collection, task by task.
pub open spec fn tasks_view(ts: Seq<Task>) -> Seq<TaskView> {
    ts.map(|i: int, t: Task| t@)
}

/// The view of a collection follows it element by element; these
/// lemmas carry `push`, `update` and `remove` across the view.
pub broadcast proof fn lemma_tasks_view_push(ts: Seq<Task>, t: Task)
    ensures
        #[trigger] tasks_view(ts.push(t)) == tasks_view(ts).push(t@),
{
    assert(tasks_view(ts.push(t)) =~= tasks_view(ts).push(t@));
}

pub broadcast proof fn lemma_tasks_view_update(ts: Seq<Task>, i: int, t: Task)
    requires
        0 <= i < ts.len(),
    ensures
        #[trigger] tasks_view(ts.update(i, t)) == tasks_view(ts).update(i, t@),
{
    assert(tasks_view(ts.update(i, t)) =~= tasks_view(ts).update(i, t@));
}

pub broadcast proof fn lemma_tasks_view_remove(ts: Seq<Task>, i: int)
    requires
        0 <= i < ts.len(),
    ensures
        #[trigger] tasks_view(ts.remove(i)) == tasks_view(ts).remove(i),
{
    assert(tasks_view(ts.remove(i)) =~= tasks_view(ts).remove(i));
}

pub broadcast group group_tasks_view {
    lemma_tasks_view_push,
    lemma_tasks_view_update,
    lemma_tasks_view_remove,
}

pub(crate) fn clone_opt_string(o: &Option<String>) -> (r: Option<String>)
    ensures
        opt_view(r) == opt_view(*o),
{
    match o {
        Some(s) => Some(s.clone()),
        None => None,
    }
}

impl Clone for Task {
    fn clone(&self) -> (r: Self)
        ensures
            r@ == self@,
    {
        Task {
            id: self.id,
            description: self.description.clone(),
            completed: self.completed,
            category: self.category.clone(),
            priority: self.priority,
            due_date: clone_opt_string(&self.due_date),
            created_at: self.created_at.clone(),
            completed_at: clone_opt_string(&self.completed_at),
        }
    }
}

} // verus!
