use vstd::prelude::*;

use crate::codec::{enc_tasks, lemma_enc_tasks_injective, tasks_from_json, tasks_to_json};
use crate::task::{
    has_id, ids_distinct, idx_of_id, lemma_idx_of_id, lemma_max_id_is_max,
    lemma_remove_keeps_distinct, lemma_tasks_deep_view, max_id, Task, TaskError, TaskStats, TaskView,
};

verus! {

/// Owns the live task collection together with the storage path it was
/// loaded from. Every operation on the collection passes through it.
#[derive(Debug)]
pub struct TaskManager {
    /// In-memory collection of tasks, in insertion order.
    pub tasks: Vec<Task>,
    /// Path of the storage file the collection was loaded from.
    pub json_path: String,
}

impl View for TaskManager {
    type V = Seq<TaskView>;

    open spec fn view(&self) -> Seq<TaskView> {
        self.tasks.deep_view()
    }
}

impl TaskManager {
    /// The collection invariant: no two live tasks share an identifier.
    pub open spec fn wf(&self) -> bool {
        ids_distinct(self@)
    }

    /// Loads a collection from `content`, the text of the storage file at
    /// `json_path`. Succeeds exactly when the text is a stored collection
    /// whose identifiers are pairwise distinct, and then holds that
    /// collection and remembers the path.
    pub fn new(json_path: &str, content: &str) -> (r: Result<TaskManager, TaskError>)
        ensures
            match r {
                Ok(m) => {
                    &&& m.wf()
                    &&& content@ == enc_tasks(m@)
                    &&& m.json_path@ == json_path@
                },
                Err(e) => {
                    &&& e == TaskError::Format
                    &&& forall|ts: Seq<TaskView>| content@ == enc_tasks(ts) ==> !ids_distinct(ts)
                },
            },
    {
        match tasks_from_json(content) {
            Ok(tasks) => {
                if Self::ids_distinct_check(&tasks) {
                    Ok(TaskManager { tasks, json_path: json_path.to_owned() })
                } else {
                    proof {
                        assert forall|ts: Seq<TaskView>| content@ == enc_tasks(ts) implies
                            !ids_distinct(ts) by {
                            lemma_enc_tasks_injective(ts, tasks.deep_view());
                        }
                    }
                    Err(TaskError::Format)
                }
            },
            Err(_) => Err(TaskError::Format),
        }
    }

    /// The stored text of the current collection.
    pub fn to_json(&self) -> (r: String)
        ensures
            r@ == enc_tasks(self@),
    {
        tasks_to_json(&self.tasks)
    }

    /// Whether the identifiers of `tasks` are pairwise distinct.
    fn ids_distinct_check(tasks: &Vec<Task>) -> (b: bool)
        ensures
            b == ids_distinct(tasks.deep_view()),
    {
        let ghost s = tasks.deep_view();
        proof {
            lemma_tasks_deep_view(*tasks);
        }
        let mut i: usize = 0;
        while i < tasks.len()
            invariant
                s == tasks.deep_view(),
                s.len() == tasks.len(),
                i <= tasks.len(),
                forall|k: int| 0 <= k < s.len() ==> s[k].id == tasks@[k].id,
                forall|p: int, q: int| 0 <= p < q < s.len() && p < i ==> s[p].id != s[q].id,
            decreases tasks.len() - i,
        {
            let mut j: usize = i + 1;
            while j < tasks.len()
                invariant
                    s == tasks.deep_view(),
                    s.len() == tasks.len(),
                    i + 1 <= j <= tasks.len(),
                    i < tasks.len(),
                    forall|k: int| 0 <= k < s.len() ==> s[k].id == tasks@[k].id,
                    forall|q: int| i < q < j ==> s[i as int].id != s[q].id,
                decreases tasks.len() - j,
            {
                if tasks[i].id == tasks[j].id {
                    proof {
                        assert(s[i as int].id == s[j as int].id);
                        assert(!ids_distinct(s));
                    }
                    return false;
                }
                j += 1;
            }
            i += 1;
        }
        true
    }

    /// Position of the task carrying `id`, if any.
    fn find_index(tasks: &Vec<Task>, id: u32) -> (r: Option<usize>)
        ensures
            match r {
                Some(i) => has_id(tasks.deep_view(), id) && i == idx_of_id(tasks.deep_view(), id),
                None => !has_id(tasks.deep_view(), id),
            },
    {
        let ghost s = tasks.deep_view();
        let mut i: usize = 0;
        while i < tasks.len()
            invariant
                i <= tasks.len(),
                s == tasks.deep_view(),
                s.len() == tasks.len(),
                forall|k: int| 0 <= k < i ==> s[k].id != id,
            decreases tasks.len() - i,
        {
            if tasks[i].id == id {
                proof {
                    assert(s[i as int].id == id);
                    lemma_idx_of_id(s, id);
                    let j = idx_of_id(s, id);
                    if j < i as int {
                        assert(s[j].id != id);
                    }
                }
                return Some(i);
            }
            i += 1;
        }
        None
    }

    /// Summarizes the collection: its size and the highest identifier in
    /// use (0 when the collection is empty).
    pub fn get_stats(&self) -> (stats: TaskStats)
        ensures
            stats.total == self@.len(),
            stats.last_id == max_id(self@),
    {
        let ghost s = self@;
        let mut last: u32 = 0;
        let mut i: usize = 0;
        while i < self.tasks.len()
            invariant
                i <= self.tasks.len(),
                s == self@,
                s.len() == self.tasks.len(),
                last == max_id(s.subrange(0, i as int)),
            decreases self.tasks.len() - i,
        {
            proof {
                assert(s.subrange(0, i + 1).drop_last() =~= s.subrange(0, i as int));
                assert(s.subrange(0, i + 1).last() == s[i as int]);
            }
            if self.tasks[i].id > last {
                last = self.tasks[i].id;
            }
            i += 1;
        }
        proof {
            assert(s.subrange(0, s.len() as int) =~= s);
        }
        TaskStats { total: self.tasks.len(), last_id: last }
    }

    /// Creates a task under the next identifier (`last_id + 1`) and appends
    /// it to the collection; nothing else changes.
    pub fn create_task(&mut self, title: String, description: String) -> (task: Task)
        requires
            old(self).wf(),
            max_id(old(self)@) < u32::MAX,
        ensures
            final(self).wf(),
            final(self)@ == old(self)@.push(task@),
            final(self).json_path == old(self).json_path,
            task@.id == max_id(old(self)@) + 1,
            task@.title == title@,
            task@.description == description@,
    {
        let stats = self.get_stats();
        let new_id = stats.last_id + 1;
        let task = Task { id: new_id, title, description };
        self.tasks.push(task.clone());
        proof {
            let s = old(self)@;
            assert(self@ =~= s.push(task@));
            lemma_max_id_is_max(s);
            assert forall|i: int, j: int| 0 <= i < j < self@.len() implies self@[i].id
                != self@[j].id by {
                if j == s.len() {
                    assert(s[i].id <= max_id(s));
                }
            }
        }
        task
    }

    /// Looks a task up by identifier; the collection is unchanged.
    pub fn read_task(&self, id: u32) -> (r: Result<Task, TaskError>)
        requires
            self.wf(),
        ensures
            match r {
                Ok(t) => has_id(self@, id) && t@ == self@[idx_of_id(self@, id)] && t@.id == id,
                Err(e) => e == TaskError::NotFound && !has_id(self@, id),
            },
    {
        match Self::find_index(&self.tasks, id) {
            Some(i) => {
                proof {
                    lemma_idx_of_id(self@, id);
                }
                Ok(self.tasks[i].clone())
            },
            None => Err(TaskError::NotFound),
        }
    }

    /// Overwrites the title and description of the task carrying `id`; its
    /// identifier, its position and every other task are unchanged.
    pub fn update_task(&mut self, id: u32, title: String, description: String) -> (r: Result<
        Task,
        TaskError,
    >)
        requires
            old(self).wf(),
        ensures
            final(self).wf(),
            final(self).json_path == old(self).json_path,
            match r {
                Ok(t) => {
                    &&& has_id(old(self)@, id)
                    &&& t@ == (TaskView { id: id, title: title@, description: description@ })
                    &&& final(self)@ == old(self)@.update(idx_of_id(old(self)@, id), t@)
                },
                Err(e) => {
                    &&& e == TaskError::NotFound
                    &&& !has_id(old(self)@, id)
                    &&& final(self)@ == old(self)@
                },
            },
    {
        match Self::find_index(&self.tasks, id) {
            Some(i) => {
                proof {
                    lemma_idx_of_id(self@, id);
                }
                let task = Task { id, title, description };
                self.tasks.set(i, task.clone());
                proof {
                    let s = old(self)@;
                    assert(self@ =~= s.update(i as int, task@));
                    assert forall|p: int, q: int| 0 <= p < q < self@.len() implies self@[p].id
                        != self@[q].id by {
                        assert(self@[p].id == s[p].id);
                        assert(self@[q].id == s[q].id);
                    }
                }
                Ok(task)
            },
            None => Err(TaskError::NotFound),
        }
    }

    /// Removes the task carrying `id`; the relative order of the remaining
    /// tasks is untouched.
    pub fn delete_task(&mut self, id: u32) -> (r: Result<(), TaskError>)
        requires
            old(self).wf(),
        ensures
            final(self).wf(),
            final(self).json_path == old(self).json_path,
            match r {
                Ok(_) => {
                    &&& has_id(old(self)@, id)
                    &&& final(self)@ == old(self)@.remove(idx_of_id(old(self)@, id))
                },
                Err(e) => {
                    &&& e == TaskError::NotFound
                    &&& !has_id(old(self)@, id)
                    &&& final(self)@ == old(self)@
                },
            },
    {
        match Self::find_index(&self.tasks, id) {
            Some(i) => {
                proof {
                    lemma_idx_of_id(self@, id);
                }
                self.tasks.remove(i);
                proof {
                    let s = old(self)@;
                    assert(self@ =~= s.remove(idx_of_id(s, id)));
                    lemma_remove_keeps_distinct(s, idx_of_id(s, id));
                }
                Ok(())
            },
            None => Err(TaskError::NotFound),
        }
    }

    /// Hands out the current collection in order, for display.
    pub fn list_tasks(&self) -> (r: Vec<Task>)
        ensures
            r.deep_view() == self@,
    {
        let mut out: Vec<Task> = Vec::new();
        let mut i: usize = 0;
        while i < self.tasks.len()
            invariant
                i <= self.tasks.len(),
                self@.len() == self.tasks.len(),
                out.deep_view() =~= self@.subrange(0, i as int),
            decreases self.tasks.len() - i,
        {
            let ghost prev = out;
            out.push(self.tasks[i].clone());
            proof {
                lemma_tasks_deep_view(prev);
                lemma_tasks_deep_view(out);
                lemma_tasks_deep_view(self.tasks);
                assert(out.deep_view() =~= self@.subrange(0, i + 1));
            }
            i += 1;
        }
        proof {
            assert(self@.subrange(0, self@.len() as int) =~= self@);
        }
        out
    }
}

} // verus!
