use vstd::prelude::*;

verus! {

/// One to-do record: an identifier that is unique within the live
/// collection, plus a user-supplied title and description.
#[derive(Debug, PartialEq, Eq)]
pub struct Task {
    pub id: u32,
    pub title: String,
    pub description: String,
}

/// The mathematical value of a `Task`: the identifier together with the
/// character sequences of the two text fields.
pub ghost struct TaskView {
    pub id: u32,
    pub title: Seq<char>,
    pub description: Seq<char>,
}

impl View for Task {
    type V = TaskView;

    open spec fn view(&self) -> TaskView {
        TaskView { id: self.id, title: self.title@, description: self.description@ }
    }
}

impl DeepView for Task {
    type V = TaskView;

    open spec fn deep_view(&self) -> TaskView {
        self.view()
    }
}

impl Clone for Task {
    fn clone(&self) -> (res: Self)
        ensures
            res == *self,
    {
        Task { id: self.id, title: self.title.clone(), description: self.description.clone() }
    }
}

/// A derived summary of the collection: the element count and the highest
/// identifier in use (0 when the collection is empty).
#[derive(Debug, PartialEq, Eq, Structural)]
pub struct TaskStats {
    pub total: usize,
    pub last_id: u32,
}

/// The failures an operation can report.
#[derive(Clone, Copy, Debug, PartialEq, Eq, Structural)]
pub enum TaskError {
    /// The storage file could not be read or written.
    Storage,
    /// The storage text does not describe a valid task collection.
    Format,
    /// No task with the requested identifier exists.
    NotFound,
}

/// No two tasks of the sequence share an identifier.
pub open spec fn ids_distinct(s: Seq<TaskView>) -> bool {
    forall|i: int, j: int| 0 <= i < j < s.len() ==> s[i].id != s[j].id
}

/// Some task of the sequence carries the identifier `id`.
pub open spec fn has_id(s: Seq<TaskView>, id: u32) -> bool {
    exists|i: int| 0 <= i < s.len() && s[i].id == id
}

/// The position of the first task carrying `id` (meaningful when
/// `has_id(s, id)` holds).
pub open spec fn idx_of_id(s: Seq<TaskView>, id: u32) -> int
    decreases s.len(),
{
    if s.len() == 0 {
        0
    } else if s[0].id == id {
        0
    } else {
        1 + idx_of_id(s.drop_first(), id)
    }
}

/// The largest identifier present, or 0 for the empty sequence.
pub open spec fn max_id(s: Seq<TaskView>) -> u32
    decreases s.len(),
{
    if s.len() == 0 {
        0
    } else {
        let m = max_id(s.drop_last());
        if s.last().id > m {
            s.last().id
        } else {
            m
        }
    }
}

/// A task vector's deep view is its element views, position by position.
pub proof fn lemma_tasks_deep_view(v: Vec<Task>)
    ensures
        v.deep_view().len() == v@.len(),
        forall|i: int| 0 <= i < v@.len() ==> v.deep_view()[i] == v@[i]@,
{
}

/// `idx_of_id` points at the first task carrying `id`.
pub proof fn lemma_idx_of_id(s: Seq<TaskView>, id: u32)
    requires
        has_id(s, id),
    ensures
        0 <= idx_of_id(s, id) < s.len(),
        s[idx_of_id(s, id)].id == id,
        forall|k: int| 0 <= k < idx_of_id(s, id) ==> s[k].id != id,
    decreases s.len(),
{
    if s[0].id == id {
    } else {
        let w = choose|i: int| 0 <= i < s.len() && s[i].id == id;
        assert(s.drop_first()[w - 1].id == id);
        lemma_idx_of_id(s.drop_first(), id);
        assert forall|k: int| 0 <= k < idx_of_id(s, id) implies s[k].id != id by {
            if k > 0 {
                assert(s.drop_first()[k - 1] == s[k]);
            }
        }
    }
}

/// The summary's `last_id` names the largest identifier present: it belongs
/// to some task of a non-empty sequence, and no task exceeds it.
pub proof fn lemma_max_id_is_max(s: Seq<TaskView>)
    ensures
        s.len() > 0 ==> has_id(s, max_id(s)),
        forall|i: int| 0 <= i < s.len() ==> s[i].id <= max_id(s),
    decreases s.len(),
{
    if s.len() > 0 {
        lemma_max_id_is_max(s.drop_last());
        let m = max_id(s.drop_last());
        if s.last().id > m {
            assert(s[s.len() - 1].id == max_id(s));
        } else if s.len() > 1 {
            let w = choose|i: int| 0 <= i < s.drop_last().len() && s.drop_last()[i].id == m;
            assert(s[w].id == max_id(s));
        }
        assert forall|i: int| 0 <= i < s.len() implies s[i].id <= max_id(s) by {
            if i < s.len() - 1 {
                assert(s.drop_last()[i] == s[i]);
            }
        }
    }
}

/// Removing an element keeps the remaining identifiers distinct.
pub proof fn lemma_remove_keeps_distinct(s: Seq<TaskView>, i: int)
    requires
        ids_distinct(s),
        0 <= i < s.len(),
    ensures
        ids_distinct(s.remove(i)),
{
    let s2 = s.remove(i);
    assert forall|p: int, q: int| 0 <= p < q < s2.len() implies s2[p].id != s2[q].id by {
        let p0: int = if p < i { p } else { p + 1 };
        let q0: int = if q < i { q } else { q + 1 };
        assert(s2[p] == s[p0]);
        assert(s2[q] == s[q0]);
    }
}

/// Deleting a task removes its identifier from the collection, so a second
/// delete of the same identifier reports `NotFound`.
pub proof fn lemma_removed_id_absent(s: Seq<TaskView>, id: u32)
    requires
        ids_distinct(s),
        has_id(s, id),
    ensures
        !has_id(s.remove(idx_of_id(s, id)), id),
{
    lemma_idx_of_id(s, id);
    let i = idx_of_id(s, id);
    let s2 = s.remove(i);
    assert forall|j: int| 0 <= j < s2.len() implies s2[j].id != id by {
        if j < i {
            assert(s2[j] == s[j]);
        } else {
            assert(s2[j] == s[j + 1]);
        }
    }
}

} // verus!
