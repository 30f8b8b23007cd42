//! Deleting tasks as the tables' foreign keys do: a deleted task takes its
//! subtasks, its dependency rows and its notes with it.
use vstd::prelude::*;

use crate::store::{Db, Dependency, Note, TaskRow};

verus! {

/// Some marked task has id `id`.
pub open spec fn marked_id(tasks: Seq<TaskRow>, marks: Seq<bool>, id: i64) -> bool {
    exists|j: int| 0 <= j < tasks.len() && j < marks.len() && marks[j] && #[trigger] tasks[j].id == id
}

/// The task at `i` has a marked parent.
pub open spec fn has_marked_parent(tasks: Seq<TaskRow>, marks: Seq<bool>, i: int) -> bool {
    tasks[i].parent_id matches Some(p) && marked_id(tasks, marks, p)
}

/// Whether some marked task has id `id`.
pub fn is_marked_id(tasks: &Vec<TaskRow>, marks: &Vec<bool>, id: i64) -> (r: bool)
    requires
        marks@.len() == tasks@.len(),
    ensures
        r == marked_id(tasks@, marks@, id),
{
    let mut j: usize = 0;
    while j < tasks.len()
        invariant
            j <= tasks@.len(),
            marks@.len() == tasks@.len(),
            forall|k: int| 0 <= k < j ==> !(marks@[k] && tasks@[k].id == id),
        decreases tasks@.len() - j,
    {
        if marks[j] && tasks[j].id == id {
            return true;
        }
        j = j + 1;
    }
    false
}

/// The number of `false` entries of `s`.
pub open spec fn count_false(s: Seq<bool>) -> nat
    decreases s.len(),
{
    if s.len() == 0 {
        0
    } else {
        count_false(s.drop_last()) + if s.last() {
            0nat
        } else {
            1nat
        }
    }
}

proof fn lemma_count_false_set(s: Seq<bool>, k: int)
    requires
        0 <= k < s.len(),
        !s[k],
    ensures
        count_false(s.update(k, true)) + 1 == count_false(s),
    decreases s.len(),
{
    let t = s.update(k, true);
    if k == s.len() - 1 {
        assert(t.drop_last() =~= s.drop_last());
    } else {
        assert(t.drop_last() =~= s.drop_last().update(k, true));
        lemma_count_false_set(s.drop_last(), k);
    }
}

/// Extends the marks to every task below a marked task: the result keeps
/// every mark, is closed under "the parent is marked", and marks a task
/// only when it was marked or its parent is marked.
pub fn close_marks(tasks: &Vec<TaskRow>, marks: Vec<bool>) -> (r: Vec<bool>)
    requires
        marks@.len() == tasks@.len(),
    ensures
        r@.len() == tasks@.len(),
        forall|i: int| 0 <= i < tasks@.len() && marks@[i] ==> r@[i],
        forall|i: int| 0 <= i < tasks@.len() && has_marked_parent(tasks@, r@, i) ==> r@[i],
        forall|i: int|
            0 <= i < tasks@.len() && r@[i] ==> marks@[i] || has_marked_parent(tasks@, r@, i),
{
    let ghost m0 = marks@;
    let mut m = marks;
    let mut changed = true;
    while changed
        invariant
            m0 == marks@,
            m@.len() == tasks@.len(),
            forall|i: int| 0 <= i < tasks@.len() && m0[i] ==> m@[i],
            forall|i: int|
                0 <= i < tasks@.len() && m@[i] ==> m0[i] || has_marked_parent(tasks@, m@, i),
            !changed ==> forall|i: int|
                0 <= i < tasks@.len() && has_marked_parent(tasks@, m@, i) ==> m@[i],
        decreases count_false(m@) + (if changed {
            1nat
        } else {
            0nat
        }),
    {
        changed = false;
        let ghost start = m@;
        let mut k: usize = 0;
        while k < tasks.len()
            invariant
                k <= tasks@.len(),
                m@.len() == tasks@.len(),
                start.len() == tasks@.len(),
                forall|i: int| 0 <= i < tasks@.len() && start[i] ==> m@[i],
                forall|i: int| 0 <= i < tasks@.len() && m0[i] ==> m@[i],
                forall|i: int|
                    0 <= i < tasks@.len() && m@[i] ==> m0[i] || has_marked_parent(tasks@, m@, i),
                !changed ==> m@ == start,
                !changed ==> forall|i: int|
                    0 <= i < k && has_marked_parent(tasks@, m@, i) ==> m@[i],
                changed ==> count_false(m@) < count_false(start),
            decreases tasks@.len() - k,
        {
            if !m[k] {
                match tasks[k].parent_id {
                    Some(p) => {
                        if is_marked_id(tasks, &m, p) {
                            let ghost before = m@;
                            m.set(k, true);
                            proof {
                                lemma_count_false_set(before, k as int);
                                assert forall|i: int|
                                    0 <= i < tasks@.len() && m@[i] implies m0[i]
                                    || has_marked_parent(tasks@, m@, i) by {
                                    if i != k {
                                        assert(before[i]);
                                        if !m0[i] {
                                            let q = tasks@[i].parent_id->0;
                                            let j = choose|j: int|
                                                0 <= j < tasks@.len() && j < before.len()
                                                    && before[j] && #[trigger] tasks@[j].id == q;
                                            assert(m@[j]);
                                        }
                                    } else {
                                        let j = choose|j: int|
                                            0 <= j < tasks@.len() && j < before.len() && before[j]
                                                && #[trigger] tasks@[j].id == p;
                                        assert(m@[j]);
                                    }
                                }
                            }
                            changed = true;
                        }
                    },
                    None => {},
                }
            }
            k = k + 1;
        }
    }
    m
}

/// The tasks at unmarked positions, in order.
pub open spec fn unmarked_tasks(tasks: Seq<TaskRow>, marks: Seq<bool>) -> Seq<TaskRow>
    decreases tasks.len(),
{
    if tasks.len() == 0 {
        Seq::<TaskRow>::empty()
    } else {
        let prev = unmarked_tasks(tasks.drop_last(), marks);
        if marks[tasks.len() - 1] {
            prev
        } else {
            prev.push(tasks.last())
        }
    }
}

/// Keeps the dependency rows that touch no marked task.
pub open spec fn dep_survives(tasks: Seq<TaskRow>, marks: Seq<bool>) -> spec_fn(Dependency) -> bool {
    |d: Dependency| !marked_id(tasks, marks, d.task_id) && !marked_id(tasks, marks, d.depends_on)
}

/// Keeps the notes of unmarked tasks.
pub open spec fn note_survives(tasks: Seq<TaskRow>, marks: Seq<bool>) -> spec_fn(Note) -> bool {
    |n: Note| !marked_id(tasks, marks, n.task_id)
}

/// A copy of a task row.
pub fn copy_task(t: &TaskRow) -> (r: TaskRow)
    ensures
        r == *t,
{
    TaskRow {
        id: t.id,
        board_id: t.board_id,
        title: t.title.clone(),
        description: t.description.clone(),
        size: t.size.clone(),
        parent_id: t.parent_id,
        assignee_id: t.assignee_id,
        status: t.status.clone(),
        created_by: t.created_by,
        updated_by: t.updated_by,
        created_at: t.created_at,
        updated_at: t.updated_at,
    }
}

/// A copy of a note.
pub fn copy_note(n: &Note) -> (r: Note)
    ensures
        r == *n,
{
    Note {
        id: n.id,
        task_id: n.task_id,
        author_id: n.author_id,
        status: n.status.clone(),
        body: n.body.clone(),
        created_at: n.created_at,
    }
}

/// Removes the marked tasks, with the dependency rows and notes that refer
/// to them.
pub fn remove_marked(db: &mut Db, marks: &Vec<bool>)
    requires
        marks@.len() == old(db).tasks@.len(),
    ensures
        final(db).tasks@ == unmarked_tasks(old(db).tasks@, marks@),
        final(db).dependencies@ == old(db).dependencies@.filter(dep_survives(old(db).tasks@, marks@)),
        final(db).notes@ == old(db).notes@.filter(note_survives(old(db).tasks@, marks@)),
        final(db).users@ == old(db).users@,
        final(db).boards@ == old(db).boards@,
        final(db).members@ == old(db).members@,
        final(db).permissions@ == old(db).permissions@,
{
    let ghost tasks0 = db.tasks@;
    let mut tasks: Vec<TaskRow> = Vec::new();
    let mut i: usize = 0;
    assert(db.tasks@.take(0) =~= Seq::<TaskRow>::empty());
    while i < db.tasks.len()
        invariant
            i <= db.tasks@.len(),
            marks@.len() == db.tasks@.len(),
            tasks@ == unmarked_tasks(db.tasks@.take(i as int), marks@),
        decreases db.tasks@.len() - i,
    {
        assert(db.tasks@.take(i + 1).drop_last() =~= db.tasks@.take(i as int));
        if !marks[i] {
            tasks.push(copy_task(&db.tasks[i]));
        }
        i = i + 1;
    }
    assert(db.tasks@.take(db.tasks@.len() as int) =~= db.tasks@);
    let ghost dpred = dep_survives(tasks0, marks@);
    let mut deps: Vec<Dependency> = Vec::new();
    let mut k: usize = 0;
    assert(db.dependencies@.take(0) =~= Seq::<Dependency>::empty());
    while k < db.dependencies.len()
        invariant
            k <= db.dependencies@.len(),
            marks@.len() == db.tasks@.len(),
            tasks0 == db.tasks@,
            dpred == dep_survives(tasks0, marks@),
            deps@ == db.dependencies@.take(k as int).filter(dpred),
        decreases db.dependencies@.len() - k,
    {
        reveal_with_fuel(Seq::<_>::filter, 1);
        assert(db.dependencies@.take(k + 1).drop_last() =~= db.dependencies@.take(k as int));
        let d = &db.dependencies[k];
        if !is_marked_id(&db.tasks, marks, d.task_id) && !is_marked_id(&db.tasks, marks, d.depends_on) {
            deps.push(Dependency { task_id: d.task_id, depends_on: d.depends_on });
        }
        k = k + 1;
    }
    assert(db.dependencies@.take(db.dependencies@.len() as int) =~= db.dependencies@);
    let ghost npred = note_survives(tasks0, marks@);
    let mut notes: Vec<Note> = Vec::new();
    let mut k: usize = 0;
    assert(db.notes@.take(0) =~= Seq::<Note>::empty());
    while k < db.notes.len()
        invariant
            k <= db.notes@.len(),
            marks@.len() == db.tasks@.len(),
            tasks0 == db.tasks@,
            npred == note_survives(tasks0, marks@),
            notes@ == db.notes@.take(k as int).filter(npred),
        decreases db.notes@.len() - k,
    {
        reveal_with_fuel(Seq::<_>::filter, 1);
        assert(db.notes@.take(k + 1).drop_last() =~= db.notes@.take(k as int));
        let n = &db.notes[k];
        if !is_marked_id(&db.tasks, marks, n.task_id) {
            notes.push(copy_note(n));
        }
        k = k + 1;
    }
    assert(db.notes@.take(db.notes@.len() as int) =~= db.notes@);
    db.tasks = tasks;
    db.dependencies = deps;
    db.notes = notes;
}

} // verus!
