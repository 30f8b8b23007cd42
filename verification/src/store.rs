//! The tables of a blackboard, held in memory.
use vstd::prelude::*;

use crate::error::CmdError;

verus! {

/// A row of `users`.
pub struct User {
    pub id: i64,
    pub name: String,
}

/// A row of `boards`.
pub struct Board {
    pub id: i64,
    pub name: String,
    pub owner_id: i64,
    pub created_at: i64,
}

/// A row of `board_members`.
pub struct Member {
    pub board_id: i64,
    pub user_id: i64,
}

/// A row of `board_member_permissions`.
pub struct Permission {
    pub board_id: i64,
    pub user_id: i64,
    pub action: String,
}

/// A row of `tasks`.
pub struct TaskRow {
    pub id: i64,
    pub board_id: i64,
    pub title: String,
    pub description: String,
    pub size: String,
    pub parent_id: Option<i64>,
    pub assignee_id: Option<i64>,
    pub status: String,
    pub created_by: Option<i64>,
    pub updated_by: Option<i64>,
    pub created_at: i64,
    pub updated_at: i64,
}

/// A row of `task_dependencies`: `task_id` depends on `depends_on`.
pub struct Dependency {
    pub task_id: i64,
    pub depends_on: i64,
}

/// A row of `task_notes`.
pub struct Note {
    pub id: i64,
    pub task_id: i64,
    pub author_id: Option<i64>,
    pub status: String,
    pub body: String,
    pub created_at: i64,
}

/// All tables of a blackboard. Each table is kept in the order of its rows'
/// ids (the order in which they were inserted).
pub struct Db {
    pub users: Vec<User>,
    pub boards: Vec<Board>,
    pub members: Vec<Member>,
    pub permissions: Vec<Permission>,
    pub tasks: Vec<TaskRow>,
    pub dependencies: Vec<Dependency>,
    pub notes: Vec<Note>,
}

/// What an operation hands back: the lines it reports.
pub struct Outcome {
    pub lines: Vec<String>,
}

/// `b` differs from `a` at most in its users.
pub open spec fn only_users_changed(a: Db, b: Db) -> bool {
    &&& b.boards@ == a.boards@
    &&& b.members@ == a.members@
    &&& b.permissions@ == a.permissions@
    &&& b.tasks@ == a.tasks@
    &&& b.dependencies@ == a.dependencies@
    &&& b.notes@ == a.notes@
}

/// `b` holds the same rows as `a`.
pub open spec fn same_tables(a: Db, b: Db) -> bool {
    &&& b.users@ == a.users@
    &&& only_users_changed(a, b)
}

impl Db {
    /// A blackboard with no rows.
    pub fn new() -> (db: Db)
        ensures
            db.users@.len() == 0,
            db.boards@.len() == 0,
            db.members@.len() == 0,
            db.permissions@.len() == 0,
            db.tasks@.len() == 0,
            db.dependencies@.len() == 0,
            db.notes@.len() == 0,
            crate::wellformed::well_formed(db),
            crate::wellformed::tables_keyed(db),
    {
        let db = Db {
            users: Vec::new(),
            boards: Vec::new(),
            members: Vec::new(),
            permissions: Vec::new(),
            tasks: Vec::new(),
            dependencies: Vec::new(),
            notes: Vec::new(),
        };
        proof {
            crate::wellformed::lemma_empty_well_formed(db);
        }
        db
    }
}

/// `i` is the first user named `name`.
pub open spec fn first_user_named(users: Seq<User>, name: Seq<char>, i: int) -> bool {
    &&& 0 <= i < users.len()
    &&& users[i].name@ == name
    &&& forall|j: int| 0 <= j < i ==> users[j].name@ != name
}

/// No user is named `name`.
pub open spec fn no_user_named(users: Seq<User>, name: Seq<char>) -> bool {
    forall|j: int| 0 <= j < users.len() ==> users[j].name@ != name
}

/// The id of the user named `name`, if there is one.
pub open spec fn user_id_named(users: Seq<User>, name: Seq<char>) -> Option<i64> {
    if no_user_named(users, name) {
        None
    } else {
        Some(users[choose|i: int| first_user_named(users, name, i)].id)
    }
}

proof fn lemma_first_user_unique(users: Seq<User>, name: Seq<char>, i: int, j: int)
    requires
        first_user_named(users, name, i),
        first_user_named(users, name, j),
    ensures
        i == j,
{
}

/// The index of the first user named `name`.
pub fn find_user_by_name(users: &Vec<User>, name: &String) -> (r: Option<usize>)
    ensures
        r matches Some(i) ==> first_user_named(users@, name@, i as int),
        r is None ==> no_user_named(users@, name@),
        r matches Some(i) ==> user_id_named(users@, name@) == Some(users@[i as int].id),
        r is None ==> user_id_named(users@, name@) is None,
{
    let mut i: usize = 0;
    while i < users.len()
        invariant
            i <= users.len(),
            forall|j: int| 0 <= j < i ==> users@[j].name@ != name@,
        decreases users.len() - i,
    {
        if users[i].name == *name {
            proof {
                let k = choose|k: int| first_user_named(users@, name@, k);
                assert(first_user_named(users@, name@, i as int));
                lemma_first_user_unique(users@, name@, i as int, k);
            }
            return Some(i);
        }
        i = i + 1;
    }
    None
}

/// Some user is the first of a name that some user has.
pub proof fn lemma_first_user_exists(users: Seq<User>, name: Seq<char>)
    requires
        !no_user_named(users, name),
    ensures
        exists|i: int| first_user_named(users, name, i),
    decreases users.len(),
{
    let d = users.drop_last();
    assert(forall|k: int| 0 <= k < d.len() ==> d[k] == users[k]);
    if no_user_named(d, name) {
        let j = choose|j: int| 0 <= j < users.len() && users[j].name@ == name;
        if j < users.len() - 1 {
            assert(d[j].name@ == name);
        }
        assert(first_user_named(users, name, j));
    } else {
        lemma_first_user_exists(d, name);
        let i = choose|i: int| first_user_named(d, name, i);
        assert(first_user_named(users, name, i));
    }
}

/// A user appended under a new name is the user of that name.
pub proof fn lemma_user_id_named_push(users: Seq<User>, u: User)
    requires
        no_user_named(users, u.name@),
    ensures
        user_id_named(users.push(u), u.name@) == Some(u.id),
        forall|n: Seq<char>| n != u.name@ ==> user_id_named(users.push(u), n) == user_id_named(users, n),
{
    let s = users.push(u);
    assert(first_user_named(s, u.name@, users.len() as int));
    let k = choose|k: int| first_user_named(s, u.name@, k);
    lemma_first_user_unique(s, u.name@, k, users.len() as int);
    assert forall|n: Seq<char>| n != u.name@ implies user_id_named(s, n) == user_id_named(users, n) by {
        if no_user_named(users, n) {
            assert(no_user_named(s, n));
        } else {
            lemma_first_user_exists(users, n);
            let i = choose|i: int| first_user_named(users, n, i);
            assert(first_user_named(s, n, i));
            let j = choose|j: int| first_user_named(s, n, j);
            lemma_first_user_unique(s, n, i, j);
        }
    }
}

/// `i` is the first user with id `id`.
pub open spec fn first_user_with_id(users: Seq<User>, id: i64, i: int) -> bool {
    &&& 0 <= i < users.len()
    &&& users[i].id == id
    &&& forall|j: int| 0 <= j < i ==> users[j].id != id
}

/// The name of the user with id `id`, if there is one.
pub open spec fn user_name_of(users: Seq<User>, id: i64) -> Option<Seq<char>> {
    if forall|j: int| 0 <= j < users.len() ==> users[j].id != id {
        None
    } else {
        Some(users[choose|i: int| first_user_with_id(users, id, i)].name@)
    }
}

/// The index of the first user with id `id`.
pub fn find_user_by_id(users: &Vec<User>, id: i64) -> (r: Option<usize>)
    ensures
        r matches Some(i) ==> first_user_with_id(users@, id, i as int),
        r matches Some(i) ==> user_name_of(users@, id) == Some(users@[i as int].name@),
        r is None ==> forall|j: int| 0 <= j < users@.len() ==> users@[j].id != id,
        r is None ==> user_name_of(users@, id) is None,
{
    let mut i: usize = 0;
    while i < users.len()
        invariant
            i <= users.len(),
            forall|j: int| 0 <= j < i ==> users@[j].id != id,
        decreases users.len() - i,
    {
        if users[i].id == id {
            proof {
                let k = choose|k: int| first_user_with_id(users@, id, k);
                assert(first_user_with_id(users@, id, i as int));
                assert(k == i);
            }
            return Some(i);
        }
        i = i + 1;
    }
    None
}

/// `i` is the first board named `name`.
pub open spec fn first_board_named(boards: Seq<Board>, name: Seq<char>, i: int) -> bool {
    &&& 0 <= i < boards.len()
    &&& boards[i].name@ == name
    &&& forall|j: int| 0 <= j < i ==> boards[j].name@ != name
}

/// No board is named `name`.
pub open spec fn no_board_named(boards: Seq<Board>, name: Seq<char>) -> bool {
    forall|j: int| 0 <= j < boards.len() ==> boards[j].name@ != name
}

/// Some board is the first with a name that some board has.
pub proof fn lemma_first_board_named_exists(boards: Seq<Board>, name: Seq<char>)
    requires
        !no_board_named(boards, name),
    ensures
        exists|i: int| first_board_named(boards, name, i),
    decreases boards.len(),
{
    let d = boards.drop_last();
    assert(forall|k: int| 0 <= k < d.len() ==> d[k] == boards[k]);
    if no_board_named(d, name) {
        let j = choose|j: int| 0 <= j < boards.len() && boards[j].name@ == name;
        if j < boards.len() - 1 {
            assert(d[j].name@ == name);
        }
        assert(first_board_named(boards, name, j));
    } else {
        lemma_first_board_named_exists(d, name);
        let i = choose|i: int| first_board_named(d, name, i);
        assert(first_board_named(boards, name, i));
    }
}

/// The index of the first board named `name`.
pub fn find_board_by_name(boards: &Vec<Board>, name: &String) -> (r: Option<usize>)
    ensures
        r matches Some(i) ==> first_board_named(boards@, name@, i as int),
        r is None ==> no_board_named(boards@, name@),
{
    let mut i: usize = 0;
    while i < boards.len()
        invariant
            i <= boards.len(),
            forall|j: int| 0 <= j < i ==> boards@[j].name@ != name@,
        decreases boards.len() - i,
    {
        if boards[i].name == *name {
            return Some(i);
        }
        i = i + 1;
    }
    None
}

/// `i` is the first board with id `id`.
pub open spec fn first_board_with_id(boards: Seq<Board>, id: i64, i: int) -> bool {
    &&& 0 <= i < boards.len()
    &&& boards[i].id == id
    &&& forall|j: int| 0 <= j < i ==> boards[j].id != id
}

/// No board has id `id`.
pub open spec fn no_board_with_id(boards: Seq<Board>, id: i64) -> bool {
    forall|j: int| 0 <= j < boards.len() ==> boards[j].id != id
}

/// Some board is the first with an id that some board has.
pub proof fn lemma_first_board_with_id_exists(boards: Seq<Board>, id: i64)
    requires
        !no_board_with_id(boards, id),
    ensures
        exists|i: int| first_board_with_id(boards, id, i),
    decreases boards.len(),
{
    let d = boards.drop_last();
    assert(forall|k: int| 0 <= k < d.len() ==> d[k] == boards[k]);
    if no_board_with_id(d, id) {
        let j = choose|j: int| 0 <= j < boards.len() && boards[j].id == id;
        if j < boards.len() - 1 {
            assert(d[j].id == id);
        }
        assert(first_board_with_id(boards, id, j));
    } else {
        lemma_first_board_with_id_exists(d, id);
        let i = choose|i: int| first_board_with_id(d, id, i);
        assert(first_board_with_id(boards, id, i));
    }
}

/// The owner of the board with id `id`, if there is such a board.
pub open spec fn board_owner(boards: Seq<Board>, id: i64) -> Option<i64> {
    if no_board_with_id(boards, id) {
        None
    } else {
        Some(boards[choose|i: int| first_board_with_id(boards, id, i)].owner_id)
    }
}

/// The index of the first board with id `id`.
pub fn find_board_by_id(boards: &Vec<Board>, id: i64) -> (r: Option<usize>)
    ensures
        r matches Some(i) ==> first_board_with_id(boards@, id, i as int),
        r matches Some(i) ==> board_owner(boards@, id) == Some(boards@[i as int].owner_id),
        r is None ==> no_board_with_id(boards@, id),
        r is None ==> board_owner(boards@, id) is None,
{
    let mut i: usize = 0;
    while i < boards.len()
        invariant
            i <= boards.len(),
            forall|j: int| 0 <= j < i ==> boards@[j].id != id,
        decreases boards.len() - i,
    {
        if boards[i].id == id {
            proof {
                let k = choose|k: int| first_board_with_id(boards@, id, k);
                assert(first_board_with_id(boards@, id, i as int));
                assert(k == i);
            }
            return Some(i);
        }
        i = i + 1;
    }
    None
}

/// `i` is the first task with id `id` on board `board_id`.
pub open spec fn first_task_in_board(tasks: Seq<TaskRow>, board_id: i64, id: i64, i: int) -> bool {
    &&& 0 <= i < tasks.len()
    &&& tasks[i].id == id
    &&& tasks[i].board_id == board_id
    &&& forall|j: int| 0 <= j < i ==> !(tasks[j].id == id && tasks[j].board_id == board_id)
}

/// Task `id` is on board `board_id`.
pub open spec fn task_in_board(tasks: Seq<TaskRow>, board_id: i64, id: i64) -> bool {
    exists|j: int| 0 <= j < tasks.len() && tasks[j].id == id && tasks[j].board_id == board_id
}

/// The index of task `id` on board `board_id`.
pub fn find_task_in_board(tasks: &Vec<TaskRow>, board_id: i64, id: i64) -> (r: Option<usize>)
    ensures
        r matches Some(i) ==> first_task_in_board(tasks@, board_id, id, i as int),
        r is Some <==> task_in_board(tasks@, board_id, id),
{
    let mut i: usize = 0;
    while i < tasks.len()
        invariant
            i <= tasks.len(),
            forall|j: int| 0 <= j < i ==> !(tasks@[j].id == id && tasks@[j].board_id == board_id),
        decreases tasks.len() - i,
    {
        if tasks[i].id == id && tasks[i].board_id == board_id {
            return Some(i);
        }
        i = i + 1;
    }
    None
}

/// The largest of the ids, or `0` when there are none.
pub open spec fn max_id(ids: Seq<i64>) -> int
    decreases ids.len(),
{
    if ids.len() == 0 {
        0
    } else {
        let m = max_id(ids.drop_last());
        if ids.last() > m {
            ids.last() as int
        } else {
            m
        }
    }
}

/// No id exceeds the largest, which is itself an `i64`.
pub proof fn lemma_max_id_bound(ids: Seq<i64>)
    ensures
        forall|k: int| 0 <= k < ids.len() ==> ids[k] <= max_id(ids),
        0 <= max_id(ids) <= i64::MAX,
    decreases ids.len(),
{
    if ids.len() > 0 {
        lemma_max_id_bound(ids.drop_last());
        assert forall|k: int| 0 <= k < ids.len() implies ids[k] <= max_id(ids) by {
            if k < ids.len() - 1 {
                assert(ids.drop_last()[k] == ids[k]);
            }
        }
    }
}

/// Ids that are all at most `m`, for `m >= 0`, have their largest at most `m`.
pub proof fn lemma_max_id_at_most(ids: Seq<i64>, m: int)
    requires
        0 <= m,
        forall|k: int| 0 <= k < ids.len() ==> #[trigger] ids[k] <= m,
    ensures
        max_id(ids) <= m,
    decreases ids.len(),
{
    if ids.len() > 0 {
        let d = ids.drop_last();
        assert forall|k: int| 0 <= k < d.len() implies #[trigger] d[k] <= m by {
            assert(d[k] == ids[k]);
        }
        lemma_max_id_at_most(d, m);
        assert(ids.last() == ids[ids.len() - 1]);
    }
}

/// The id that an insert gives a new row: one more than the largest id in
/// use, or `1` for an empty table. `None` when the largest id is `i64::MAX`.
pub fn next_id(ids: &Vec<i64>) -> (r: Option<i64>)
    ensures
        r matches Some(n) ==> n == max_id(ids@) + 1,
        r is None <==> max_id(ids@) + 1 > i64::MAX,
{
    let mut m: i64 = 0;
    let mut i: usize = 0;
    proof {
        assert(ids@.take(0) =~= Seq::<i64>::empty());
    }
    while i < ids.len()
        invariant
            i <= ids.len(),
            m == max_id(ids@.take(i as int)),
        decreases ids.len() - i,
    {
        assert(ids@.take(i + 1).drop_last() =~= ids@.take(i as int));
        if ids[i] > m {
            m = ids[i];
        }
        i = i + 1;
    }
    assert(ids@.take(ids.len() as int) =~= ids@);
    if m == i64::MAX {
        None
    } else {
        Some(m + 1)
    }
}

/// The ids of the users.
pub open spec fn user_ids(users: Seq<User>) -> Seq<i64> {
    users.map_values(|u: User| u.id)
}

/// The ids of the boards.
pub open spec fn board_ids(boards: Seq<Board>) -> Seq<i64> {
    boards.map_values(|b: Board| b.id)
}

/// The ids of the tasks.
pub open spec fn task_ids(tasks: Seq<TaskRow>) -> Seq<i64> {
    tasks.map_values(|t: TaskRow| t.id)
}

/// The ids of the notes.
pub open spec fn note_ids(notes: Seq<Note>) -> Seq<i64> {
    notes.map_values(|n: Note| n.id)
}

/// The id for a new user.
pub fn next_user_id(users: &Vec<User>) -> (r: Result<i64, CmdError>)
    ensures
        r matches Ok(n) ==> n == max_id(user_ids(users@)) + 1,
        r is Err <==> max_id(user_ids(users@)) + 1 > i64::MAX,
        r matches Err(e) ==> e is Store && e.text() == full_msg(),
{
    let mut ids: Vec<i64> = Vec::new();
    let mut i: usize = 0;
    while i < users.len()
        invariant
            i <= users.len(),
            ids@ == user_ids(users@.take(i as int)),
        decreases users.len() - i,
    {
        ids.push(users[i].id);
        assert(user_ids(users@.take(i + 1)) =~= user_ids(users@.take(i as int)).push(users@[i as int].id));
        i = i + 1;
    }
    assert(users@.take(users.len() as int) =~= users@);
    id_or_full(next_id(&ids))
}

/// The id for a new board.
pub fn next_board_id(boards: &Vec<Board>) -> (r: Result<i64, CmdError>)
    ensures
        r matches Ok(n) ==> n == max_id(board_ids(boards@)) + 1,
        r is Err <==> max_id(board_ids(boards@)) + 1 > i64::MAX,
        r matches Err(e) ==> e is Store && e.text() == full_msg(),
{
    let mut ids: Vec<i64> = Vec::new();
    let mut i: usize = 0;
    while i < boards.len()
        invariant
            i <= boards.len(),
            ids@ == board_ids(boards@.take(i as int)),
        decreases boards.len() - i,
    {
        ids.push(boards[i].id);
        assert(board_ids(boards@.take(i + 1)) =~= board_ids(boards@.take(i as int)).push(boards@[i as int].id));
        i = i + 1;
    }
    assert(boards@.take(boards.len() as int) =~= boards@);
    id_or_full(next_id(&ids))
}

/// The id for a new task.
pub fn next_task_id(tasks: &Vec<TaskRow>) -> (r: Result<i64, CmdError>)
    ensures
        r matches Ok(n) ==> n == max_id(task_ids(tasks@)) + 1,
        r is Err <==> max_id(task_ids(tasks@)) + 1 > i64::MAX,
        r matches Err(e) ==> e is Store && e.text() == full_msg(),
{
    let mut ids: Vec<i64> = Vec::new();
    let mut i: usize = 0;
    while i < tasks.len()
        invariant
            i <= tasks.len(),
            ids@ == task_ids(tasks@.take(i as int)),
        decreases tasks.len() - i,
    {
        ids.push(tasks[i].id);
        assert(task_ids(tasks@.take(i + 1)) =~= task_ids(tasks@.take(i as int)).push(tasks@[i as int].id));
        i = i + 1;
    }
    assert(tasks@.take(tasks.len() as int) =~= tasks@);
    id_or_full(next_id(&ids))
}

/// The id for a new note.
pub fn next_note_id(notes: &Vec<Note>) -> (r: Result<i64, CmdError>)
    ensures
        r matches Ok(n) ==> n == max_id(note_ids(notes@)) + 1,
        r is Err <==> max_id(note_ids(notes@)) + 1 > i64::MAX,
        r matches Err(e) ==> e is Store && e.text() == full_msg(),
{
    let mut ids: Vec<i64> = Vec::new();
    let mut i: usize = 0;
    while i < notes.len()
        invariant
            i <= notes.len(),
            ids@ == note_ids(notes@.take(i as int)),
        decreases notes.len() - i,
    {
        ids.push(notes[i].id);
        assert(note_ids(notes@.take(i + 1)) =~= note_ids(notes@.take(i as int)).push(notes@[i as int].id));
        i = i + 1;
    }
    assert(notes@.take(notes.len() as int) =~= notes@);
    id_or_full(next_id(&ids))
}

fn id_or_full(r: Option<i64>) -> (res: Result<i64, CmdError>)
    ensures
        r matches Some(n) ==> res == Ok::<i64, CmdError>(n),
        r is None ==> (res matches Err(e) && e is Store && e.text() == full_msg()),
{
    match r {
        Some(n) => Ok(n),
        None => Err(CmdError::Store(full_message())),
    }
}

/// The error text of the storage engine for a table whose ids are used up.
pub open spec fn full_msg() -> Seq<char> {
    "database or disk is full"@
}

/// The error text for a table whose ids are used up.
fn full_message() -> (s: String)
    ensures
        s@ == full_msg(),
{
    let mut s = String::new();
    crate::text::append_str(&mut s, "database or disk is full");
    s
}

} // verus!
