//! The decisions around the database file itself: who may remove it, what
//! removing it reports, and whether an existing file has a schema that the
//! program can work with.
use vstd::prelude::*;

use crate::error::{app_err_str, fails_with, CmdError};
use crate::task::str_eq;
use crate::text::{append_str, chars_of};

verus! {

/// `w` occurs in `s` as a run of consecutive characters.
pub open spec fn has_substring(s: Seq<char>, w: Seq<char>) -> bool {
    exists|i: int| 0 <= i && i + w.len() <= s.len() && #[trigger] s.subrange(i, i + w.len()) == w
}

/// Whether `w` occurs in `s`.
pub fn contains_str(s: &str, w: &str) -> (r: bool)
    ensures
        r == has_substring(s@, w@),
{
    let sv = chars_of(s);
    let wv = chars_of(w);
    let n = sv.len();
    let m = wv.len();
    if m > n {
        return false;
    }
    let mut i: usize = 0;
    while i <= n - m
        invariant
            sv@ == s@,
            wv@ == w@,
            n == sv@.len(),
            m == wv@.len(),
            m <= n,
            i <= n - m + 1,
            forall|k: int| 0 <= k < i ==> #[trigger] sv@.subrange(k, k + m) != wv@,
        decreases n - m + 1 - i,
    {
        let mut j: usize = 0;
        let mut same = true;
        while j < m
            invariant
                n == sv@.len(),
                m == wv@.len(),
                i + m <= n,
                j <= m,
                same <==> forall|t: int| 0 <= t < j ==> sv@[i + t] == wv@[t],
            decreases m - j,
        {
            if sv[i + j] != wv[j] {
                same = false;
            }
            j = j + 1;
        }
        if same {
            assert(sv@.subrange(i as int, i + m) =~= wv@);
            return true;
        }
        assert(sv@.subrange(i as int, i + m) != wv@) by {
            let t = choose|t: int| 0 <= t < m && sv@[i + t] != wv@[t];
            if sv@.subrange(i as int, i + m) == wv@ {
                assert(sv@.subrange(i as int, i + m)[t] == sv@[i + t]);
            }
        }
        i = i + 1;
    }
    false
}

/// Whether one of `names` is `name`.
pub fn lists_name(names: &Vec<String>, name: &str) -> (r: bool)
    ensures
        r == exists|k: int| 0 <= k < names@.len() && (#[trigger] names@[k])@ == name@,
{
    let mut k: usize = 0;
    while k < names.len()
        invariant
            k <= names@.len(),
            forall|q: int| 0 <= q < k ==> (#[trigger] names@[q])@ != name@,
        decreases names@.len() - k,
    {
        if str_eq(names[k].as_str(), name) {
            return true;
        }
        k = k + 1;
    }
    false
}

/// The message given to a user without root privileges who asks for
/// `clear`.
pub open spec fn not_root_msg() -> Seq<char> {
    "clear requires system root privileges (effective uid 0)"@
}

/// `clear` is allowed only to the system's root: the effective user id
/// `euid` of the process must be 0; any other is a `forbidden` error.
pub fn require_system_root(euid: u32) -> (r: Result<(), CmdError>)
    ensures
        euid == 0 ==> r is Ok,
        euid != 0 ==> fails_with(r, "forbidden"@, not_root_msg()),
{
    if euid == 0 {
        Ok(())
    } else {
        Err(app_err_str("forbidden", "clear requires system root privileges (effective uid 0)"))
    }
}

/// What `clear` reports: that it removed the file at `path`, or that there
/// was none to remove.
pub open spec fn clear_report(removed: bool, path: Seq<char>) -> Seq<char> {
    if removed {
        "cleared all data by removing "@ + path
    } else {
        "database already absent at "@ + path
    }
}

/// The line that `clear` prints, given whether the file at `path` existed
/// and was removed.
pub fn clear_line(removed: bool, path: &str) -> (s: String)
    ensures
        s@ == clear_report(removed, path@),
{
    let mut s = String::new();
    if removed {
        append_str(&mut s, "cleared all data by removing ");
    } else {
        append_str(&mut s, "database already absent at ");
    }
    append_str(&mut s, path);
    s
}

/// The advice that ends each refusal of an old schema.
pub open spec fn remove_advice() -> Seq<char> {
    "; remove ~/.blackboard/blackboard.db"@
}

/// A list of column names holds `name`.
pub open spec fn has_column(columns: Seq<String>, name: Seq<char>) -> bool {
    exists|k: int| 0 <= k < columns.len() && (#[trigger] columns[k])@ == name
}

/// The verdict on an existing file's schema, from the text that created
/// its permission table (`None` when there is no such table) and the
/// column names of its `tasks` and `board_members` tables: `Ok(true)` when
/// it can be used once the `size` column is added to `tasks`, `Ok(false)`
/// when it can be used as it is, and a `schema` error for the first thing
/// that it lacks or still has from an older layout.
pub open spec fn schema_verdict(
    permission_sql: Option<Seq<char>>,
    task_columns: Seq<String>,
    member_columns: Seq<String>,
) -> Result<bool, Seq<char>> {
    match permission_sql {
        None => Err("table 'board_member_permissions' is missing"@),
        Some(sql) => if !has_substring(sql, "delete_board"@) {
            Err(
                "unsupported schema detected: board_member_permissions is missing delete_board permission"@
                    + remove_advice(),
            )
        } else if has_column(task_columns, "kind"@) {
            Err("unsupported legacy schema detected: tasks.kind still exists"@ + remove_advice())
        } else if has_column(member_columns, "role_id"@) {
            Err(
                "unsupported legacy schema detected: board_members.role_id still exists"@
                    + remove_advice(),
            )
        } else {
            Ok(!has_column(task_columns, "size"@))
        },
    }
}

/// Checks an existing file's schema (see [`schema_verdict`]): returns
/// whether the `size` column must be added to `tasks`, or the `schema`
/// error that refuses the file.
pub fn check_schema(
    permission_sql: Option<String>,
    task_columns: &Vec<String>,
    member_columns: &Vec<String>,
) -> (r: Result<bool, CmdError>)
    ensures
        match schema_verdict(
            match permission_sql {
                Some(s) => Some(s@),
                None => None,
            },
            task_columns@,
            member_columns@,
        ) {
            Ok(add_size) => r == Ok::<bool, CmdError>(add_size),
            Err(msg) => fails_with(r, "schema"@, msg),
        },
{
    proof {
        reveal_strlit("delete_board");
        reveal_strlit("kind");
        reveal_strlit("role_id");
        reveal_strlit("size");
        reveal_strlit("; remove ~/.blackboard/blackboard.db");
        reveal_strlit("unsupported schema detected: board_member_permissions is missing delete_board permission");
        reveal_strlit("unsupported schema detected: board_member_permissions is missing delete_board permission; remove ~/.blackboard/blackboard.db");
        reveal_strlit("unsupported legacy schema detected: tasks.kind still exists");
        reveal_strlit("unsupported legacy schema detected: tasks.kind still exists; remove ~/.blackboard/blackboard.db");
        reveal_strlit("unsupported legacy schema detected: board_members.role_id still exists");
        reveal_strlit("unsupported legacy schema detected: board_members.role_id still exists; remove ~/.blackboard/blackboard.db");
        assert("unsupported schema detected: board_member_permissions is missing delete_board permission"@
            + remove_advice() =~= "unsupported schema detected: board_member_permissions is missing delete_board permission; remove ~/.blackboard/blackboard.db"@);
        assert("unsupported legacy schema detected: tasks.kind still exists"@ + remove_advice()
            =~= "unsupported legacy schema detected: tasks.kind still exists; remove ~/.blackboard/blackboard.db"@);
        assert("unsupported legacy schema detected: board_members.role_id still exists"@
            + remove_advice() =~= "unsupported legacy schema detected: board_members.role_id still exists; remove ~/.blackboard/blackboard.db"@);
    }
    let sql = match permission_sql {
        None => {
            return Err(app_err_str("schema", "table 'board_member_permissions' is missing"));
        },
        Some(s) => s,
    };
    if !contains_str(sql.as_str(), "delete_board") {
        return Err(
            app_err_str(
                "schema",
                "unsupported schema detected: board_member_permissions is missing delete_board permission; remove ~/.blackboard/blackboard.db",
            ),
        );
    }
    if lists_name(task_columns, "kind") {
        return Err(
            app_err_str(
                "schema",
                "unsupported legacy schema detected: tasks.kind still exists; remove ~/.blackboard/blackboard.db",
            ),
        );
    }
    if lists_name(member_columns, "role_id") {
        return Err(
            app_err_str(
                "schema",
                "unsupported legacy schema detected: board_members.role_id still exists; remove ~/.blackboard/blackboard.db",
            ),
        );
    }
    Ok(!lists_name(task_columns, "size"))
}

} // verus!
