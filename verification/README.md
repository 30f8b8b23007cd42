# blackboard

A command-line task board for people and agents: users, boards with
per-member permissions, tasks with sizes, parents, dependencies, statuses and
post notes, kept in a SQLite file under `~/.blackboard/`.

The rules of the board are a library verified with Verus:

- `src/store.rs` holds the tables in memory;
- `src/user.rs`, `src/board.rs` and `src/task_cmd.rs` are the commands, each
  with a contract (`*_outcome`) over the tables before and after;
- `src/auth.rs` decides who may do what on a board; `src/task.rs` holds the
  task rules (dependencies without cycles, parent chains, notes, large tasks
  that follow their subtasks), `src/graph.rs` reachability, and
  `src/cascade.rs` the removal of a task with everything below it;
- `src/wellformed.rs` states what every command keeps: task ids used once and in increasing order,
  dependency rows and parents that belong to tasks, no cycle among the
  dependencies of a board, and parent chains that end; beside it, board rows
  in increasing order of id with each membership once (`tables_keyed`), and
  every large task in step with its subtasks (`large_tasks_consistent`,
  which a manual status of a large task may leave behind for that task
  alone); `src/names.rs` shows that user names and board names stay unique;
- `src/commands.rs` runs one command line on the tables; `src/poll.rs` holds
  the decisions of `board poll`; `src/system.rs` those around the database
  file (who may `clear` it, and whether an existing schema can be used);
  `src/utils.rs` and `src/text.rs` the parsing and formatting.

`app/` is the program around the library: the command-line parser, the
SQLite file (schema; reading the tables and storing those that a command
leaves, in one transaction), removing the file for `clear`, and the loop of
`board poll`.

`tests/` runs the command flows and the exact outputs against the tables in
memory.
