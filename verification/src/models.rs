//! A task as the task commands show it.
use vstd::prelude::*;

verus! {

/// A task with the name of its assignee.
pub struct Task {
    pub id: i64,
    pub title: String,
    pub description: String,
    pub size: String,
    pub parent_id: Option<i64>,
    pub assignee_id: Option<i64>,
    pub assignee_name: Option<String>,
    pub status: String,
}

} // verus!
