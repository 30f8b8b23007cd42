pub mod auth;
pub mod board;
pub mod cascade;
pub mod cli;
pub mod commands;
pub mod error;
pub mod graph;
pub mod laws;
pub mod models;
pub mod names;
pub mod poll;
pub mod store;
pub mod system;
pub mod task;
pub mod task_cmd;
pub mod text;
pub mod user;
pub mod utils;
pub mod wellformed;
