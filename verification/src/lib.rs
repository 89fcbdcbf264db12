//! The scheduling core of a task-graph runner: a directed acyclic graph
//! that is visited in dependency order, and the decisions of the executors
//! that run its tasks.

pub mod keys;
pub mod structs;
pub mod messages;
pub mod dag;
pub mod executors;
pub mod storage;
