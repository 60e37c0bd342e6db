//! A personal task list: tasks with a priority and a three-state lifecycle,
//! kept in a store that lists them by descending priority.

pub mod command;
pub mod highlight;
pub mod listing;
pub mod style;
pub mod tags;
pub mod task;
pub mod tasklist;
pub mod utils;

pub use crate::command::{perform, Command, Outcome};
pub use crate::tags::Tags;
pub use crate::task::{InvalidTransition, Status, Task};
pub use crate::tasklist::{StoreError, TaskList};
