//! A terminal checklist's core: tasks, a selectable list with circular
//! navigation, and the line-oriented text format the list is stored in.

pub mod app_state;
pub mod codec;
pub mod stateful_list;
pub mod task;
