//! A personal task tracker engine: tasks with a status state machine,
//! priority ordering, dependency-based blocking, timer-based sleeping,
//! prefix-based identification, and a JSON persistence format.

pub mod codec;
pub mod search;
pub mod simple_duration;
pub mod task;
pub mod timefmt;
pub mod tasklist;
mod trusted;

pub use task::Task;
pub use task::TaskStatus;
pub use task::Timestamp;
