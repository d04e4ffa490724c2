//! A task list kept in a plain text file, one task on each line.
//!
//! The library holds the rules of the list: the record grammar of a line,
//! the format of the file, the commands on the list in memory and the write
//! that each of them plans. Reading and writing the file, printing and
//! running an editor are left to the caller.

pub mod edit;
pub mod error;
pub mod line;
pub mod location;
pub mod number;
pub mod render;
pub mod store;
pub mod text;
pub mod usage;

pub use edit::EditRequest;
pub use error::{Command, StoreError, Usage};
pub use line::Task;
pub use store::{Todo, WritePlan};
pub use usage::help;
