//! Parsing and decision logic of a tool that frees network ports by
//! signalling the processes that listen on them.

pub mod text;
pub mod number;
pub mod port;
pub mod kill;
pub mod procfs;
pub mod report;
