//! Session persistence and live resource usage for tmux sessions.
//!
//! The library holds the rules: what a snapshot of the running sessions is, which tmux
//! commands rebuild one, when the machine counts as rebooted, who may hold the saver's lock,
//! which processes belong to which session and how the usage screen shows them. Running
//! commands, reading files and drawing are left to the program around it.

pub mod persist;
pub mod text;
pub mod usage;
