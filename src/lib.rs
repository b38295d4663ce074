//! A personal task tracker's core: folder paths, the folder tree built from a
//! flat list of tasks, its depth-bounded rendering, and the decisions behind
//! the add, delete, list and update commands.

pub mod text;
pub mod path;
pub mod error;
pub mod task;
pub mod folder;
pub mod render;
pub mod listing;
pub mod ids;
pub mod commands;
pub mod laws;
