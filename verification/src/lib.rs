//! Core logic of a flashcard-study application: a message-driven controller
//! for the folder list of a study set, weighted random flashcard selection,
//! and delimiter-based bulk import parsing.

pub mod folders;
pub mod models;
pub mod text;
pub mod utils;
