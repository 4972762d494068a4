//! Prompt assembly and what the library makes of the generator's replies: knowledge notes,
//! quizzes, hints and study sessions.
pub mod questions;
pub mod session;
pub mod quiz;
pub mod notes;
pub mod batch;
