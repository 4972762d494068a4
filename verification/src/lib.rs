pub mod text;
pub mod syllabus;
pub mod paths;
pub mod time;
pub mod order;
pub mod study;
pub mod quiz;
pub mod progress;
pub mod knowledge;
pub mod generate;
pub mod agy;
pub mod screens;
