pub mod exercises;
pub mod report;
pub mod words;
