//! The core of a local, offline application that teaches by a program of
//! study: it checks the program's bundle, orders its topics, renders it to
//! Markdown, and builds the prompts of the exam.
pub mod graph;
pub mod history;
pub mod hours;
pub mod notes;
pub mod program;
pub mod progress;
pub mod roadmap;
pub mod stage;
pub mod text;
pub mod topic;
pub mod archive;
pub mod block;
pub mod bundle;
pub mod date;
pub mod exam;
pub mod export;
pub mod generate;
