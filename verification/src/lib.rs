//! The decisions behind a local continuous tester.

pub mod assoc;
pub mod cli;
pub mod config;
pub mod dag;
pub mod database;
pub mod digest;
pub mod git;
pub mod graph;
pub mod history;
pub mod http;
pub mod ident;
pub mod job;
pub mod manager;
pub mod once;
pub mod pool;
pub mod process;
pub mod resource;
pub mod result;
pub mod status;
pub mod strings;
pub mod terminal;
pub mod test;
pub mod text;
pub mod ui;
pub mod util;
