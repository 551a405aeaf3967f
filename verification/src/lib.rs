//! Finds duplicate and visually similar pictures.

pub mod text;
pub mod union_find;
pub mod dhash;
pub mod grouping;
pub mod entry;
pub mod digest;
pub mod cache;
pub mod similar;
pub mod duplicates;
pub mod order;
pub mod keep;
pub mod size;
pub mod report;
pub mod html;
pub mod output;
pub mod remove;
pub mod server;
pub mod cli;
pub mod nas;
pub mod flow;
pub mod run;
pub mod history;
pub mod outcome;
