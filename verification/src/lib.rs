use vstd::prelude::*;

pub mod seqs;
pub mod text;
pub mod utils;
pub mod args;
pub mod parse;
pub mod crawl;
pub mod download;
pub mod ytdlp;
pub mod backend;
pub mod channel;
pub mod queue;
pub mod option;
pub mod edit;
pub mod options;
pub mod keys;
pub mod log;
pub mod rule;
pub mod state;
pub mod board;
pub mod commands;
pub mod settings;
pub mod theme;
pub mod help;

verus! {

} // verus!
