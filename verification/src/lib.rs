//! A Raft-backed key-value store: consensus core, durable log format, state
//! machine, configuration rules and deterministic simulator.

pub mod cli;
pub mod cli_laws;
pub mod codec;
pub mod config;
pub mod config_files;
pub mod config_laws;
pub mod config_reports;
pub mod error;
pub mod issue;
pub mod kv;
pub mod maps;
pub mod raft;
pub mod rng;
pub mod seqs;
pub mod sim;
pub mod text;
pub mod text_laws;
pub mod validation;
