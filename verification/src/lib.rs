//! ferroscan — a fast, safety-first network scanner for authorized defensive
//! assessments: target, port and scope parsing, scope enforcement, probe
//! decisions and report assembly, each with a machine-checked contract.

pub mod cli;
pub mod config;
pub mod discovery;
pub mod error;
pub mod net;
pub mod net_text;
pub mod render;
pub mod report;
pub mod runner;
pub mod scanner;
pub mod text;
