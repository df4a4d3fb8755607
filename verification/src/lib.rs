//! Analysis of sampling profiles for a profiler tool server.
//!
//! A resolved profile is a list of threads, each with its samples and their call stacks. The
//! library answers the questions that the server's tools ask of a profile: which thread to look
//! at, which functions cost most, how the time is spread over the call tree, who calls a function
//! and whom it calls, and which markers a thread carries.

pub mod binary64;
pub mod cache;
pub mod call_tree;
pub mod detail;
pub mod neighbours;
pub mod order;
pub mod profile;
pub mod requests;
pub mod results;
pub mod server;
pub mod text;
pub mod threads;
pub mod tools;
