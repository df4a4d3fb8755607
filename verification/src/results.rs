//! What the tools answer.

use vstd::prelude::*;

use crate::binary64::Binary64;

verus! {

#[derive(Debug)]
pub struct ProfileInfoResult {
    pub product: String,
    pub duration_ms: Binary64,
    pub total_samples: usize,
    pub thread_count: usize,
    pub interval_ms: Binary64,
    pub categories: Vec<String>,
}

#[derive(Debug)]
pub struct ThreadInfo {
    pub name: String,
    pub tid: String,
    pub sample_count: usize,
    pub duration_ms: Binary64,
    pub is_main: bool,
}

#[derive(Debug)]
pub struct ProfileThreadsResult {
    pub threads: Vec<ThreadInfo>,
}

/// One row of a function listing. The quantities are not rounded yet.
#[derive(Debug)]
pub struct FunctionRow {
    pub name: String,
    pub self_percent: Binary64,
    pub total_percent: Binary64,
    pub self_time_ms: Binary64,
    pub total_time_ms: Binary64,
    pub sample_count: usize,
    pub library: Option<String>,
}

#[derive(Debug)]
pub struct TopFunctionsResult {
    pub thread: String,
    pub sort_by: String,
    pub functions: Vec<FunctionRow>,
}

/// How often a function is the caller, or the callee, of another.
#[derive(Debug)]
pub struct CallerCalleeEntry {
    pub function_name: String,
    pub count: usize,
}

/// What is known of one function. Each quantity is given by its terms, one for each thread in
/// which the function has statistics, in the order of the threads: the quantity is their sum.
#[derive(Debug)]
pub struct FunctionDetailResult {
    pub function_name: String,
    pub self_time_ms: Vec<Binary64>,
    pub total_time_ms: Vec<Binary64>,
    pub self_percent: Vec<Binary64>,
    pub total_percent: Vec<Binary64>,
    pub sample_count: usize,
    pub library: Option<String>,
    pub file: Option<String>,
    pub line: Option<u32>,
    pub callers: Vec<CallerCalleeEntry>,
    pub callees: Vec<CallerCalleeEntry>,
    pub threads: Vec<String>,
}

#[derive(Debug)]
pub struct CallTreeResult {
    pub thread: String,
    pub tree: String,
}

#[derive(Debug)]
pub struct MarkerInfo {
    pub name: String,
    pub start_time: Option<Binary64>,
    pub end_time: Option<Binary64>,
    pub category: String,
    pub data: Option<serde_json::Value>,
}

#[derive(Debug)]
pub struct MarkersResult {
    pub thread: String,
    pub markers: Vec<MarkerInfo>,
}

#[derive(Debug)]
pub struct FlamegraphResult {
    pub thread: String,
    pub collapsed_stacks: String,
}

} // verus!
