//! Resolved profiles: threads, samples and call stacks with symbol names filled in.

use vstd::prelude::*;

use crate::binary64::Binary64;

verus! {

/// `serde_json::Value`, the data that a marker carries. It is opaque: the library hands it on.
#[verifier::external_type_specification]
#[verifier::external_body]
pub struct ExJsonValue(serde_json::Value);

/// `serde_json::Value::clone`: the copy is equal to the value that it was made from.
pub assume_specification[ <serde_json::Value as Clone>::clone ](
    value: &serde_json::Value,
) -> (copy: serde_json::Value)
    ensures
        copy == *value,
;

/// One frame of a call stack.
#[derive(Debug)]
pub struct ResolvedFrame {
    pub function_name: String,
    pub file: Option<String>,
    pub line: Option<u32>,
    pub category: String,
    pub library: Option<String>,
}

/// One sample: the call stack at one moment, outermost frame first.
#[derive(Debug)]
pub struct ResolvedSample {
    pub timestamp_ms: Binary64,
    pub weight: i64,
    pub cpu_delta_us: Option<u64>,
    pub stack: Vec<ResolvedFrame>,
}

/// An event on a thread's timeline.
#[derive(Debug)]
pub struct ResolvedMarker {
    pub name: String,
    pub start_time: Option<Binary64>,
    pub end_time: Option<Binary64>,
    pub category: String,
    pub data: Option<serde_json::Value>,
}

#[derive(Debug)]
pub struct ResolvedThread {
    pub name: String,
    pub pid: String,
    pub tid: String,
    pub is_main: bool,
    pub duration_ms: Binary64,
    pub markers: Vec<ResolvedMarker>,
    pub samples: Vec<ResolvedSample>,
}

#[derive(Debug)]
pub struct ResolvedProfile {
    pub product: String,
    pub duration_ms: Binary64,
    pub interval_ms: Binary64,
    pub total_sample_count: usize,
    pub categories: Vec<String>,
    pub threads: Vec<ResolvedThread>,
}

/// The function names on a call stack, outermost first.
pub open spec fn stack_names(stack: Seq<ResolvedFrame>) -> Seq<Seq<char>> {
    stack.map_values(|frame: ResolvedFrame| frame.function_name@)
}

/// The call stacks of a list of samples, as function names.
pub open spec fn sample_stacks(samples: Seq<ResolvedSample>) -> Seq<Seq<Seq<char>>> {
    samples.map_values(|sample: ResolvedSample| stack_names(sample.stack@))
}

} // verus!
