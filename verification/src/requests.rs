//! What the tools are asked, with the defaults of what a request leaves out.

use vstd::prelude::*;
use vstd::string::*;

use crate::binary64::Binary64;

verus! {

#[derive(Debug)]
pub struct ProfileInfoRequest {
    pub path: String,
}

#[derive(Debug)]
pub struct ProfileThreadsRequest {
    pub path: String,
}

#[derive(Debug)]
pub struct TopFunctionsRequest {
    pub path: String,
    pub thread: Option<String>,
    /// `total` or `total_time` for the order by total time; anything else for that by self time.
    pub sort_by: String,
    pub limit: usize,
}

#[derive(Debug)]
pub struct CallTreeRequest {
    pub path: String,
    pub thread: Option<String>,
    pub max_depth: usize,
    pub min_percent: Binary64,
}

#[derive(Debug)]
pub struct FunctionDetailRequest {
    pub path: String,
    pub function_name: String,
}

#[derive(Debug)]
pub struct MarkersRequest {
    pub path: String,
    pub thread: Option<String>,
    pub limit: usize,
}

#[derive(Debug)]
pub struct FlamegraphRequest {
    pub path: String,
    pub thread: Option<String>,
}

/// Functions are listed by self time.
pub fn default_sort_by() -> (sort_by: String)
    ensures
        sort_by@ == "self"@,
{
    String::from_str("self")
}

/// Twenty functions are listed.
pub fn default_limit() -> (limit: usize)
    ensures
        limit == 20,
{
    20
}

/// A call tree goes ten calls deep.
pub fn default_max_depth() -> (depth: usize)
    ensures
        depth == 10,
{
    10
}

/// A call tree leaves out what is below one percent. The bit pattern is that of 1.
pub fn default_min_percent() -> (percent: Binary64)
    ensures
        percent.bits == 0x3FF0_0000_0000_0000,
{
    Binary64 { bits: 0x3FF0_0000_0000_0000 }
}

/// Fifty markers are listed.
pub fn default_marker_limit() -> (limit: usize)
    ensures
        limit == 50,
{
    50
}

} // verus!
