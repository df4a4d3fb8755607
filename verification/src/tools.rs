//! The tools of the server: what a request is answered once its profile has been looked up.

use std::sync::Arc;

use vstd::prelude::*;
use vstd::string::*;

use crate::binary64::SIGN_BIT;
use crate::cache::FunctionStats;
use crate::call_tree::CallTreeNode;
use crate::call_tree::Scale;
use crate::call_tree::build_call_tree;
use crate::call_tree::call_times_compare;
use crate::call_tree::comparable;
use crate::call_tree::rendered;
use crate::call_tree::shows;
use crate::detail::detail_fits;
use crate::detail::findings;
use crate::detail::fits;
use crate::detail::function_detail;
use crate::detail::known_names;
use crate::detail::resolve_function_name;
use crate::detail::resolved_name;
use crate::detail::sums_up;
use crate::neighbours::Side;
use crate::neighbours::counts;
use crate::neighbours::counts_hold_every_name;
use crate::neighbours::is_descending;
use crate::neighbours::neighbours;
use crate::neighbours::times_among;
use crate::order::is_listing;
use crate::order::listing_is_unique;
use crate::order::listing_order;
use crate::order::precedes;
use crate::profile::ResolvedMarker;
use crate::profile::ResolvedThread;
use crate::profile::sample_stacks;
use crate::requests::CallTreeRequest;
use crate::requests::FlamegraphRequest;
use crate::requests::FunctionDetailRequest;
use crate::requests::MarkersRequest;
use crate::requests::TopFunctionsRequest;
use crate::results::CallTreeResult;
use crate::results::CallerCalleeEntry;
use crate::results::FlamegraphResult;
use crate::results::FunctionDetailResult;
use crate::results::FunctionRow;
use crate::results::MarkerInfo;
use crate::results::MarkersResult;
use crate::results::ProfileInfoResult;
use crate::results::ProfileThreadsResult;
use crate::results::ThreadInfo;
use crate::results::TopFunctionsResult;
use crate::server::CachedProfile;
use crate::server::ProfileServer;
use crate::server::message;
use crate::threads::find_thread_position;
use crate::threads::thread_position;

verus! {

/// The thread that a request is about, in the profile that it is about.
pub struct Selected<'a> {
    pub cached: &'a CachedProfile,
    /// The position of the thread in the profile.
    pub position: usize,
    pub thread: &'a ResolvedThread,
}

impl<'a> Selected<'a> {
    /// The thread is the one at its position.
    pub open spec fn well_formed(&self) -> bool {
        &&& self.cached.well_formed()
        &&& self.position < self.cached.profile.threads@.len()
        &&& *self.thread == self.cached.profile.threads@[self.position as int]
    }
}

/// What is answered where a function has statistics in no thread.
pub open spec fn unknown_function_message(name: Seq<char>) -> Seq<char> {
    "Function '"@ + name + "' not found in any thread"@
}

/// The row that a thread is listed with.
pub open spec fn is_thread_row(row: ThreadInfo, thread: ResolvedThread) -> bool {
    &&& row.name == thread.name
    &&& row.tid == thread.tid
    &&& row.sample_count == thread.samples@.len()
    &&& row.duration_ms == thread.duration_ms
    &&& row.is_main == thread.is_main
}

/// The row that a function is listed with.
pub open spec fn function_row(stats: FunctionStats) -> FunctionRow {
    FunctionRow {
        name: stats.name,
        self_percent: stats.self_percent,
        total_percent: stats.total_percent,
        self_time_ms: stats.self_time_ms,
        total_time_ms: stats.total_time_ms,
        sample_count: stats.sample_count,
        library: stats.library,
    }
}

/// What a marker is listed as.
pub open spec fn marker_row(marker: ResolvedMarker) -> MarkerInfo {
    MarkerInfo {
        name: marker.name,
        start_time: marker.start_time,
        end_time: marker.end_time,
        category: marker.category,
        data: marker.data,
    }
}

/// `n`, or `limit` where that is less.
pub open spec fn at_most(n: nat, limit: nat) -> nat {
    if n < limit {
        n
    } else {
        limit
    }
}

/// `rows` are the first `limit` of some functions, in the order that `sort_by` asks for.
pub open spec fn are_top_functions(
    rows: Seq<FunctionRow>,
    stats: Seq<FunctionStats>,
    sort_by: Seq<char>,
    limit: nat,
) -> bool {
    exists|order: Seq<usize>|
        {
            &&& #[trigger] is_function_order(stats, sort_by, order)
            &&& rows == Seq::new(
                at_most(stats.len(), limit),
                |i: int| function_row(stats[order[i] as int]),
            )
        }
}

/// The answer lists the functions of `thread` that the request asks for.
pub open spec fn is_top_functions_answer(
    answer: TopFunctionsResult,
    thread: ResolvedThread,
    stats: Seq<FunctionStats>,
    req: TopFunctionsRequest,
) -> bool {
    &&& answer.thread == thread.name
    &&& answer.sort_by == req.sort_by
    &&& are_top_functions(answer.functions@, stats, req.sort_by@, req.limit as nat)
}

/// The call times that the request asks to compare can be compared.
pub open spec fn is_call_tree_possible(
    thread: ResolvedThread,
    req: CallTreeRequest,
    scale: Scale,
) -> bool {
    comparable(
        sample_stacks(thread.samples@),
        Seq::empty(),
        req.max_depth as nat,
        req.min_percent,
        scale,
    )
}

/// The answer is the text of the call tree of `thread` that the request asks for.
pub open spec fn is_call_tree_answer(
    answer: CallTreeResult,
    thread: ResolvedThread,
    req: CallTreeRequest,
    scale: Scale,
) -> bool {
    &&& answer.thread == thread.name
    &&& exists|tree: CallTreeNode|
        {
            &&& tree.function_name@ == "(root)"@
            &&& #[trigger] shows(
                tree,
                sample_stacks(thread.samples@),
                Seq::empty(),
                req.max_depth as nat,
                req.min_percent,
                scale,
            )
            &&& answer.tree@ == rendered(tree, 0, req.max_depth as nat)
        }
}

/// A request asks for the order by total time with `total` or `total_time`, and with nothing
/// else.
pub open spec fn asks_for_total(sort_by: Seq<char>) -> bool {
    sort_by == "total"@ || sort_by == "total_time"@
}

/// The total times of some functions, as the integers by which they are ordered.
pub open spec fn total_keys(stats: Seq<FunctionStats>) -> Seq<u64> {
    stats.map_values(|s: FunctionStats| (s.total_time_ms.position() + SIGN_BIT) as u64)
}

/// The total times of some functions can be compared.
pub open spec fn sortable(stats: Seq<FunctionStats>) -> bool {
    stats.len() >= 2 ==> forall|i: int|
        0 <= i < stats.len() ==> !(#[trigger] stats[i]).total_time_ms.not_a_number()
}

/// The order in which functions are listed: by total time, the longest first and equal ones as
/// they came, or as they came, which is by self time.
pub open spec fn is_function_order(
    stats: Seq<FunctionStats>,
    sort_by: Seq<char>,
    order: Seq<usize>,
) -> bool {
    if asks_for_total(sort_by) {
        is_listing(total_keys(stats), order)
    } else {
        &&& order.len() == stats.len()
        &&& forall|i: int| 0 <= i < order.len() ==> #[trigger] order[i] == i
    }
}

/// Whether a request asks for the order by total time.
pub fn sorts_by_total(sort_by: &String) -> (by_total: bool)
    ensures
        by_total == asks_for_total(sort_by@),
{
    *sort_by == String::from_str("total") || *sort_by == String::from_str("total_time")
}

/// Whether the total times of some functions can be compared.
pub fn total_times_compare(stats: &Vec<FunctionStats>) -> (answer: bool)
    ensures
        answer == sortable(stats@),
{
    if stats.len() < 2 {
        return true;
    }
    let mut i: usize = 0;
    while i < stats.len()
        invariant
            i <= stats@.len(),
            stats@.len() >= 2,
            forall|k: int| 0 <= k < i ==> !(#[trigger] stats@[k]).total_time_ms.not_a_number(),
        decreases stats@.len() - i,
    {
        if stats[i].total_time_ms.is_nan() {
            return false;
        }
        i = i + 1;
    }
    true
}

fn function_order(stats: &Vec<FunctionStats>, sort_by: &String) -> (order: Vec<usize>)
    requires
        asks_for_total(sort_by@) ==> sortable(stats@),
    ensures
        is_function_order(stats@, sort_by@, order@),
{
    if sorts_by_total(sort_by) {
        let mut keys: Vec<u64> = Vec::new();
        let mut i: usize = 0;
        while i < stats.len()
            invariant
                i <= stats@.len(),
                keys@.len() == i,
                forall|k: int| 0 <= k < i ==> keys@[k] == #[trigger] total_keys(stats@)[k],
            decreases stats@.len() - i,
        {
            keys.push(stats[i].total_time_ms.order_key());
            i = i + 1;
        }
        assert(keys@ =~= total_keys(stats@));
        listing_order(&keys)
    } else {
        let mut order: Vec<usize> = Vec::new();
        let mut i: usize = 0;
        while i < stats.len()
            invariant
                i <= stats@.len(),
                order@.len() == i,
                forall|k: int| 0 <= k < i ==> #[trigger] order@[k] == k,
            decreases stats@.len() - i,
        {
            order.push(i);
            i = i + 1;
        }
        order
    }
}

/// The first `limit` functions, in the order that `sort_by` asks for.
pub fn top_functions(stats: &Vec<FunctionStats>, sort_by: &String, limit: usize) -> (rows: Vec<
    FunctionRow,
>)
    requires
        asks_for_total(sort_by@) ==> sortable(stats@),
    ensures
        are_top_functions(rows@, stats@, sort_by@, limit as nat),
{
    let order = function_order(stats, sort_by);
    let mut rows: Vec<FunctionRow> = Vec::new();
    let mut i: usize = 0;
    while i < order.len() && i < limit
        invariant
            i <= order@.len(),
            i <= limit,
            order@.len() == stats@.len(),
            forall|k: int| 0 <= k < order@.len() ==> (#[trigger] order@[k]) < stats@.len(),
            rows@.len() == i,
            forall|k: int|
                0 <= k < i ==> #[trigger] rows@[k] == function_row(stats@[order@[k] as int]),
        decreases order@.len() - i,
    {
        let s = &stats[order[i]];
        rows.push(
            FunctionRow {
                name: s.name.clone(),
                self_percent: s.self_percent,
                total_percent: s.total_percent,
                self_time_ms: s.self_time_ms,
                total_time_ms: s.total_time_ms,
                sample_count: s.sample_count,
                library: s.library.clone(),
            },
        );
        i = i + 1;
    }
    assert(rows@ =~= Seq::new(
        at_most(stats@.len(), limit as nat),
        |k: int| function_row(stats@[order@[k] as int]),
    ));
    rows
}

impl ProfileServer {
    /// The thread that a request is about, by the name that it gives, if any. `found` is the
    /// profile that the request is about, or why there is none.
    pub fn select_thread<'a>(
        found: &'a Result<Arc<CachedProfile>, String>,
        thread_name: &Option<String>,
    ) -> (selected: Result<Selected<'a>, String>)
        requires
            found is Ok ==> found->Ok_0.well_formed(),
        ensures
            match *found {
                Ok(cached) => match thread_position(cached.profile.threads@, *thread_name) {
                    Some(at) => {
                        &&& selected is Ok
                        &&& *selected->Ok_0.cached == *cached
                        &&& 0 <= at < cached.profile.threads@.len()
                        &&& selected->Ok_0.position == at
                        &&& *selected->Ok_0.thread == cached.profile.threads@[at]
                        &&& selected->Ok_0.well_formed()
                    },
                    None => selected is Err && selected->Err_0@ == "Thread not found"@,
                },
                Err(reason) => selected is Err && selected->Err_0 == reason,
            },
    {
        match found {
            Ok(cached) => match find_thread_position(&cached.profile, thread_name) {
                Some(position) => Ok(
                    Selected { cached, position, thread: &cached.profile.threads[position] },
                ),
                None => Err(String::from_str("Thread not found")),
            },
            Err(reason) => Err(reason.clone()),
        }
    }

    /// What the profile is, as a whole.
    pub fn profile_info(found: &Result<Arc<CachedProfile>, String>) -> (answer: Result<
        ProfileInfoResult,
        String,
    >)
        ensures
            match *found {
                Ok(cached) => {
                    &&& answer is Ok
                    &&& answer->Ok_0.product == cached.profile.product
                    &&& answer->Ok_0.duration_ms == cached.profile.duration_ms
                    &&& answer->Ok_0.total_samples == cached.profile.total_sample_count
                    &&& answer->Ok_0.thread_count == cached.profile.threads@.len()
                    &&& answer->Ok_0.interval_ms == cached.profile.interval_ms
                    &&& answer->Ok_0.categories@ == cached.profile.categories@
                },
                Err(reason) => answer is Err && answer->Err_0 == reason,
            },
    {
        match found {
            Ok(cached) => {
                let profile = &cached.profile;
                let categories = profile.categories.clone();
                assert(categories@ =~= profile.categories@);
                Ok(
                    ProfileInfoResult {
                        product: profile.product.clone(),
                        duration_ms: profile.duration_ms,
                        total_samples: profile.total_sample_count,
                        thread_count: profile.threads.len(),
                        interval_ms: profile.interval_ms,
                        categories,
                    },
                )
            },
            Err(reason) => Err(reason.clone()),
        }
    }

    /// The threads of the profile, in their order.
    pub fn profile_threads(found: &Result<Arc<CachedProfile>, String>) -> (answer: Result<
        ProfileThreadsResult,
        String,
    >)
        ensures
            match *found {
                Ok(cached) => {
                    &&& answer is Ok
                    &&& answer->Ok_0.threads@.len() == cached.profile.threads@.len()
                    &&& forall|i: int|
                        0 <= i < cached.profile.threads@.len() ==> is_thread_row(
                            #[trigger] answer->Ok_0.threads@[i],
                            cached.profile.threads@[i],
                        )
                },
                Err(reason) => answer is Err && answer->Err_0 == reason,
            },
    {
        match found {
            Ok(cached) => {
                let threads = &cached.profile.threads;
                let mut rows: Vec<ThreadInfo> = Vec::new();
                let mut i: usize = 0;
                while i < threads.len()
                    invariant
                        i <= threads@.len(),
                        rows@.len() == i,
                        forall|k: int|
                            0 <= k < i ==> is_thread_row(#[trigger] rows@[k], threads@[k]),
                    decreases threads@.len() - i,
                {
                    let thread = &threads[i];
                    rows.push(
                        ThreadInfo {
                            name: thread.name.clone(),
                            tid: thread.tid.clone(),
                            sample_count: thread.samples.len(),
                            duration_ms: thread.duration_ms,
                            is_main: thread.is_main,
                        },
                    );
                    i = i + 1;
                }
                Ok(ProfileThreadsResult { threads: rows })
            },
            Err(reason) => Err(reason.clone()),
        }
    }

    /// The functions that took most in the thread that the request names, by self time or by
    /// total time.
    pub fn profile_top_functions(
        found: &Result<Arc<CachedProfile>, String>,
        req: &TopFunctionsRequest,
    ) -> (answer: Result<TopFunctionsResult, String>)
        requires
            found is Ok ==> found->Ok_0.well_formed(),
            found is Ok && asks_for_total(req.sort_by@) ==> match thread_position(
                found->Ok_0.profile.threads@,
                req.thread,
            ) {
                Some(at) => sortable(found->Ok_0.cache.function_stats@[at]@),
                None => true,
            },
        ensures
            match *found {
                Ok(cached) => match thread_position(cached.profile.threads@, req.thread) {
                    Some(at) => {
                        &&& 0 <= at < cached.profile.threads@.len()
                        &&& answer is Ok
                        &&& is_top_functions_answer(
                            answer->Ok_0,
                            cached.profile.threads@[at],
                            cached.cache.function_stats@[at]@,
                            *req,
                        )
                    },
                    None => answer is Err && answer->Err_0@ == "Thread not found"@,
                },
                Err(reason) => answer is Err && answer->Err_0 == reason,
            },
    {
        match ProfileServer::select_thread(found, &req.thread) {
            Ok(selected) => {
                let stats = &selected.cached.cache.function_stats[selected.position];
                let functions = top_functions(stats, &req.sort_by, req.limit);
                Ok(
                    TopFunctionsResult {
                        thread: selected.thread.name.clone(),
                        sort_by: req.sort_by.clone(),
                        functions,
                    },
                )
            },
            Err(reason) => Err(reason),
        }
    }

    /// What `profile_top_functions` answers, or nothing where the functions are to be ordered by
    /// total times that cannot be compared.
    pub fn top_functions_of(
        found: &Result<Arc<CachedProfile>, String>,
        req: &TopFunctionsRequest,
    ) -> (answer: Option<Result<TopFunctionsResult, String>>)
        requires
            found is Ok ==> found->Ok_0.well_formed(),
        ensures
            match *found {
                Ok(cached) => match thread_position(cached.profile.threads@, req.thread) {
                    Some(at) => {
                        let stats = cached.cache.function_stats@[at]@;
                        &&& 0 <= at < cached.profile.threads@.len()
                        &&& answer is None <==> asks_for_total(req.sort_by@) && !sortable(stats)
                        &&& answer is Some ==> answer->0 is Ok && is_top_functions_answer(
                            answer->0->Ok_0,
                            cached.profile.threads@[at],
                            stats,
                            *req,
                        )
                    },
                    None => {
                        &&& answer is Some
                        &&& answer->0 is Err
                        &&& answer->0->Err_0@ == "Thread not found"@
                    },
                },
                Err(reason) => {
                    &&& answer is Some
                    &&& answer->0 is Err
                    &&& answer->0->Err_0 == reason
                },
            },
    {
        if let Ok(selected) = ProfileServer::select_thread(found, &req.thread) {
            let stats = &selected.cached.cache.function_stats[selected.position];
            if sorts_by_total(&req.sort_by) && !total_times_compare(stats) {
                return None;
            }
        }
        Some(ProfileServer::profile_top_functions(found, req))
    }

    /// What the profile knows of a function, over all its threads.
    pub fn profile_function_detail(
        found: &Result<Arc<CachedProfile>, String>,
        req: &FunctionDetailRequest,
    ) -> (answer: Result<FunctionDetailResult, String>)
        requires
            found is Ok ==> found->Ok_0.well_formed(),
            found is Ok ==> fits(
                found->Ok_0.profile.threads@,
                found->Ok_0.cache.function_stats@,
                resolved_name(known_names(found->Ok_0.cache.function_stats@), req.function_name@),
            ),
        ensures
            match *found {
                Ok(cached) => {
                    let threads = cached.profile.threads@;
                    let stats = cached.cache.function_stats@;
                    let target = resolved_name(known_names(stats), req.function_name@);
                    let found = findings(threads, stats, target);
                    if found.len() == 0 {
                        answer is Err && answer->Err_0@ == unknown_function_message(target)
                    } else {
                        &&& answer is Ok
                        &&& answer->Ok_0.function_name@ == target
                        &&& sums_up(answer->Ok_0, found)
                        &&& counts(
                            answer->Ok_0.callers@,
                            neighbours(threads, target, Side::Caller),
                        )
                        &&& is_descending(answer->Ok_0.callers@)
                        &&& counts(
                            answer->Ok_0.callees@,
                            neighbours(threads, target, Side::Callee),
                        )
                        &&& is_descending(answer->Ok_0.callees@)
                    }
                },
                Err(reason) => answer is Err && answer->Err_0 == reason,
            },
    {
        match found {
            Ok(cached) => {
                let threads = &cached.profile.threads;
                let target = resolve_function_name(&cached.cache, &req.function_name);
                match function_detail(threads, &cached.cache, &target) {
                    Some(detail) => Ok(detail),
                    None => {
                        let text = message(
                            "Function '",
                            target.as_str(),
                            "' not found in any thread",
                            "",
                        );
                        proof {
                            reveal_strlit("");
                            assert(text@ =~= unknown_function_message(target@));
                        }
                        Err(text)
                    },
                }
            },
            Err(reason) => Err(reason.clone()),
        }
    }

    /// The call tree, as text, of the thread that the request names. `scale` says what numbers of
    /// samples amount to there.
    pub fn profile_call_tree(
        found: &Result<Arc<CachedProfile>, String>,
        req: &CallTreeRequest,
        scale: &Scale,
    ) -> (answer: Result<CallTreeResult, String>)
        requires
            found is Ok ==> found->Ok_0.well_formed(),
            found is Ok ==> match thread_position(found->Ok_0.profile.threads@, req.thread) {
                Some(at) => {
                    let thread = found->Ok_0.profile.threads@[at];
                    &&& scale.covers(thread.samples@.len())
                    &&& is_call_tree_possible(thread, *req, *scale)
                },
                None => true,
            },
        ensures
            match *found {
                Ok(cached) => match thread_position(cached.profile.threads@, req.thread) {
                    Some(at) => {
                        let thread = cached.profile.threads@[at];
                        &&& 0 <= at < cached.profile.threads@.len()
                        &&& answer is Ok
                        &&& is_call_tree_answer(answer->Ok_0, thread, *req, *scale)
                    },
                    None => answer is Err && answer->Err_0@ == "Thread not found"@,
                },
                Err(reason) => answer is Err && answer->Err_0 == reason,
            },
    {
        match ProfileServer::select_thread(found, &req.thread) {
            Ok(selected) => {
                let tree = build_call_tree(selected.thread, req.max_depth, req.min_percent, scale);
                let text = tree.render_text(req.max_depth);
                Ok(CallTreeResult { thread: selected.thread.name.clone(), tree: text })
            },
            Err(reason) => Err(reason),
        }
    }

    /// What `profile_call_tree` answers, or nothing where calls are to be ordered by times that
    /// cannot be compared. `scale_of` says what numbers of samples amount to in a thread.
    pub fn call_tree_of<F: Fn(&ResolvedThread) -> Scale>(
        found: &Result<Arc<CachedProfile>, String>,
        req: &CallTreeRequest,
        scale_of: F,
    ) -> (answer: Option<Result<CallTreeResult, String>>)
        requires
            found is Ok ==> found->Ok_0.well_formed(),
            found is Ok ==> forall|i: int|
                0 <= i < found->Ok_0.profile.threads@.len() ==> call_requires(
                    scale_of,
                    (&#[trigger] found->Ok_0.profile.threads@[i],),
                ),
            found is Ok ==> forall|i: int, scale: Scale|
                0 <= i < found->Ok_0.profile.threads@.len() && #[trigger] call_ensures(
                    scale_of,
                    (&found->Ok_0.profile.threads@[i],),
                    scale,
                ) ==> scale.covers(found->Ok_0.profile.threads@[i].samples@.len()),
        ensures
            match *found {
                Ok(cached) => match thread_position(cached.profile.threads@, req.thread) {
                    Some(at) => {
                        let thread = cached.profile.threads@[at];
                        &&& 0 <= at < cached.profile.threads@.len()
                        &&& exists|scale: Scale|
                            {
                                &&& #[trigger] call_ensures(scale_of, (&thread,), scale)
                                &&& answer is Some <==> is_call_tree_possible(thread, *req, scale)
                                &&& answer is Some ==> answer->0 is Ok && is_call_tree_answer(
                                    answer->0->Ok_0,
                                    thread,
                                    *req,
                                    scale,
                                )
                            }
                    },
                    None => {
                        &&& answer is Some
                        &&& answer->0 is Err
                        &&& answer->0->Err_0@ == "Thread not found"@
                    },
                },
                Err(reason) => {
                    &&& answer is Some
                    &&& answer->0 is Err
                    &&& answer->0->Err_0 == reason
                },
            },
    {
        match ProfileServer::select_thread(found, &req.thread) {
            Ok(selected) => {
                let scale = scale_of(selected.thread);
                if call_times_compare(selected.thread, req.max_depth, req.min_percent, &scale) {
                    Some(ProfileServer::profile_call_tree(found, req, &scale))
                } else {
                    None
                }
            },
            Err(reason) => Some(Err(reason)),
        }
    }

    /// The first markers of the thread that the request names.
    pub fn profile_markers(
        found: &Result<Arc<CachedProfile>, String>,
        req: &MarkersRequest,
    ) -> (answer: Result<MarkersResult, String>)
        requires
            found is Ok ==> found->Ok_0.well_formed(),
        ensures
            match *found {
                Ok(cached) => match thread_position(cached.profile.threads@, req.thread) {
                    Some(at) => {
                        let thread = cached.profile.threads@[at];
                        &&& 0 <= at < cached.profile.threads@.len()
                        &&& answer is Ok
                        &&& answer->Ok_0.thread == thread.name
                        &&& answer->Ok_0.markers@ == thread.markers@.take(
                            at_most(thread.markers@.len(), req.limit as nat) as int,
                        ).map_values(|m: ResolvedMarker| marker_row(m))
                    },
                    None => answer is Err && answer->Err_0@ == "Thread not found"@,
                },
                Err(reason) => answer is Err && answer->Err_0 == reason,
            },
    {
        match ProfileServer::select_thread(found, &req.thread) {
            Ok(selected) => {
                let markers = &selected.thread.markers;
                let mut rows: Vec<MarkerInfo> = Vec::new();
                let mut i: usize = 0;
                while i < markers.len() && i < req.limit
                    invariant
                        i <= markers@.len(),
                        i <= req.limit,
                        rows@.len() == i,
                        forall|k: int|
                            0 <= k < i ==> #[trigger] rows@[k] == marker_row(markers@[k]),
                    decreases markers@.len() - i,
                {
                    let m = &markers[i];
                    rows.push(
                        MarkerInfo {
                            name: m.name.clone(),
                            start_time: m.start_time,
                            end_time: m.end_time,
                            category: m.category.clone(),
                            data: m.data.clone(),
                        },
                    );
                    i = i + 1;
                }
                assert(rows@ =~= markers@.take(
                    at_most(markers@.len(), req.limit as nat) as int,
                ).map_values(|m: ResolvedMarker| marker_row(m)));
                Ok(MarkersResult { thread: selected.thread.name.clone(), markers: rows })
            },
            Err(reason) => Err(reason),
        }
    }

    /// The collapsed stacks of the thread that the request names. `collapse` gives those of a
    /// thread as text.
    pub fn profile_flamegraph<F: Fn(&ResolvedThread) -> String>(
        found: &Result<Arc<CachedProfile>, String>,
        req: &FlamegraphRequest,
        collapse: F,
    ) -> (answer: Result<FlamegraphResult, String>)
        requires
            found is Ok ==> found->Ok_0.well_formed(),
            found is Ok ==> forall|i: int|
                0 <= i < found->Ok_0.profile.threads@.len() ==> call_requires(
                    collapse,
                    (&#[trigger] found->Ok_0.profile.threads@[i],),
                ),
        ensures
            match *found {
                Ok(cached) => match thread_position(cached.profile.threads@, req.thread) {
                    Some(at) => {
                        let thread = cached.profile.threads@[at];
                        &&& 0 <= at < cached.profile.threads@.len()
                        &&& answer is Ok
                        &&& answer->Ok_0.thread == thread.name
                        &&& call_ensures(collapse, (&thread,), answer->Ok_0.collapsed_stacks)
                    },
                    None => answer is Err && answer->Err_0@ == "Thread not found"@,
                },
                Err(reason) => answer is Err && answer->Err_0 == reason,
            },
    {
        match ProfileServer::select_thread(found, &req.thread) {
            Ok(selected) => Ok(
                FlamegraphResult {
                    thread: selected.thread.name.clone(),
                    collapsed_stacks: collapse(selected.thread),
                },
            ),
            Err(reason) => Err(reason),
        }
    }
}

/// In a listing by total time no function comes before one that took longer.
pub proof fn total_times_descend(
    stats: Seq<FunctionStats>,
    sort_by: Seq<char>,
    order: Seq<usize>,
    i: int,
    j: int,
)
    requires
        asks_for_total(sort_by),
        sortable(stats),
        is_function_order(stats, sort_by, order),
        0 <= i < j < order.len(),
    ensures
        stats[order[i] as int].total_time_ms.at_least(stats[order[j] as int].total_time_ms),
{
    let keys = total_keys(stats);
    assert(precedes(keys, order[i] as int, order[j] as int));
}

/// The order of a function listing is determined: the same statistics are always listed the same
/// way.
pub proof fn function_order_is_unique(
    stats: Seq<FunctionStats>,
    sort_by: Seq<char>,
    a: Seq<usize>,
    b: Seq<usize>,
)
    requires
        is_function_order(stats, sort_by, a),
        is_function_order(stats, sort_by, b),
    ensures
        a == b,
{
    if asks_for_total(sort_by) {
        listing_is_unique(total_keys(stats), a, b);
    } else {
        assert(a =~= b);
    }
}

/// A function listing has as many rows as there are functions, or as the limit where that is less.
/// Each row carries what is known of one function, no two rows of the same one. By total time, no
/// function comes before one that took longer, and of those that took as long the earlier comes
/// first; else the functions come as they are. The result says of each row, and of those that
/// were left out after them, which function it is.
pub proof fn rows_carry_what_is_known_of_their_functions(
    rows: Seq<FunctionRow>,
    stats: Seq<FunctionStats>,
    sort_by: Seq<char>,
    limit: nat,
) -> (order: Seq<int>)
    requires
        are_top_functions(rows, stats, sort_by, limit),
    ensures
        order.len() == stats.len(),
        rows.len() <= limit,
        rows.len() <= stats.len(),
        rows.len() == limit || rows.len() == stats.len(),
        forall|i: int| 0 <= i < order.len() ==> 0 <= #[trigger] order[i] < stats.len(),
        forall|i: int, j: int|
            #![trigger order[i], order[j]]
            0 <= i < j < order.len() ==> order[i] != order[j],
        forall|i: int|
            #![trigger rows[i]]
            0 <= i < rows.len() ==> {
                let of = stats[order[i]];
                &&& rows[i].name == of.name
                &&& rows[i].self_percent == of.self_percent
                &&& rows[i].total_percent == of.total_percent
                &&& rows[i].self_time_ms == of.self_time_ms
                &&& rows[i].total_time_ms == of.total_time_ms
                &&& rows[i].sample_count == of.sample_count
                &&& rows[i].library == of.library
            },
        sort_by == "total"@ || sort_by == "total_time"@ ==> forall|i: int, j: int|
            #![trigger order[i], order[j]]
            0 <= i < j < order.len() ==> {
                let (first, second) = (
                    stats[order[i]].total_time_ms,
                    stats[order[j]].total_time_ms,
                );
                &&& !first.less(second)
                &&& second.at_least(first) ==> order[i] < order[j]
            },
        sort_by != "total"@ && sort_by != "total_time"@ ==> forall|i: int|
            0 <= i < order.len() ==> #[trigger] order[i] == i,
{
    let rows_of = choose|order: Seq<usize>|
        {
            &&& #[trigger] is_function_order(stats, sort_by, order)
            &&& rows == Seq::new(
                at_most(stats.len(), limit),
                |i: int| function_row(stats[order[i] as int]),
            )
        };
    let order = rows_of.map_values(|row: usize| row as int);
    let keys = total_keys(stats);
    assert forall|i: int, j: int|
        #![trigger order[i], order[j]]
        0 <= i < j < order.len() implies order[i] != order[j] && (asks_for_total(sort_by)
        ==> precedes(keys, order[i], order[j])) by {
        assert(rows_of[i] as int == order[i] && rows_of[j] as int == order[j]);
    }
    assert forall|i: int| 0 <= i < order.len() implies 0 <= #[trigger] order[i] < stats.len() by {
        assert(rows_of[i] as int == order[i]);
    }
    assert forall|i: int|
        !asks_for_total(sort_by) && 0 <= i < order.len() implies #[trigger] order[i] == i by {
        assert(rows_of[i] as int == order[i]);
    }
    order
}

/// `top_functions` lists functions by these rules.
pub proof fn top_functions_are_listed(
    stats: Vec<FunctionStats>,
    sort_by: String,
    limit: usize,
    rows: Vec<FunctionRow>,
)
    requires
        call_ensures(top_functions, (&stats, &sort_by, limit), rows),
    ensures
        are_top_functions(rows@, stats@, sort_by@, limit as nat),
{
}

/// The functions listed are those of the thread that the request names. None are where the request
/// asks for their order by total time, there are several, and some time is not a number.
pub proof fn top_functions_are_those_of_the_thread(
    cached: Arc<CachedProfile>,
    req: TopFunctionsRequest,
    position: Option<usize>,
    answer: Result<TopFunctionsResult, String>,
    tried: Option<Result<TopFunctionsResult, String>>,
)
    requires
        call_ensures(find_thread_position, (&cached.profile, &req.thread), position),
        call_ensures(ProfileServer::profile_top_functions, (&Ok(cached), &req), answer),
        call_ensures(ProfileServer::top_functions_of, (&Ok(cached), &req), tried),
    ensures
        match position {
            Some(at) => {
                let stats = cached.cache.function_stats@[at as int]@;
                &&& answer is Ok
                &&& answer->Ok_0.thread == cached.profile.threads@[at as int].name
                &&& answer->Ok_0.sort_by == req.sort_by
                &&& are_top_functions(
                    answer->Ok_0.functions@,
                    stats,
                    req.sort_by@,
                    req.limit as nat,
                )
                &&& tried is None <==> {
                    &&& req.sort_by@ == "total"@ || req.sort_by@ == "total_time"@
                    &&& stats.len() >= 2
                    &&& exists|i: int|
                        0 <= i < stats.len() && (#[trigger] stats[i]).total_time_ms.not_a_number()
                }
                &&& tried is Some ==> {
                    &&& tried->0 is Ok
                    &&& tried->0->Ok_0.thread == answer->Ok_0.thread
                    &&& tried->0->Ok_0.sort_by == req.sort_by
                    &&& tried->0->Ok_0.functions@ == answer->Ok_0.functions@
                }
            },
            None => {
                &&& answer is Err
                &&& answer->Err_0@ == "Thread not found"@
                &&& tried is Some
                &&& tried->0 is Err
                &&& tried->0->Err_0@ == "Thread not found"@
            },
        },
{
    if position is Some && tried is Some {
        let stats = cached.cache.function_stats@[position->0 as int]@;
        same_functions_are_listed(
            tried->0->Ok_0.functions@,
            answer->Ok_0.functions@,
            stats,
            req.sort_by@,
            req.limit as nat,
        );
    }
}

/// The same functions are always listed the same way.
pub proof fn same_functions_are_listed(
    a: Seq<FunctionRow>,
    b: Seq<FunctionRow>,
    stats: Seq<FunctionStats>,
    sort_by: Seq<char>,
    limit: nat,
)
    requires
        are_top_functions(a, stats, sort_by, limit),
        are_top_functions(b, stats, sort_by, limit),
    ensures
        a == b,
{
    let order_a = choose|order: Seq<usize>|
        {
            &&& #[trigger] is_function_order(stats, sort_by, order)
            &&& a == Seq::new(
                at_most(stats.len(), limit),
                |i: int| function_row(stats[order[i] as int]),
            )
        };
    let order_b = choose|order: Seq<usize>|
        {
            &&& #[trigger] is_function_order(stats, sort_by, order)
            &&& b == Seq::new(
                at_most(stats.len(), limit),
                |i: int| function_row(stats[order[i] as int]),
            )
        };
    function_order_is_unique(stats, sort_by, order_a, order_b);
    assert(a =~= b);
}

/// Only two words ask for the order by total time, and times can be compared where there is at
/// most one, or each is a number.
pub proof fn total_order_is_asked_for_by_name(
    sort_by: String,
    stats: Vec<FunctionStats>,
    by_total: bool,
    compare: bool,
)
    requires
        call_ensures(sorts_by_total, (&sort_by,), by_total),
        call_ensures(total_times_compare, (&stats,), compare),
    ensures
        by_total <==> sort_by@ == "total"@ || sort_by@ == "total_time"@,
        compare <==> stats@.len() < 2 || forall|i: int|
            0 <= i < stats@.len() ==> !(#[trigger] stats@[i]).total_time_ms.not_a_number(),
{
}

/// The markers listed are the first of the thread that the request names, as many as there are or
/// as the limit where that is less, and each carries what the marker at the same position does.
pub proof fn markers_carry_what_the_thread_has(
    cached: Arc<CachedProfile>,
    req: MarkersRequest,
    position: Option<usize>,
    answer: Result<MarkersResult, String>,
)
    requires
        call_ensures(find_thread_position, (&cached.profile, &req.thread), position),
        call_ensures(ProfileServer::profile_markers, (&Ok(cached), &req), answer),
    ensures
        match position {
            Some(at) => {
                let thread = cached.profile.threads@[at as int];
                &&& answer is Ok
                &&& answer->Ok_0.thread == thread.name
                &&& answer->Ok_0.markers@.len() <= req.limit
                &&& answer->Ok_0.markers@.len() <= thread.markers@.len()
                &&& answer->Ok_0.markers@.len() == req.limit || answer->Ok_0.markers@.len()
                    == thread.markers@.len()
                &&& forall|i: int|
                    #![trigger answer->Ok_0.markers@[i]]
                    0 <= i < answer->Ok_0.markers@.len() ==> {
                        let (row, marker) = (answer->Ok_0.markers@[i], thread.markers@[i]);
                        &&& row.name == marker.name
                        &&& row.start_time == marker.start_time
                        &&& row.end_time == marker.end_time
                        &&& row.category == marker.category
                        &&& row.data == marker.data
                    }
            },
            None => answer is Err && answer->Err_0@ == "Thread not found"@,
        },
{
}

/// The thread that is selected is the one that is found by its name.
pub proof fn selected_thread_is_the_one_found(
    cached: Arc<CachedProfile>,
    thread_name: Option<String>,
    position: Option<usize>,
    selected: Result<Selected<'_>, String>,
)
    requires
        call_ensures(find_thread_position, (&cached.profile, &thread_name), position),
        call_ensures(ProfileServer::select_thread, (&Ok(cached), &thread_name), selected),
    ensures
        match position {
            Some(at) => {
                &&& selected is Ok
                &&& *selected->Ok_0.cached == *cached
                &&& selected->Ok_0.position == at
                &&& *selected->Ok_0.thread == cached.profile.threads@[at as int]
            },
            None => selected is Err && selected->Err_0@ == "Thread not found"@,
        },
{
}

/// What is said of a profile as a whole is what it holds.
pub proof fn info_is_what_the_profile_holds(
    cached: Arc<CachedProfile>,
    answer: Result<ProfileInfoResult, String>,
)
    requires
        call_ensures(ProfileServer::profile_info, (&Ok(cached),), answer),
    ensures
        answer is Ok,
        answer->Ok_0.product == cached.profile.product,
        answer->Ok_0.duration_ms == cached.profile.duration_ms,
        answer->Ok_0.total_samples == cached.profile.total_sample_count,
        answer->Ok_0.thread_count == cached.profile.threads@.len(),
        answer->Ok_0.interval_ms == cached.profile.interval_ms,
        answer->Ok_0.categories@ == cached.profile.categories@,
{
}

/// Every thread is listed, in its place, with its name, number, samples and duration.
pub proof fn every_thread_is_listed(
    cached: Arc<CachedProfile>,
    answer: Result<ProfileThreadsResult, String>,
)
    requires
        call_ensures(ProfileServer::profile_threads, (&Ok(cached),), answer),
    ensures
        answer is Ok,
        answer->Ok_0.threads@.len() == cached.profile.threads@.len(),
        forall|i: int|
            #![trigger answer->Ok_0.threads@[i]]
            0 <= i < answer->Ok_0.threads@.len() ==> {
                let (row, thread) = (answer->Ok_0.threads@[i], cached.profile.threads@[i]);
                &&& row.name == thread.name
                &&& row.tid == thread.tid
                &&& row.sample_count == thread.samples@.len()
                &&& row.duration_ms == thread.duration_ms
                &&& row.is_main == thread.is_main
            },
{
}

/// The collapsed stacks are those of the thread that the request names.
pub proof fn flamegraph_is_that_of_the_thread<F: Fn(&ResolvedThread) -> String>(
    cached: Arc<CachedProfile>,
    req: FlamegraphRequest,
    collapse: F,
    position: Option<usize>,
    answer: Result<FlamegraphResult, String>,
)
    requires
        call_ensures(find_thread_position, (&cached.profile, &req.thread), position),
        call_ensures(
            ProfileServer::profile_flamegraph::<F>,
            (&Ok(cached), &req, collapse),
            answer,
        ),
    ensures
        match position {
            Some(at) => {
                let thread = cached.profile.threads@[at as int];
                &&& answer is Ok
                &&& answer->Ok_0.thread == thread.name
                &&& call_ensures(collapse, (&thread,), answer->Ok_0.collapsed_stacks)
            },
            None => answer is Err && answer->Err_0@ == "Thread not found"@,
        },
{
}

/// The detail of a function is what all threads know of the function that the request means, and
/// where none knows it, the request is refused by that name.
pub proof fn detail_is_that_of_the_function_meant(
    cached: Arc<CachedProfile>,
    req: FunctionDetailRequest,
    target: String,
    detail: Option<FunctionDetailResult>,
    answer: Result<FunctionDetailResult, String>,
)
    requires
        call_ensures(resolve_function_name, (&cached.cache, &req.function_name), target),
        call_ensures(function_detail, (&cached.profile.threads, &cached.cache, &target), detail),
        call_ensures(ProfileServer::profile_function_detail, (&Ok(cached), &req), answer),
    ensures
        match detail {
            Some(detail) => {
                &&& answer is Ok
                &&& answer->Ok_0.function_name@ == target@
                &&& answer->Ok_0.self_time_ms@ == detail.self_time_ms@
                &&& answer->Ok_0.total_time_ms@ == detail.total_time_ms@
                &&& answer->Ok_0.self_percent@ == detail.self_percent@
                &&& answer->Ok_0.total_percent@ == detail.total_percent@
                &&& answer->Ok_0.sample_count == detail.sample_count
                &&& answer->Ok_0.library == detail.library
                &&& answer->Ok_0.file == detail.file
                &&& answer->Ok_0.line == detail.line
                &&& answer->Ok_0.threads@ == detail.threads@
            },
            None => answer is Err && answer->Err_0@ == "Function '"@ + target@
                + "' not found in any thread"@,
        },
{
}

/// The callers and the callees of the function that the request means are those that are counted
/// in all threads: every one is there, once, with its count, and none comes before one that is
/// counted more often.
pub proof fn callers_and_callees_are_those_of_the_function_meant(
    cached: Arc<CachedProfile>,
    req: FunctionDetailRequest,
    target: String,
    answer: Result<FunctionDetailResult, String>,
    side: Side,
    listed: Seq<CallerCalleeEntry>,
)
    requires
        call_ensures(resolve_function_name, (&cached.cache, &req.function_name), target),
        call_ensures(ProfileServer::profile_function_detail, (&Ok(cached), &req), answer),
        answer is Ok,
        side == Side::Caller ==> listed == answer->Ok_0.callers@,
        side == Side::Callee ==> listed == answer->Ok_0.callees@,
    ensures
        forall|i: int|
            #![trigger listed[i]]
            0 <= i < listed.len() ==> listed[i].count > 0 && listed[i].count == times_among(
                neighbours(cached.profile.threads@, target@, side),
                listed[i].function_name@,
            ),
        forall|name: Seq<char>| #[trigger]
            times_among(neighbours(cached.profile.threads@, target@, side), name) > 0
                ==> exists|i: int|
                0 <= i < listed.len() && (#[trigger] listed[i]).function_name@ == name,
        forall|i: int, j: int|
            #![trigger listed[i], listed[j]]
            0 <= i < j < listed.len() ==> {
                &&& listed[i].function_name@ != listed[j].function_name@
                &&& listed[i].count >= listed[j].count
            },
{
    counts_hold_every_name(listed, neighbours(cached.profile.threads@, target@, side));
}

/// The call tree that a request is answered is that of the thread that it names, built and
/// rendered down to the depth and from the share on that it asks for.
pub proof fn call_tree_is_that_of_the_thread(
    cached: Arc<CachedProfile>,
    req: CallTreeRequest,
    scale: Scale,
    position: Option<usize>,
    answer: Result<CallTreeResult, String>,
)
    requires
        call_ensures(find_thread_position, (&cached.profile, &req.thread), position),
        call_ensures(ProfileServer::profile_call_tree, (&Ok(cached), &req, &scale), answer),
    ensures
        match position {
            Some(at) => {
                let thread = cached.profile.threads@[at as int];
                &&& answer is Ok
                &&& answer->Ok_0.thread == thread.name
                &&& exists|tree: CallTreeNode|
                    {
                        &&& tree.function_name@ == "(root)"@
                        &&& #[trigger] shows(
                            tree,
                            sample_stacks(thread.samples@),
                            Seq::empty(),
                            req.max_depth as nat,
                            req.min_percent,
                            scale,
                        )
                        &&& answer->Ok_0.tree@ == rendered(tree, 0, req.max_depth as nat)
                    }
            },
            None => answer is Err && answer->Err_0@ == "Thread not found"@,
        },
{
}

/// With a scale for the thread, the answer is the same, or there is none exactly where times do
/// not compare.
pub proof fn call_tree_is_answered_where_times_compare<F: Fn(&ResolvedThread) -> Scale>(
    cached: Arc<CachedProfile>,
    req: CallTreeRequest,
    scale_of: F,
    position: Option<usize>,
    answer: Option<Result<CallTreeResult, String>>,
)
    requires
        call_ensures(find_thread_position, (&cached.profile, &req.thread), position),
        call_ensures(ProfileServer::call_tree_of::<F>, (&Ok(cached), &req, scale_of), answer),
    ensures
        match position {
            Some(at) => {
                let thread = cached.profile.threads@[at as int];
                exists|scale: Scale|
                    {
                        &&& #[trigger] call_ensures(scale_of, (&thread,), scale)
                        &&& forall|compare: bool| #[trigger]
                            call_ensures(
                                call_times_compare,
                                (&thread, req.max_depth, req.min_percent, &scale),
                                compare,
                            ) ==> (answer is Some <==> compare)
                        &&& answer is Some ==> answer->0 is Ok && answer->0->Ok_0.thread
                            == thread.name && exists|tree: CallTreeNode|
                            {
                                &&& tree.function_name@ == "(root)"@
                                &&& #[trigger] shows(
                                    tree,
                                    sample_stacks(thread.samples@),
                                    Seq::empty(),
                                    req.max_depth as nat,
                                    req.min_percent,
                                    scale,
                                )
                                &&& answer->0->Ok_0.tree@ == rendered(
                                    tree,
                                    0,
                                    req.max_depth as nat,
                                )
                            }
                    }
            },
            None => {
                &&& answer is Some
                &&& answer->0 is Err
                &&& answer->0->Err_0@ == "Thread not found"@
            },
        },
{
}

/// Where there is no profile, every tool answers why.
pub proof fn refused_lookups_are_handed_on<
    F: Fn(&ResolvedThread) -> String,
    G: Fn(&ResolvedThread) -> Scale,
>(
    reason: String,
    requests: (
        TopFunctionsRequest,
        FunctionDetailRequest,
        CallTreeRequest,
        MarkersRequest,
        FlamegraphRequest,
    ),
    collapse: F,
    scale: Scale,
    scale_of: G,
    answers: (
        Result<ProfileInfoResult, String>,
        Result<ProfileThreadsResult, String>,
        Result<TopFunctionsResult, String>,
        Result<FunctionDetailResult, String>,
        Result<CallTreeResult, String>,
        Result<MarkersResult, String>,
        Result<FlamegraphResult, String>,
    ),
    tried: (Option<Result<TopFunctionsResult, String>>, Option<Result<CallTreeResult, String>>),
)
    requires
        call_ensures(ProfileServer::profile_info, (&Err(reason),), answers.0),
        call_ensures(ProfileServer::profile_threads, (&Err(reason),), answers.1),
        call_ensures(
            ProfileServer::profile_top_functions,
            (&Err(reason), &requests.0),
            answers.2,
        ),
        call_ensures(
            ProfileServer::profile_function_detail,
            (&Err(reason), &requests.1),
            answers.3,
        ),
        call_ensures(
            ProfileServer::profile_call_tree,
            (&Err(reason), &requests.2, &scale),
            answers.4,
        ),
        call_ensures(ProfileServer::profile_markers, (&Err(reason), &requests.3), answers.5),
        call_ensures(
            ProfileServer::profile_flamegraph::<F>,
            (&Err(reason), &requests.4, collapse),
            answers.6,
        ),
        call_ensures(ProfileServer::top_functions_of, (&Err(reason), &requests.0), tried.0),
        call_ensures(
            ProfileServer::call_tree_of::<G>,
            (&Err(reason), &requests.2, scale_of),
            tried.1,
        ),
    ensures
        answers.0 is Err && answers.0->Err_0 == reason,
        answers.1 is Err && answers.1->Err_0 == reason,
        answers.2 is Err && answers.2->Err_0 == reason,
        answers.3 is Err && answers.3->Err_0 == reason,
        answers.4 is Err && answers.4->Err_0 == reason,
        answers.5 is Err && answers.5->Err_0 == reason,
        answers.6 is Err && answers.6->Err_0 == reason,
        tried.0 is Some && tried.0->0 is Err && tried.0->0->Err_0 == reason,
        tried.1 is Some && tried.1->0 is Err && tried.1->0->Err_0 == reason,
{
}

/// Every request can be made of a profile whose threads have their statistics.
pub proof fn requests_can_be_made(
    cached: Arc<CachedProfile>,
    thread: Option<String>,
    top: TopFunctionsRequest,
    markers: MarkersRequest,
)
    requires
        cached.cache.function_stats@.len() == cached.profile.threads@.len(),
    ensures
        call_requires(ProfileServer::select_thread, (&Ok(cached), &thread)),
        call_requires(ProfileServer::profile_info, (&Ok(cached),)),
        call_requires(ProfileServer::profile_threads, (&Ok(cached),)),
        call_requires(ProfileServer::top_functions_of, (&Ok(cached), &top)),
        call_requires(ProfileServer::profile_markers, (&Ok(cached), &markers)),
{
}

/// A function can be asked for where what is known of it fits machine numbers.
pub proof fn details_can_be_asked_for(
    cached: Arc<CachedProfile>,
    req: FunctionDetailRequest,
    target: String,
)
    requires
        cached.cache.function_stats@.len() == cached.profile.threads@.len(),
        call_ensures(resolve_function_name, (&cached.cache, &req.function_name), target),
        call_ensures(detail_fits, (&cached.profile.threads, &cached.cache, &target), true),
    ensures
        call_requires(ProfileServer::profile_function_detail, (&Ok(cached), &req)),
{
}

/// A function listing can be asked for where its times compare, or need not.
pub proof fn top_functions_can_be_asked_for(
    cached: Arc<CachedProfile>,
    req: TopFunctionsRequest,
    at: usize,
    by_total: bool,
    compare: bool,
)
    requires
        cached.cache.function_stats@.len() == cached.profile.threads@.len(),
        call_ensures(find_thread_position, (&cached.profile, &req.thread), Some(at)),
        call_ensures(sorts_by_total, (&req.sort_by,), by_total),
        call_ensures(
            total_times_compare,
            (&cached.cache.function_stats@[at as int],),
            compare,
        ),
        by_total ==> compare,
    ensures
        call_requires(ProfileServer::profile_top_functions, (&Ok(cached), &req)),
{
}

/// A call tree can be asked for where its times compare.
pub proof fn call_trees_can_be_asked_for(
    cached: Arc<CachedProfile>,
    req: CallTreeRequest,
    scale: Scale,
    at: usize,
)
    requires
        cached.cache.function_stats@.len() == cached.profile.threads@.len(),
        call_ensures(find_thread_position, (&cached.profile, &req.thread), Some(at)),
        scale.times@.len() > cached.profile.threads@[at as int].samples@.len(),
        scale.percents@.len() > cached.profile.threads@[at as int].samples@.len(),
        call_ensures(
            call_times_compare,
            (&cached.profile.threads@[at as int], req.max_depth, req.min_percent, &scale),
            true,
        ),
    ensures
        call_requires(ProfileServer::profile_call_tree, (&Ok(cached), &req, &scale)),
{
}

/// Collapsed stacks can be asked for wherever they can be made of each thread, and a call tree
/// wherever each thread has a scale with an entry for every number of samples.
pub proof fn computed_answers_can_be_asked_for<
    F: Fn(&ResolvedThread) -> String,
    G: Fn(&ResolvedThread) -> Scale,
>(
    cached: Arc<CachedProfile>,
    flamegraph: FlamegraphRequest,
    collapse: F,
    tree: CallTreeRequest,
    scale_of: G,
)
    requires
        cached.cache.function_stats@.len() == cached.profile.threads@.len(),
        forall|i: int|
            #![trigger cached.profile.threads@[i]]
            0 <= i < cached.profile.threads@.len() ==> {
                &&& call_requires(collapse, (&cached.profile.threads@[i],))
                &&& call_requires(scale_of, (&cached.profile.threads@[i],))
            },
        forall|i: int, scale: Scale|
            0 <= i < cached.profile.threads@.len() && #[trigger] call_ensures(
                scale_of,
                (&cached.profile.threads@[i],),
                scale,
            ) ==> {
                &&& scale.times@.len() > cached.profile.threads@[i].samples@.len()
                &&& scale.percents@.len() > cached.profile.threads@[i].samples@.len()
            },
    ensures
        call_requires(
            ProfileServer::profile_flamegraph::<F>,
            (&Ok(cached), &flamegraph, collapse),
        ),
        call_requires(ProfileServer::call_tree_of::<G>, (&Ok(cached), &tree, scale_of)),
{
}

} // verus!
