use std::sync::Arc;

use samply_mcp::binary64::Binary64;
use samply_mcp::cache::{AnalysisCache, FunctionStats};
use samply_mcp::call_tree::{Measure, Scale};
use samply_mcp::detail::{detail_fits, function_detail, resolve_function_name, resolve_name};
use samply_mcp::neighbours::{count_neighbours, neighbours_fit, Side};
use samply_mcp::profile::{
    ResolvedFrame, ResolvedMarker, ResolvedProfile, ResolvedSample, ResolvedThread,
};
use samply_mcp::requests::{
    default_limit, default_marker_limit, default_max_depth, default_min_percent, default_sort_by,
    CallTreeRequest, FlamegraphRequest, FunctionDetailRequest, MarkersRequest,
    TopFunctionsRequest,
};
use samply_mcp::results::{CallerCalleeEntry, FunctionDetailResult, TopFunctionsResult};
use samply_mcp::server::{CachedProfile, ProfileServer};
use samply_mcp::tools::{sorts_by_total, top_functions, total_times_compare};

type Found = Result<Arc<CachedProfile>, String>;

fn number(value: f64) -> Binary64 {
    Binary64 {
        bits: value.to_bits(),
    }
}

fn stack(names: Vec<&str>) -> ResolvedSample {
    ResolvedSample {
        timestamp_ms: number(0.0),
        weight: 1,
        cpu_delta_us: None,
        stack: names
            .into_iter()
            .map(|name| ResolvedFrame {
                function_name: name.to_string(),
                file: None,
                line: None,
                category: "Other".to_string(),
                library: None,
            })
            .collect(),
    }
}

fn thread(name: &str, samples: Vec<ResolvedSample>) -> ResolvedThread {
    ResolvedThread {
        name: name.to_string(),
        pid: "7".to_string(),
        tid: "8".to_string(),
        is_main: name == "main",
        duration_ms: number(4.5),
        markers: vec![],
        samples,
    }
}

fn stats(name: &str, self_time: f64, total_time: f64, samples: usize) -> FunctionStats {
    FunctionStats {
        name: name.to_string(),
        self_time_ms: number(self_time),
        total_time_ms: number(total_time),
        self_percent: number(self_time / 10.0),
        total_percent: number(total_time / 10.0),
        sample_count: samples,
        library: None,
        file: None,
        line: None,
    }
}

fn found(threads: Vec<ResolvedThread>, all: Vec<Vec<FunctionStats>>) -> Found {
    let profile = ResolvedProfile {
        product: "app".to_string(),
        duration_ms: number(12.5),
        interval_ms: number(0.5),
        total_sample_count: 42,
        categories: vec!["User".to_string(), "Kernel".to_string()],
        threads,
    };
    let cache = AnalysisCache {
        function_stats: all,
    };
    Ok(Arc::new(CachedProfile { profile, cache }))
}

fn measure(value: f64) -> Measure {
    Measure {
        value: number(value),
        text: format!("{:.1}", value),
    }
}

fn samples_as_scale(thread: &ResolvedThread) -> Scale {
    let all = thread.samples.len() as f64;
    let counts = 0..=thread.samples.len();
    Scale {
        times: counts.clone().map(|n| measure(n as f64)).collect(),
        percents: counts.map(|n| measure(n as f64 / all * 100.0)).collect(),
    }
}

fn thread_name(thread: &ResolvedThread) -> String {
    thread.name.clone()
}

fn refused() -> Found {
    Err("Invalid path 'x': none".to_string())
}

fn top(found: &Found, sort_by: &str, limit: usize) -> Result<TopFunctionsResult, String> {
    let req = TopFunctionsRequest {
        path: "x".to_string(),
        thread: None,
        sort_by: sort_by.to_string(),
        limit,
    };
    ProfileServer::top_functions_of(found, &req).unwrap()
}

fn names(result: Result<TopFunctionsResult, String>) -> Vec<String> {
    result.unwrap().functions.into_iter().map(|row| row.name).collect()
}

fn detail(found: &Found, name: &str) -> Result<FunctionDetailResult, String> {
    let req = FunctionDetailRequest {
        path: "x".to_string(),
        function_name: name.to_string(),
    };
    ProfileServer::profile_function_detail(found, &req)
}

fn pairs(entries: &Vec<CallerCalleeEntry>) -> Vec<(String, usize)> {
    let mut pairs: Vec<(String, usize)> =
        entries.iter().map(|e| (e.function_name.clone(), e.count)).collect();
    pairs.sort();
    pairs
}

#[test]
fn defaults_of_requests() {
    assert_eq!(default_sort_by(), "self");
    assert_eq!(default_limit(), 20);
    assert_eq!(default_max_depth(), 10);
    assert_eq!(f64::from_bits(default_min_percent().bits), 1.0);
    assert_eq!(default_marker_limit(), 50);
}

#[test]
fn info_describes_the_profile() {
    let info = ProfileServer::profile_info(&found(vec![thread("main", vec![])], vec![vec![]]));
    let info = info.unwrap();
    assert_eq!(info.product, "app");
    assert_eq!(info.duration_ms, number(12.5));
    assert_eq!(info.total_samples, 42);
    assert_eq!(info.thread_count, 1);
    assert_eq!(info.interval_ms, number(0.5));
    assert_eq!(info.categories, vec!["User".to_string(), "Kernel".to_string()]);
}

#[test]
fn threads_are_listed_in_order() {
    let found = found(
        vec![thread("main", vec![stack(vec![])]), thread("other", vec![])],
        vec![vec![], vec![]],
    );
    let rows = ProfileServer::profile_threads(&found).unwrap().threads;
    assert_eq!(rows.len(), 2);
    assert_eq!(rows[0].name, "main");
    assert_eq!(rows[0].tid, "8");
    assert_eq!(rows[0].sample_count, 1);
    assert_eq!(rows[0].duration_ms, number(4.5));
    assert!(rows[0].is_main);
    assert_eq!(rows[1].name, "other");
    assert!(!rows[1].is_main);
}

#[test]
fn every_tool_hands_on_a_refused_lookup() {
    let refused = refused();
    let reason = "Invalid path 'x': none".to_string();
    let scale = Scale {
        times: vec![],
        percents: vec![],
    };
    let tree = CallTreeRequest {
        path: "x".to_string(),
        thread: None,
        max_depth: 1,
        min_percent: number(0.0),
    };
    let markers = MarkersRequest {
        path: "x".to_string(),
        thread: None,
        limit: 1,
    };
    let flamegraph = FlamegraphRequest {
        path: "x".to_string(),
        thread: None,
    };
    assert_eq!(ProfileServer::profile_info(&refused).err().unwrap(), reason);
    assert_eq!(ProfileServer::profile_threads(&refused).err().unwrap(), reason);
    assert_eq!(top(&refused, "self", 1).err().unwrap(), reason);
    assert_eq!(detail(&refused, "f").err().unwrap(), reason);
    let answer = ProfileServer::profile_call_tree(&refused, &tree, &scale);
    assert_eq!(answer.err().unwrap(), reason);
    let answer = ProfileServer::call_tree_of(&refused, &tree, samples_as_scale).unwrap();
    assert_eq!(answer.err().unwrap(), reason);
    let answer = ProfileServer::profile_markers(&refused, &markers);
    assert_eq!(answer.err().unwrap(), reason);
    let answer = ProfileServer::profile_flamegraph(&refused, &flamegraph, thread_name);
    assert_eq!(answer.err().unwrap(), reason);
}

#[test]
fn every_tool_refuses_an_unknown_thread() {
    let found = found(vec![thread("main", vec![])], vec![vec![]]);
    let thread = Some("render".to_string());
    let path = "x".to_string();
    let reason = "Thread not found";
    let top = TopFunctionsRequest {
        path: path.clone(),
        thread: thread.clone(),
        sort_by: "self".to_string(),
        limit: 1,
    };
    let tree = CallTreeRequest {
        path: path.clone(),
        thread: thread.clone(),
        max_depth: 1,
        min_percent: number(0.0),
    };
    let markers = MarkersRequest {
        path: path.clone(),
        thread: thread.clone(),
        limit: 1,
    };
    let flamegraph = FlamegraphRequest { path, thread };
    let scale = Scale {
        times: vec![],
        percents: vec![],
    };
    let answer = ProfileServer::profile_top_functions(&found, &top);
    assert_eq!(answer.err().unwrap(), reason);
    let answer = ProfileServer::top_functions_of(&found, &top).unwrap();
    assert_eq!(answer.err().unwrap(), reason);
    let answer = ProfileServer::profile_call_tree(&found, &tree, &scale);
    assert_eq!(answer.err().unwrap(), reason);
    let answer = ProfileServer::call_tree_of(&found, &tree, samples_as_scale).unwrap();
    assert_eq!(answer.err().unwrap(), reason);
    let answer = ProfileServer::profile_markers(&found, &markers);
    assert_eq!(answer.err().unwrap(), reason);
    let answer = ProfileServer::profile_flamegraph(&found, &flamegraph, thread_name);
    assert_eq!(answer.err().unwrap(), reason);
}

#[test]
fn every_tool_reads_the_thread_of_its_request() {
    let mut b = thread("b", vec![stack(vec!["in b"])]);
    b.markers.push(ResolvedMarker {
        name: "mark".to_string(),
        start_time: None,
        end_time: None,
        category: "Other".to_string(),
        data: None,
    });
    let found = found(
        vec![thread("a", vec![stack(vec!["in a"])]), b],
        vec![vec![stats("f", 1.0, 1.0, 1)], vec![stats("g", 1.0, 1.0, 1)]],
    );
    let thread = Some("b".to_string());
    let path = "x".to_string();
    let top = TopFunctionsRequest {
        path: path.clone(),
        thread: thread.clone(),
        sort_by: "total".to_string(),
        limit: 5,
    };
    let tree = CallTreeRequest {
        path: path.clone(),
        thread: thread.clone(),
        max_depth: 2,
        min_percent: number(0.0),
    };
    let markers = MarkersRequest {
        path: path.clone(),
        thread: thread.clone(),
        limit: 5,
    };
    let flamegraph = FlamegraphRequest { path, thread };
    assert_eq!(names(ProfileServer::profile_top_functions(&found, &top)), vec!["g"]);
    let answer = ProfileServer::call_tree_of(&found, &tree, samples_as_scale).unwrap().unwrap();
    assert_eq!(answer.thread, "b");
    assert_eq!(
        answer.tree,
        "(root) [100.0% total, 0.0ms self]\n  in b [100.0% total, 1.0ms self]\n"
    );
    let answer = ProfileServer::profile_markers(&found, &markers).unwrap();
    assert_eq!(answer.thread, "b");
    assert_eq!(answer.markers[0].name, "mark");
    let answer = ProfileServer::profile_flamegraph(&found, &flamegraph, thread_name).unwrap();
    assert_eq!(answer.thread, "b");
    assert_eq!(answer.collapsed_stacks, "b");
}

#[test]
fn times_that_do_not_compare_give_no_answer() {
    let numbers = vec![stats("f", 1.0, 1.0, 1), stats("g", 1.0, 2.0, 1)];
    let others = vec![stats("f", 1.0, 1.0, 1), stats("g", 1.0, f64::NAN, 1)];
    let stacks = || vec![stack(vec!["f"]), stack(vec!["g"])];
    let found = found(
        vec![thread("a", stacks()), thread("b", stacks())],
        vec![numbers, others],
    );
    let mut req = TopFunctionsRequest {
        path: "x".to_string(),
        thread: Some("b".to_string()),
        sort_by: "total".to_string(),
        limit: 5,
    };
    assert!(ProfileServer::top_functions_of(&found, &req).is_none());
    req.sort_by = "self".to_string();
    assert!(ProfileServer::top_functions_of(&found, &req).unwrap().is_ok());
    req.sort_by = "total".to_string();
    req.thread = Some("a".to_string());
    assert!(ProfileServer::top_functions_of(&found, &req).unwrap().is_ok());
    let mut req = CallTreeRequest {
        path: "x".to_string(),
        thread: Some("b".to_string()),
        max_depth: 2,
        min_percent: number(0.0),
    };
    let no_numbers = |thread: &ResolvedThread| {
        let mut scale = samples_as_scale(thread);
        for time in &mut scale.times {
            time.value = number(f64::NAN);
        }
        scale
    };
    assert!(ProfileServer::call_tree_of(&found, &req, no_numbers).is_none());
    assert!(ProfileServer::call_tree_of(&found, &req, samples_as_scale).unwrap().is_ok());
    req.max_depth = 0;
    assert!(ProfileServer::call_tree_of(&found, &req, no_numbers).unwrap().is_ok());
}

#[test]
fn an_unknown_thread_is_refused() {
    let found = found(vec![thread("main", vec![])], vec![vec![]]);
    let selected = ProfileServer::select_thread(&found, &Some("render".to_string()));
    assert_eq!(selected.err().unwrap(), "Thread not found");
}

#[test]
fn functions_keep_the_order_of_the_cache_by_default() {
    let found = found(
        vec![thread("main", vec![])],
        vec![vec![stats("a", 5.0, 5.0, 1), stats("b", 4.0, 9.0, 2), stats("c", 3.0, 7.0, 3)]],
    );
    assert_eq!(names(top(&found, "self", 20)), vec!["a", "b", "c"]);
    assert_eq!(names(top(&found, "Total", 20)), vec!["a", "b", "c"]);
    assert_eq!(names(top(&found, "", 2)), vec!["a", "b"]);
    assert_eq!(names(top(&found, "self", 0)), Vec::<String>::new());
}

#[test]
fn functions_are_sorted_by_total_time_on_request() {
    let found = found(
        vec![thread("main", vec![])],
        vec![vec![
            stats("a", 5.0, 5.0, 1),
            stats("b", 4.0, 9.0, 2),
            stats("c", 3.0, 9.0, 3),
            stats("d", 2.0, 9.5, 3),
        ]],
    );
    assert_eq!(names(top(&found, "total", 20)), vec!["d", "b", "c", "a"]);
    assert_eq!(names(top(&found, "total_time", 2)), vec!["d", "b"]);
}

#[test]
fn a_function_row_holds_the_stats() {
    let found = found(vec![thread("main", vec![])], vec![vec![stats("a", 5.0, 6.0, 3)]]);
    let result = top(&found, "total", 1).unwrap();
    assert_eq!(result.thread, "main");
    assert_eq!(result.sort_by, "total");
    let row = &result.functions[0];
    assert_eq!(row.self_time_ms, number(5.0));
    assert_eq!(row.total_time_ms, number(6.0));
    assert_eq!(row.self_percent, number(0.5));
    assert_eq!(row.total_percent, number(0.6));
    assert_eq!(row.sample_count, 3);
    assert_eq!(row.library, None);
}

#[test]
fn only_two_words_ask_for_total_time() {
    assert!(sorts_by_total(&"total".to_string()));
    assert!(sorts_by_total(&"total_time".to_string()));
    assert!(!sorts_by_total(&"self_time".to_string()));
    assert!(!sorts_by_total(&"total ".to_string()));
}

#[test]
fn a_name_resolves_exactly_then_by_ending_then_by_part() {
    let known = vec!["my_run_loop", "app::run", "other::run", "run"];
    let known: Vec<String> = known.into_iter().map(|n| n.to_string()).collect();
    assert_eq!(resolve_name(&known, &"run".to_string()), "run");
    let known = known[..3].to_vec();
    assert_eq!(resolve_name(&known, &"run".to_string()), "app::run");
    let known = known[..1].to_vec();
    assert_eq!(resolve_name(&known, &"run".to_string()), "my_run_loop");
    assert_eq!(resolve_name(&known, &"stop".to_string()), "stop");
    assert_eq!(resolve_name(&known, &"".to_string()), "my_run_loop");
}

#[test]
fn an_ending_needs_the_separator() {
    let known = vec!["prerun".to_string(), "a::run".to_string()];
    assert_eq!(resolve_name(&known, &"run".to_string()), "a::run");
    let known = vec!["prerun".to_string(), "a:run".to_string()];
    assert_eq!(resolve_name(&known, &"run".to_string()), "prerun");
}

#[test]
fn detail_adds_up_over_threads() {
    let mut second = stats("app::work", 2.0, 4.0, 5);
    second.library = Some("libapp".to_string());
    second.line = Some(12);
    let mut third = stats("app::work", 3.0, 6.0, 7);
    third.library = Some("other".to_string());
    third.file = Some("work.rs".to_string());
    let found = found(
        vec![
            thread("main", vec![stack(vec!["main", "app::work", "app::work", "alloc"])]),
            thread("idle", vec![]),
            thread("w1", vec![stack(vec!["start", "app::work"]), stack(vec!["main", "app::work"])]),
            thread("w2", vec![stack(vec!["app::work", "alloc"])]),
        ],
        vec![vec![stats("app::work", 1.0, 2.0, 3)], vec![], vec![second], vec![third]],
    );
    let detail = detail(&found, "work").unwrap();
    assert_eq!(detail.function_name, "app::work");
    assert_eq!(detail.self_time_ms, vec![number(1.0), number(2.0), number(3.0)]);
    assert_eq!(detail.total_time_ms, vec![number(2.0), number(4.0), number(6.0)]);
    assert_eq!(detail.self_percent, vec![number(0.1), number(0.2), number(0.3)]);
    assert_eq!(detail.total_percent, vec![number(0.2), number(0.4), number(0.6)]);
    assert_eq!(detail.sample_count, 15);
    assert_eq!(detail.library, Some("libapp".to_string()));
    assert_eq!(detail.file, Some("work.rs".to_string()));
    assert_eq!(detail.line, Some(12));
    assert_eq!(detail.threads, vec!["main", "w1", "w2"]);
    assert_eq!(detail.callers[0].function_name, "main");
    assert_eq!(
        pairs(&detail.callers),
        vec![
            ("app::work".to_string(), 1),
            ("main".to_string(), 2),
            ("start".to_string(), 1)
        ]
    );
    assert_eq!(detail.callees[0].function_name, "alloc");
    assert_eq!(
        pairs(&detail.callees),
        vec![("alloc".to_string(), 2), ("app::work".to_string(), 1)]
    );
}

#[test]
fn threads_that_share_a_name_count_each_with_its_own() {
    let found = found(
        vec![
            thread("W", vec![stack(vec!["early"])]),
            thread("W", vec![stack(vec!["late"])]),
        ],
        vec![
            vec![stats("f", 1.0, 2.0, 3), stats("early", 0.5, 0.5, 1)],
            vec![stats("f", 3.0, 4.0, 5), stats("late", 0.5, 0.5, 1)],
        ],
    );
    let f = detail(&found, "f").unwrap();
    assert_eq!(f.sample_count, 8);
    assert_eq!(f.threads, vec!["W", "W"]);
    assert_eq!(f.self_time_ms, vec![number(1.0), number(3.0)]);
    assert_eq!(detail(&found, "early").unwrap().sample_count, 1);
    assert_eq!(detail(&found, "late").unwrap().sample_count, 1);
    let req = TopFunctionsRequest {
        path: "x".to_string(),
        thread: Some("W".to_string()),
        sort_by: "self".to_string(),
        limit: 20,
    };
    let selected = ProfileServer::select_thread(&found, &req.thread);
    assert_eq!(selected.ok().unwrap().position, 0);
    let answer = ProfileServer::profile_top_functions(&found, &req);
    assert_eq!(names(answer), vec!["f", "early"]);
    let answer = ProfileServer::profile_top_functions(&found, &req).unwrap();
    assert_eq!(answer.functions[0].sample_count, 3);
}

#[test]
fn a_selected_thread_knows_its_position() {
    let found = found(
        vec![thread("a", vec![]), thread("b", vec![])],
        vec![vec![stats("f", 1.0, 1.0, 1)], vec![stats("g", 1.0, 1.0, 2)]],
    );
    let selected = ProfileServer::select_thread(&found, &Some("b".to_string())).ok().unwrap();
    assert_eq!(selected.position, 1);
    assert_eq!(selected.thread.name, "b");
}

#[test]
fn an_unknown_function_is_refused() {
    let found = found(
        vec![thread("main", vec![stack(vec!["main"])])],
        vec![vec![stats("main", 1.0, 1.0, 1)]],
    );
    assert_eq!(
        detail(&found, "nowhere").err().unwrap(),
        "Function 'nowhere' not found in any thread"
    );
}

#[test]
fn callers_mirror_callees() {
    let threads = vec![
        thread("a", vec![stack(vec!["f", "g", "f", "g"]), stack(vec!["g", "f"])]),
        thread("b", vec![stack(vec!["f", "g", "h"])]),
    ];
    let callees = count_neighbours(&threads, &"f".to_string(), Side::Callee);
    let callers = count_neighbours(&threads, &"g".to_string(), Side::Caller);
    assert_eq!(pairs(&callees), vec![("g".to_string(), 3)]);
    assert_eq!(pairs(&callers), vec![("f".to_string(), 3)]);
}

#[test]
fn the_most_frequent_neighbour_comes_first() {
    let threads = vec![thread(
        "a",
        vec![stack(vec!["x", "f"]), stack(vec!["y", "f"]), stack(vec!["y", "f"])],
    )];
    let callers = count_neighbours(&threads, &"f".to_string(), Side::Caller);
    assert_eq!(callers[0].function_name, "y");
    assert_eq!(callers[0].count, 2);
    assert_eq!(callers[1].count, 1);
}

#[test]
fn the_call_tree_is_rendered() {
    let found = found(vec![thread("main", vec![stack(vec!["f"])])], vec![vec![]]);
    let req = CallTreeRequest {
        path: "x".to_string(),
        thread: Some("MAI".to_string()),
        max_depth: 3,
        min_percent: number(1.0),
    };
    let scale = Scale {
        times: vec![measure(0.0), measure(1.0)],
        percents: vec![measure(0.0), measure(100.0)],
    };
    let answer = ProfileServer::profile_call_tree(&found, &req, &scale).unwrap();
    assert_eq!(answer.thread, "main");
    assert_eq!(
        answer.tree,
        "(root) [100.0% total, 0.0ms self]\n  f [100.0% total, 1.0ms self]\n"
    );
}

#[test]
fn the_first_markers_are_listed() {
    let mut main = thread("main", vec![]);
    for i in 0..3u8 {
        let text = format!("m{}", i);
        main.markers.push(ResolvedMarker {
            name: text.clone(),
            start_time: Some(number(f64::from(i))),
            end_time: None,
            category: "Other".to_string(),
            data: Some(serde_json::Value::String(text)),
        });
    }
    let found = found(vec![main], vec![vec![]]);
    let mut req = MarkersRequest {
        path: "x".to_string(),
        thread: None,
        limit: 2,
    };
    let answer = ProfileServer::profile_markers(&found, &req).unwrap();
    assert_eq!(answer.thread, "main");
    assert_eq!(answer.markers.len(), 2);
    assert_eq!(answer.markers[1].name, "m1");
    assert_eq!(answer.markers[1].start_time, Some(number(1.0)));
    assert_eq!(answer.markers[1].end_time, None);
    assert_eq!(answer.markers[1].category, "Other");
    assert_eq!(answer.markers[1].data, Some(serde_json::Value::String("m1".to_string())));
    req.limit = 50;
    assert_eq!(ProfileServer::profile_markers(&found, &req).unwrap().markers.len(), 3);
}

#[test]
fn the_flamegraph_names_its_thread() {
    let found = found(vec![thread("main", vec![])], vec![vec![]]);
    let req = FlamegraphRequest {
        path: "x".to_string(),
        thread: None,
    };
    let collapse = |thread: &ResolvedThread| format!("{};g 2\n", thread.name);
    let answer = ProfileServer::profile_flamegraph(&found, &req, collapse).unwrap();
    assert_eq!(answer.thread, "main");
    assert_eq!(answer.collapsed_stacks, "main;g 2\n");
}

#[test]
fn total_times_compare_where_they_are_numbers() {
    let numbers = vec![stats("a", 1.0, 2.0, 1), stats("b", 1.0, f64::INFINITY, 1)];
    assert!(total_times_compare(&numbers));
    let one = vec![stats("a", 1.0, f64::NAN, 1)];
    assert!(total_times_compare(&one));
    assert_eq!(top_functions(&one, &"total".to_string(), 5).len(), 1);
    assert!(!total_times_compare(&vec![stats("a", 1.0, 2.0, 1), stats("b", 1.0, f64::NAN, 1)]));
}

#[test]
fn a_detail_fits_where_its_samples_do() {
    let threads = vec![thread("a", vec![stack(vec!["f", "g"])]), thread("b", vec![])];
    let cached = found(
        threads,
        vec![
            vec![stats("f", 1.0, 1.0, usize::MAX), stats("g", 1.0, 1.0, 5)],
            vec![stats("f", 1.0, 1.0, 1), stats("g", 1.0, 1.0, 6)],
        ],
    )
    .unwrap();
    let threads = &cached.profile.threads;
    assert!(!detail_fits(threads, &cached.cache, &"f".to_string()));
    assert!(detail_fits(threads, &cached.cache, &"g".to_string()));
    assert!(neighbours_fit(threads, &"f".to_string(), Side::Callee));
    let detail = function_detail(threads, &cached.cache, &"g".to_string()).unwrap();
    assert_eq!(detail.sample_count, 11);
    assert!(function_detail(threads, &cached.cache, &"h".to_string()).is_none());
    let name = resolve_function_name(&cached.cache, &"g".to_string());
    assert_eq!(name, "g");
}
