use samply_mcp::binary64::Binary64;
use samply_mcp::cache::{AnalysisCache, FunctionStats};
use samply_mcp::profile::{ResolvedProfile, ResolvedThread};
use samply_mcp::server::{CachedProfile, ProfileServer};

fn zero() -> Binary64 {
    Binary64 { bits: 0 }
}

fn profile(product: &str, threads: Vec<&str>) -> ResolvedProfile {
    ResolvedProfile {
        product: product.to_string(),
        duration_ms: zero(),
        interval_ms: zero(),
        total_sample_count: 0,
        categories: vec![],
        threads: threads
            .into_iter()
            .map(|name| ResolvedThread {
                name: name.to_string(),
                pid: "1".to_string(),
                tid: "1".to_string(),
                is_main: false,
                duration_ms: zero(),
                markers: vec![],
                samples: vec![],
            })
            .collect(),
    }
}

fn cached(product: &str, threads: Vec<&str>) -> CachedProfile {
    CachedProfile::new(profile(product, threads), |thread: &ResolvedThread| stats(&thread.name))
}

fn stats(name: &str) -> Vec<FunctionStats> {
    vec![FunctionStats {
        name: name.to_string(),
        self_time_ms: zero(),
        total_time_ms: zero(),
        self_percent: zero(),
        total_percent: zero(),
        sample_count: 1,
        library: None,
        file: None,
        line: None,
    }]
}

fn path(text: &str) -> Vec<u8> {
    text.as_bytes().to_vec()
}

#[test]
fn each_thread_keeps_its_own_stats() {
    let mut profile = profile("p", vec!["a", "b", "a"]);
    profile.threads[2].tid = "2".to_string();
    let cache = AnalysisCache::build(&profile, |thread: &ResolvedThread| {
        stats(&format!("{}{}", thread.name, thread.tid))
    });
    assert_eq!(cache.function_stats.len(), 3);
    assert_eq!(cache.function_stats[0][0].name, "a1");
    assert_eq!(cache.function_stats[1][0].name, "b1");
    assert_eq!(cache.function_stats[2][0].name, "a2");
}

#[test]
fn the_order_of_threads_does_not_matter_to_their_stats() {
    let compute = |thread: &ResolvedThread| stats(&format!("in {}", thread.name));
    let one = AnalysisCache::build(&profile("p", vec!["a", "b", "c"]), compute);
    let other = AnalysisCache::build(&profile("p", vec!["c", "a", "b"]), compute);
    assert_eq!(one.function_stats[0][0].name, "in a");
    assert_eq!(other.function_stats[1][0].name, "in a");
    assert_eq!(one.function_stats[1][0].name, other.function_stats[2][0].name);
    assert_eq!(one.function_stats[2][0].name, other.function_stats[0][0].name);
}

#[test]
fn a_profile_is_cached_with_its_stats() {
    let cached = cached("one", vec!["a", "b"]);
    assert_eq!(cached.profile.product, "one");
    assert_eq!(cached.profile.threads.len(), 2);
    assert_eq!(cached.cache.function_stats.len(), 2);
    assert_eq!(cached.cache.function_stats[1][0].name, "b");
}

#[test]
fn a_new_server_has_loaded_nothing() {
    let server = ProfileServer::new();
    assert!(server.get_profile("x", &Ok(path("/x"))).unwrap().is_none());
}

#[test]
fn a_loaded_profile_is_found_again() {
    let mut server = ProfileServer::new();
    let added = server
        .add_profile("x", path("/x"), Ok(cached("one", vec!["f"])))
        .unwrap();
    let found = server.get_profile("./x", &Ok(path("/x"))).unwrap().unwrap();
    assert_eq!(found.profile.product, "one");
    assert!(std::sync::Arc::ptr_eq(&added, &found));
    assert_eq!(found.cache.function_stats[0][0].name, "f");
    assert!(server.get_profile("y", &Ok(path("/y"))).unwrap().is_none());
}

#[test]
fn a_later_load_takes_the_place_of_an_earlier_one() {
    let mut server = ProfileServer::new();
    assert!(server.add_profile("x", path("/x"), Ok(cached("one", vec![]))).is_ok());
    assert!(server.add_profile("y", path("/y"), Ok(cached("two", vec![]))).is_ok());
    assert!(server.add_profile("x", path("/x"), Ok(cached("three", vec![]))).is_ok());
    let x = server.get_profile("x", &Ok(path("/x"))).unwrap().unwrap();
    let y = server.get_profile("y", &Ok(path("/y"))).unwrap().unwrap();
    assert_eq!(x.profile.product, "three");
    assert_eq!(y.profile.product, "two");
}

#[test]
fn an_unusable_path_is_refused() {
    let server = ProfileServer::new();
    let refused = server.get_profile("no/such", &Err("No such file".to_string()));
    assert_eq!(refused.err().unwrap(), "Invalid path 'no/such': No such file");
}

#[test]
fn a_failed_load_is_refused_and_kept_out() {
    let mut server = ProfileServer::new();
    let refused = server.add_profile("x", path("/x"), Err("bad JSON".to_string()));
    assert_eq!(refused.err().unwrap(), "Failed to load profile 'x': bad JSON");
    assert!(server.get_profile("x", &Ok(path("/x"))).unwrap().is_none());
}
