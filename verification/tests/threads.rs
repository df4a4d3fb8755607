use samply_mcp::binary64::Binary64;
use samply_mcp::profile::{ResolvedProfile, ResolvedSample, ResolvedThread};
use samply_mcp::threads::{find_thread, find_thread_position, first_containing};

fn zero() -> Binary64 {
    Binary64 { bits: 0 }
}

fn thread(name: &str, is_main: bool, samples: usize) -> ResolvedThread {
    let mut taken = vec![];
    for _ in 0..samples {
        taken.push(ResolvedSample {
            timestamp_ms: zero(),
            weight: 1,
            cpu_delta_us: None,
            stack: vec![],
        });
    }
    ResolvedThread {
        name: name.to_string(),
        pid: "1".to_string(),
        tid: "1".to_string(),
        is_main,
        duration_ms: zero(),
        markers: vec![],
        samples: taken,
    }
}

fn profile(threads: Vec<ResolvedThread>) -> ResolvedProfile {
    ResolvedProfile {
        product: "test".to_string(),
        duration_ms: zero(),
        interval_ms: zero(),
        total_sample_count: 0,
        categories: vec![],
        threads,
    }
}

fn found(profile: &ResolvedProfile, name: Option<&str>) -> Option<String> {
    find_thread(profile, &name.map(|n| n.to_string())).map(|t| t.name.clone())
}

#[test]
fn an_exact_name_comes_first() {
    let profile = profile(vec![
        thread("worker-1", false, 0),
        thread("WORKER", false, 0),
        thread("worker", false, 0),
    ]);
    assert_eq!(found(&profile, Some("worker")), Some("worker".to_string()));
}

#[test]
fn a_part_of_the_name_is_found_whatever_its_case() {
    let profile = profile(vec![
        thread("main", true, 1),
        thread("Tokio-Worker", false, 0),
        thread("tokio-worker-2", false, 0),
    ]);
    assert_eq!(found(&profile, Some("OKIO-work")), Some("Tokio-Worker".to_string()));
}

#[test]
fn case_is_ignored_beyond_ascii() {
    let profile = profile(vec![thread("Ärger", false, 0)]);
    assert_eq!(found(&profile, Some("äRG")), Some("Ärger".to_string()));
}

#[test]
fn an_unknown_name_finds_nothing() {
    let profile = profile(vec![thread("main", true, 1)]);
    assert_eq!(found(&profile, Some("render")), None);
}

#[test]
fn the_empty_name_is_part_of_every_name() {
    let profile = profile(vec![thread("main", true, 1), thread("other", false, 0)]);
    assert_eq!(found(&profile, Some("")), Some("main".to_string()));
}

#[test]
fn the_default_is_the_busiest_main_thread() {
    let profile = profile(vec![
        thread("samply", true, 0),
        thread("helper", true, 2),
        thread("app", true, 5),
        thread("same", true, 5),
        thread("busy", false, 9),
    ]);
    assert_eq!(found(&profile, None), Some("app".to_string()));
}

#[test]
fn a_main_thread_without_samples_gives_way() {
    let profile = profile(vec![
        thread("samply", true, 0),
        thread("idle", false, 0),
        thread("worker", false, 3),
        thread("busier", false, 7),
    ]);
    assert_eq!(found(&profile, None), Some("worker".to_string()));
}

#[test]
fn without_samples_the_first_main_thread_is_taken() {
    let profile = profile(vec![thread("worker", false, 0), thread("main", true, 0)]);
    assert_eq!(found(&profile, None), Some("main".to_string()));
}

#[test]
fn without_main_threads_the_first_is_taken() {
    let profile = profile(vec![thread("one", false, 0), thread("two", false, 0)]);
    assert_eq!(found(&profile, None), Some("one".to_string()));
}

#[test]
fn a_profile_without_threads_has_no_default() {
    assert_eq!(found(&profile(vec![]), None), None);
}

#[test]
fn the_first_of_several_threads_of_a_name_is_found() {
    let profile = profile(vec![thread("x", false, 0), thread("W", false, 0), thread("W", false, 4)]);
    assert_eq!(find_thread_position(&profile, &Some("W".to_string())), Some(1));
    assert_eq!(find_thread_position(&profile, &None), Some(2));
    assert_eq!(find_thread_position(&profile, &Some("y".to_string())), None);
}

#[test]
fn the_first_text_that_contains_the_needle() {
    let texts = vec!["abc".to_string(), "xbcx".to_string(), "bcx".to_string()];
    assert_eq!(first_containing(&texts, &"bcx".to_string()), Some(1));
    assert_eq!(first_containing(&texts, &"zz".to_string()), None);
    assert_eq!(first_containing(&texts, &"".to_string()), Some(0));
}
