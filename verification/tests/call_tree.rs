use samply_mcp::binary64::Binary64;
use samply_mcp::call_tree::{
    build_call_tree, call_times_compare, sample_intervals, CallTreeNode, Measure, Scale,
};
use samply_mcp::profile::{ResolvedFrame, ResolvedSample, ResolvedThread};

fn number(value: f64) -> Binary64 {
    Binary64 {
        bits: value.to_bits(),
    }
}

fn measure(value: f64) -> Measure {
    Measure {
        value: number(value),
        text: format!("{:.1}", value),
    }
}

fn scale(thread: &ResolvedThread) -> Scale {
    let interval = match sample_intervals(thread) {
        Some(intervals) => f64::from_bits(thread.duration_ms.bits) / intervals as f64,
        None => 1.0,
    };
    let total = interval * thread.samples.len() as f64;
    let mut times = vec![];
    let mut percents = vec![];
    let mut time = 0.0;
    for _ in 0..=thread.samples.len() {
        times.push(measure(time));
        percents.push(measure(if total > 0.0 { time / total * 100.0 } else { 0.0 }));
        time += interval;
    }
    Scale { times, percents }
}

fn make_frame(name: &str) -> ResolvedFrame {
    ResolvedFrame {
        function_name: name.to_string(),
        file: None,
        line: None,
        category: "Other".to_string(),
        library: None,
    }
}

fn sample(timestamp_ms: f64, stack: Vec<ResolvedFrame>) -> ResolvedSample {
    ResolvedSample {
        timestamp_ms: number(timestamp_ms),
        weight: 1,
        cpu_delta_us: None,
        stack,
    }
}

fn thread(duration_ms: f64, samples: Vec<ResolvedSample>) -> ResolvedThread {
    ResolvedThread {
        name: "test".to_string(),
        pid: "1".to_string(),
        tid: "1".to_string(),
        is_main: true,
        duration_ms: number(duration_ms),
        markers: vec![],
        samples,
    }
}

fn build(thread: &ResolvedThread, max_depth: usize, min_percent: f64) -> CallTreeNode {
    build_call_tree(thread, max_depth, number(min_percent), &scale(thread))
}

fn basic_thread() -> ResolvedThread {
    thread(
        20.0,
        vec![
            sample(0.0, vec![make_frame("main"), make_frame("foo"), make_frame("bar")]),
            sample(10.0, vec![make_frame("main"), make_frame("foo")]),
            sample(20.0, vec![make_frame("main"), make_frame("baz")]),
        ],
    )
}

fn time(measure: &Measure) -> f64 {
    f64::from_bits(measure.value.bits)
}

#[test]
fn test_call_tree_basic() {
    let thread = basic_thread();

    let tree = build(&thread, 10, 0.0);
    assert_eq!(tree.function_name, "(root)");
    assert_eq!(tree.children.len(), 1);
    let main_node = &tree.children[0];
    assert_eq!(main_node.function_name, "main");
    assert_eq!(main_node.children.len(), 2);
}

#[test]
fn times_follow_the_samples() {
    let tree = build(&basic_thread(), 10, 0.0);
    assert_eq!(time(&tree.total_time_ms), 30.0);
    assert_eq!(time(&tree.self_time_ms), 0.0);
    assert_eq!(time(&tree.total_percent), 100.0);
    let main_node = &tree.children[0];
    assert_eq!(main_node.children[0].function_name, "foo");
    assert_eq!(time(&main_node.children[0].total_time_ms), 20.0);
    assert_eq!(time(&main_node.children[0].self_time_ms), 10.0);
    assert_eq!(main_node.children[1].function_name, "baz");
    assert_eq!(time(&main_node.children[1].self_time_ms), 10.0);
    assert_eq!(main_node.children[0].children[0].function_name, "bar");
    assert_eq!(time(&main_node.children[0].children[0].self_time_ms), 10.0);
}

#[test]
fn the_longest_call_comes_first() {
    let thread = thread(
        30.0,
        vec![
            sample(0.0, vec![make_frame("a")]),
            sample(10.0, vec![make_frame("b")]),
            sample(20.0, vec![make_frame("b")]),
            sample(30.0, vec![make_frame("c")]),
        ],
    );
    let tree = build(&thread, 10, 0.0);
    assert_eq!(tree.children.len(), 3);
    assert_eq!(tree.children[0].function_name, "b");
}

#[test]
fn time_below_the_depth_is_nobodys_own() {
    let tree = build(&basic_thread(), 1, 0.0);
    let main_node = &tree.children[0];
    assert_eq!(main_node.children.len(), 0);
    assert_eq!(time(&main_node.total_time_ms), 30.0);
    assert_eq!(time(&main_node.self_time_ms), 0.0);
}

#[test]
fn no_depth_leaves_the_root() {
    let tree = build(&basic_thread(), 0, 0.0);
    assert_eq!(tree.children.len(), 0);
    assert_eq!(time(&tree.total_time_ms), 30.0);
    assert_eq!(time(&tree.self_time_ms), 0.0);
}

#[test]
fn small_shares_are_left_out() {
    let tree = build(&basic_thread(), 10, 50.0);
    let main_node = &tree.children[0];
    assert_eq!(main_node.children.len(), 1);
    assert_eq!(main_node.children[0].function_name, "foo");
    assert_eq!(main_node.children[0].children.len(), 0);
}

#[test]
fn a_share_at_the_threshold_is_kept() {
    let thread = thread(
        10.0,
        vec![
            sample(0.0, vec![make_frame("a")]),
            sample(10.0, vec![make_frame("b")]),
        ],
    );
    assert_eq!(build(&thread, 10, 50.0).children.len(), 2);
    assert_eq!(build(&thread, 10, 50.1).children.len(), 0);
    assert_eq!(build(&thread, 10, f64::NAN).children.len(), 0);
}

#[test]
fn an_empty_stack_is_time_of_the_root() {
    let thread = thread(10.0, vec![sample(0.0, vec![]), sample(10.0, vec![make_frame("a")])]);
    let tree = build(&thread, 10, 0.0);
    assert_eq!(time(&tree.self_time_ms), 10.0);
    assert_eq!(time(&tree.total_time_ms), 20.0);
    assert_eq!(tree.children.len(), 1);
}

#[test]
fn a_single_sample_counts_a_millisecond() {
    let thread = thread(500.0, vec![sample(0.0, vec![make_frame("a")])]);
    assert_eq!(sample_intervals(&thread), None);
    let tree = build(&thread, 10, 0.0);
    assert_eq!(time(&tree.total_time_ms), 1.0);
    assert_eq!(time(&tree.children[0].self_time_ms), 1.0);
}

#[test]
fn a_thread_without_samples_has_a_bare_root() {
    let thread = thread(0.0, vec![]);
    let tree = build(&thread, 10, 0.0);
    assert_eq!(tree.children.len(), 0);
    assert_eq!(tree.render_text(10), "(root) [0.0% total, 0.0ms self]\n");
}

#[test]
fn intervals_lie_between_samples() {
    assert_eq!(sample_intervals(&basic_thread()), Some(2));
}

#[test]
fn recursion_is_told_apart_by_depth() {
    let thread = thread(
        10.0,
        vec![
            sample(0.0, vec![make_frame("f"), make_frame("f")]),
            sample(10.0, vec![make_frame("f")]),
        ],
    );
    let tree = build(&thread, 10, 0.0);
    assert_eq!(time(&tree.children[0].total_time_ms), 20.0);
    assert_eq!(time(&tree.children[0].self_time_ms), 10.0);
    assert_eq!(time(&tree.children[0].children[0].self_time_ms), 10.0);
}

#[test]
fn text_has_a_line_per_node() {
    let tree = build(&basic_thread(), 10, 0.0);
    let expected = "(root) [100.0% total, 0.0ms self]\n  main [100.0% total, 0.0ms self]\n    foo [66.7% total, 10.0ms self]\n      bar [33.3% total, 10.0ms self]\n    baz [33.3% total, 10.0ms self]\n";
    assert_eq!(tree.render_text(10), expected);
}

#[test]
fn text_stops_at_the_depth() {
    let tree = build(&basic_thread(), 10, 0.0);
    assert_eq!(
        tree.render_text(1),
        "(root) [100.0% total, 0.0ms self]\n  main [100.0% total, 0.0ms self]\n"
    );
    assert_eq!(tree.render_text(0), "(root) [100.0% total, 0.0ms self]\n");
}

#[test]
fn a_tree_is_shown_in_full_at_its_depth() {
    let tree = build(&basic_thread(), 2, 0.0);
    assert_eq!(tree.render_text(2), tree.render_text(usize::MAX));
}

#[test]
fn limits_do_not_move_time() {
    let shallow = build(&basic_thread(), 1, 0.0);
    let deep = build(&basic_thread(), 10, 0.0);
    assert_eq!(time(&shallow.children[0].self_time_ms), time(&deep.children[0].self_time_ms));
    assert_eq!(time(&shallow.children[0].total_time_ms), time(&deep.children[0].total_time_ms));
}

#[test]
fn samples_split_over_calls() {
    let tree = build(&basic_thread(), 10, 0.0);
    let main_node = &tree.children[0];
    let below: f64 = main_node.children.iter().map(|child| time(&child.total_time_ms)).sum();
    assert_eq!(time(&main_node.total_time_ms), time(&main_node.self_time_ms) + below);
}

#[test]
fn wider_limits_keep_more() {
    let narrow = build(&basic_thread(), 10, 50.0);
    let wide = build(&basic_thread(), 10, 10.0);
    assert_eq!(narrow.children[0].children.len(), 1);
    assert_eq!(wide.children[0].children.len(), 2);
    assert_eq!(wide.children[0].children[0].children.len(), 1);
}

#[test]
fn a_clone_renders_the_same() {
    let tree = build(&basic_thread(), 10, 0.0);
    assert_eq!(tree.clone().render_text(10), tree.render_text(10));
}

#[test]
fn times_compare_unless_two_kept_calls_have_none() {
    let two = thread(
        f64::NAN,
        vec![
            sample(0.0, vec![make_frame("a")]),
            sample(10.0, vec![make_frame("b")]),
        ],
    );
    let one = thread(
        f64::NAN,
        vec![
            sample(0.0, vec![make_frame("a")]),
            sample(10.0, vec![make_frame("a")]),
        ],
    );
    assert!(!call_times_compare(&two, 10, number(0.0), &scale(&two)));
    assert!(call_times_compare(&two, 10, number(1.0), &scale(&two)));
    assert!(call_times_compare(&two, 0, number(0.0), &scale(&two)));
    assert!(call_times_compare(&one, 10, number(0.0), &scale(&one)));
    let basic = basic_thread();
    assert!(call_times_compare(&basic, 10, number(0.0), &scale(&basic)));
    assert_eq!(build(&one, 10, 0.0).children.len(), 1);
}

fn prune(node: &CallTreeNode, min_percent: f64) -> CallTreeNode {
    let mut pruned = node.clone();
    pruned.children = node
        .children
        .iter()
        .filter(|child| time(&child.total_percent) >= min_percent)
        .map(|child| prune(child, min_percent))
        .collect();
    pruned
}

#[test]
fn a_higher_threshold_prunes() {
    let loose = build(&basic_thread(), 10, 0.0);
    for min_percent in [0.0, 33.0, 34.0, 66.0, 67.0, 100.0, 101.0] {
        let tight = build(&basic_thread(), 10, min_percent);
        assert_eq!(tight.render_text(10), prune(&loose, min_percent).render_text(10));
    }
}

#[test]
fn a_subtree_is_its_own_text_indented() {
    let tree = build(&basic_thread(), 10, 0.0);
    let own = tree.children[0].render_text(9);
    let mut expected = "(root) [100.0% total, 0.0ms self]\n".to_string();
    for line in own.lines() {
        expected.push_str("  ");
        expected.push_str(line);
        expected.push('\n');
    }
    assert_eq!(tree.render_text(10), expected);
}

#[test]
fn a_smaller_depth_cuts_the_tree() {
    let deep = build(&basic_thread(), 10, 0.0);
    let cut = build(&basic_thread(), 2, 0.0);
    assert_eq!(deep.children[0].children[0].children.len(), 1);
    let (deep, cut) = (&deep.children[0], &cut.children[0]);
    assert_eq!(cut.function_name, deep.function_name);
    assert_eq!(cut.children.len(), deep.children.len());
    for i in 0..cut.children.len() {
        assert_eq!(cut.children[i].function_name, deep.children[i].function_name);
        assert_eq!(time(&cut.children[i].total_time_ms), time(&deep.children[i].total_time_ms));
        assert_eq!(time(&cut.children[i].self_time_ms), time(&deep.children[i].self_time_ms));
        assert!(cut.children[i].children.is_empty());
    }
    assert!(build(&basic_thread(), 0, 0.0).children.is_empty());
}

#[test]
fn the_order_of_samples_does_not_matter_to_the_tree() {
    let mut reversed = basic_thread();
    reversed.samples.reverse();
    let one = build(&basic_thread(), 10, 0.0);
    let other = build(&reversed, 10, 0.0);
    assert_eq!(one.render_text(10), other.render_text(10));
}

#[test]
fn a_subtree_is_appended_to_what_is_there() {
    let tree = build(&basic_thread(), 10, 0.0);
    let mut output = "above\n".to_string();
    tree.children[0].children[1].render_recursive(&mut output, 1, 5);
    assert_eq!(output, "above\n  baz [33.3% total, 10.0ms self]\n");
    tree.render_recursive(&mut output, 6, 5);
    assert_eq!(output, "above\n  baz [33.3% total, 10.0ms self]\n");
}
