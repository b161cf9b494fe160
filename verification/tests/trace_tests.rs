use await_tree_analyzer::analyze::AnalyzeSummary;
use await_tree_analyzer::time::parse_elapsed_ns;
use await_tree_analyzer::time::parse_time_str;
use await_tree_analyzer::time::render_time;
use await_tree_analyzer::reconstruct;
use await_tree_analyzer::TraceError;
use await_tree_analyzer::TreeView;

fn name_of(n: &await_tree_analyzer::SpanNodeView) -> String {
    n.span.name.iter().collect()
}

#[test]
fn test_parse_tree_view_from_text_1() {
    let input = r#"Actor 132: `mv` [21.285s]
  Epoch 8251479171792896 [!!! 21.283s]
    Materialize 8400000007 [!!! 21.283s]
      Project 8400000006 [!!! 21.280s]
        HashAgg 8400000005 [!!! 21.280s]
          Merge 8400000004 [0.001s]  <== current
"#;
    let res = TreeView::from_text(input);
    assert!(res.is_ok());
    let tree_view = res.unwrap();

    let expected = r#"Actor 132: `mv` [21.285s]
  Epoch 8251479171792896 [!!! 21.283s]
    Materialize 8400000007 [!!! 21.283s]
      Project 8400000006 [!!! 21.280s]
        HashAgg 8400000005 [!!! 21.280s]
          Merge 8400000004 [0.001s]
"#;
    assert_eq!(tree_view.render(), expected);
}

#[test]
fn test_parse_tree_view_from_text_2() {
    let input = r#"Actor 132: `mv` [21.285s]
  Epoch 8251479171792896 [!!! 21.283s]
    Materialize 8400000007 [!!! 21.283s]
      Project 8400000006 [!!! 21.280s]
        HashAgg 8400000005 [!!! 21.280s]
          Merge 8400000004 [0.001s]  <== current
        HashAgg 8400000005 [!!! 21.380s]
"#;
    let res = TreeView::from_text(input);
    assert!(res.is_ok());
    let tree_view = res.unwrap();

    let expected = r#"Actor 132: `mv` [21.285s]
  Epoch 8251479171792896 [!!! 21.283s]
    Materialize 8400000007 [!!! 21.283s]
      Project 8400000006 [!!! 21.280s]
        HashAgg 8400000005 [!!! 21.280s]
          Merge 8400000004 [0.001s]
        HashAgg 8400000005 [!!! 21.380s]
"#;
    assert_eq!(tree_view.render(), expected);
}

#[test]
fn depth_reconstruction() {
    // Lines at depths 0,1,2,1: the root gets the first depth-1 node (which
    // owns the depth-2 node) and then the second depth-1 node.
    let input = "a [1.000s]\n  b [2.000s]\n    c [3.000s]\n  d [4.000s]\n";
    let t = TreeView::from_text(input).unwrap();
    assert_eq!(name_of(&t.tree), "a");
    assert_eq!(t.tree.children.len(), 2);
    assert_eq!(name_of(&t.tree.children[0]), "b");
    assert_eq!(t.tree.children[0].children.len(), 1);
    assert_eq!(name_of(&t.tree.children[0].children[0]), "c");
    assert_eq!(name_of(&t.tree.children[1]), "d");
    assert!(t.tree.children[1].children.is_empty());
}

#[test]
fn fast_children_tie_break() {
    // HashAgg at 1590.993s with one child at 980.020ms: the mean child
    // elapsed time of 0.980s, times five, is far below the node's own.
    let input = "Actor 1: `x` [1595.673s]\n  HashAgg 9 [!!! 1590.993s]\n    Merge 8 [980.020ms]\n";
    let t = TreeView::from_text(input).unwrap();
    assert!(t.has_fast_children());
    assert!(t.is_bottleneck());
}

#[test]
fn epoch_not_a_trigger() {
    // The epoch span would qualify numerically but is excluded by name.
    let input = "Actor 1: `x` [1595.653s]\n  Epoch 7509626714259456 [!!! 1582.513s]\n    Merge 1 [1.000s]\n";
    let t = TreeView::from_text(input).unwrap();
    assert!(!t.has_fast_children());
    assert!(!t.is_bottleneck());
}

#[test]
fn io_bound_aggregation() {
    let t10 = "Actor 10: `a` [20.000s]\n  store_get [!!! 15.000s]\n".to_string();
    let t11 = "Actor 11: `b` [21.000s]\n  store_get [!!! 16.000s]\n".to_string();
    let traces = vec![(10u32, t10), (11u32, t11)];
    let summary = AnalyzeSummary::from_traces(&traces).unwrap();
    assert_eq!(summary.io_bound_actors.len(), 1);
    let (ref name, ref ids) = summary.io_bound_actors[0];
    let name: String = name.iter().collect();
    assert_eq!(name, "store_get");
    assert_eq!(ids.as_slice(), &[10u32, 11u32]);
}

#[test]
fn malformed_empty_input() {
    assert!(matches!(TreeView::from_text(""), Err(TraceError::MalformedTrace)));
    assert!(matches!(reconstruct(""), Err(TraceError::MalformedTrace)));
}

#[test]
fn malformed_worker_aborts_batch() {
    let good = "Actor 1: `a` [1.000s]\n".to_string();
    let bad = "".to_string();
    let traces = vec![(1u32, good), (2u32, bad)];
    let err = match AnalyzeSummary::from_traces(&traces) {
        Ok(_) => panic!("analysis should abort on the malformed trace"),
        Err(e) => e,
    };
    assert_eq!(err.actor_id, 2);
    assert_eq!(err.error, TraceError::MalformedTrace);
}

#[test]
fn time_literal_parsing() {
    assert_eq!(parse_time_str("12.345s"), 12_345_000_000);
    assert_eq!(parse_time_str("123ms"), 123_000_000);
    assert_eq!(parse_time_str("980.020ms"), 980_020_000);
    assert_eq!(parse_time_str("456789ns"), 456_789);
    assert_eq!(parse_time_str("0.001s"), 1_000_000);
    // Leniency: malformed literals parse as zero.
    assert_eq!(parse_time_str("abc"), 0);
    assert_eq!(parse_time_str("1.2.3s"), 0);
    assert_eq!(parse_time_str(""), 0);
    assert_eq!(parse_time_str("ms"), 0);
    assert_eq!(parse_elapsed_ns("!!! 21.283s"), 21_283_000_000);
    assert_eq!(parse_elapsed_ns("21.283s"), 21_283_000_000);
    assert_eq!(parse_elapsed_ns("!!!"), 0);
}

#[test]
fn time_literal_round_trip() {
    assert_eq!(render_time(21_283_000_000, true), "!!! 21.283s");
    assert_eq!(render_time(21_283_000_000, false), "21.283s");
    assert_eq!(render_time(0, false), "0.000s");
    assert_eq!(render_time(999, false), "0.000s");
    // Inverse within truncation to whole milliseconds.
    for &(ns, stalled) in
        &[(0u128, false), (1_000_000u128, true), (21_283_000_000u128, true), (987_654_321u128, false)]
    {
        let lit = render_time(ns, stalled);
        assert_eq!(parse_elapsed_ns(&lit), (ns / 1_000_000) * 1_000_000);
    }
}

#[test]
fn detached_blocks_render_after_root() {
    // Two top-level blocks: the later block becomes the root, the earlier
    // one is filed as a detached subtree.
    let input = "a [1.000s]\n  b [2.000s]\nc [3.000s]\n";
    let t = TreeView::from_text(input).unwrap();
    assert_eq!(name_of(&t.tree), "c");
    assert_eq!(t.detached.len(), 1);
    assert_eq!(name_of(&t.detached[0]), "a");
    assert_eq!(t.render(), "c [3.000s]\n[Detached 0]\n  a [1.000s]\n    b [2.000s]\n");
}

#[test]
fn children_render_sorted_by_elapsed() {
    let input = "r [1.000s]\n  slow [9.000s]\n  quick [2.000s]\n";
    let t = TreeView::from_text(input).unwrap();
    assert_eq!(t.render(), "r [1.000s]\n  quick [2.000s]\n  slow [9.000s]\n");
}

#[test]
fn render_reparse_is_stable() {
    let input = "Actor 7: `m` [30.000s]\n  store_flush [!!! 29.000s]\n  Merge 1 [1.500s]\n";
    let once = TreeView::from_text(input).unwrap().render();
    let twice = TreeView::from_text(&once).unwrap().render();
    assert_eq!(once, twice);
}

#[test]
fn summary_report_rendering() {
    let t10 = "Actor 10: `a` [20.000s]\n  store_get [!!! 15.000s]\n".to_string();
    let traces = vec![(10u32, t10)];
    let summary = AnalyzeSummary::from_traces(&traces).unwrap();
    let report = summary.render_summary();
    assert_eq!(
        report,
        "------ Analyze Summary ------\n\n--- IO Bound Actors ---\n>> IO Info: `store_get`\n  Actors: [10]\n"
    );
}

#[test]
fn empty_summary_report() {
    let summary = AnalyzeSummary::new();
    assert_eq!(
        summary.render_summary(),
        "------ Analyze Summary ------\nNo bottleneck actors detected.\n"
    );
}

#[test]
fn merge_unions_io_sets() {
    let ta = "Actor 1: `a` [20.000s]\n  store_get [!!! 15.000s]\n".to_string();
    let tb = "Actor 2: `b` [20.000s]\n  store_get [!!! 15.000s]\n  fetch_block_x [!!! 12.000s]\n".to_string();
    let mut a = AnalyzeSummary::from_traces(&vec![(1u32, ta)]).unwrap();
    let b = AnalyzeSummary::from_traces(&vec![(2u32, tb)]).unwrap();
    a.merge_other(&b);
    assert_eq!(a.io_bound_actors.len(), 2);
    let n0: String = a.io_bound_actors[0].0.iter().collect();
    let n1: String = a.io_bound_actors[1].0.iter().collect();
    assert_eq!(n0, "fetch_block_x");
    assert_eq!(n1, "store_get");
    assert_eq!(a.io_bound_actors[0].1.as_slice(), &[2u32]);
    assert_eq!(a.io_bound_actors[1].1.as_slice(), &[1u32, 2u32]);
}

#[test]
fn blank_and_unparseable_lines_are_skipped() {
    // Blank lines and lines without a bracketed literal are non-content.
    let input = "\nnote without bracket\na [1.000s]\n\n  b [no-unit]\n";
    let t = TreeView::from_text(input).unwrap();
    assert_eq!(name_of(&t.tree), "a");
    assert_eq!(t.tree.children.len(), 1);
    // A malformed literal degrades to a zero duration, not a failure.
    assert_eq!(t.tree.children[0].elapsed_ns, 0);
}

#[test]
fn io_bound_methods() {
    let t = TreeView::from_text("Actor 3: `x` [20.000s]\n  fetch_block_meta [!!! 11.000s]\n")
        .unwrap();
    assert!(t.is_io_bound());
    assert!(!t.has_fast_children());
    assert!(t.is_bottleneck());
    let mut io = Vec::new();
    t.find_io_bound(3, &mut io);
    assert_eq!(io.len(), 1);
    let name: String = io[0].0.iter().collect();
    assert_eq!(name, "fetch_block_meta");
    assert_eq!(io[0].1.as_slice(), &[3u32]);
    // A long-running span is exempt from stall flagging.
    let exempt = TreeView::from_text("Actor 3: `x` [20.000s]\n  store_get [11.000s]\n").unwrap();
    assert!(!exempt.is_io_bound());
}

#[test]
fn dispatch_only_on_leading_brace() {
    // A brace later in the text does not select the structured decoder.
    let t = reconstruct("a {b} [1.000s]\n").unwrap();
    assert_eq!(name_of(&t.tree), "a {b}");
}

#[test]
fn unmarked_long_duration_means_long_running() {
    // An unmarked duration of at least ten seconds signals "expected to run
    // long", so it is exempt from the stall marker on re-rendering.
    let t = TreeView::from_text("a [15.000s]\n").unwrap();
    assert!(t.tree.span.is_long_running);
    assert_eq!(t.render(), "a [15.000s]\n");
    let t2 = TreeView::from_text("a [!!! 15.000s]\n").unwrap();
    assert!(!t2.tree.span.is_long_running);
    assert_eq!(t2.render(), "a [!!! 15.000s]\n");
}
