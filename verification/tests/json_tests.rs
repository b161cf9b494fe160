use await_tree_analyzer::reconstruct;
use await_tree_analyzer::TraceError;
use await_tree_analyzer::TreeView;

#[test]
fn json_decoding() {
    let doc = "{\"current\": 3, \"tree\": {\"id\": 1, \"span\": {\"name\": \"Actor 5: `m`\", \"is_verbose\": false, \"is_long_running\": true}, \"elapsed_ns\": 21285000000, \"children\": [{\"id\": 3, \"span\": {\"name\": \"Merge 1\", \"is_verbose\": false, \"is_long_running\": false}, \"elapsed_ns\": 1000000, \"children\": []}]}, \"detached\": []}";
    let t = TreeView::from_json(doc).unwrap();
    assert_eq!(t.current, 3);
    assert_eq!(t.tree.id, 1);
    let name: String = t.tree.span.name.iter().collect();
    assert_eq!(name, "Actor 5: `m`");
    assert!(t.tree.span.is_long_running);
    assert_eq!(t.tree.elapsed_ns, 21_285_000_000);
    assert_eq!(t.tree.children.len(), 1);
    assert_eq!(t.tree.children[0].id, 3);
    assert!(t.detached.is_empty());
    // The child carries the current-span marker when rendered.
    assert_eq!(
        t.render(),
        "Actor 5: `m` [21.285s]\n  Merge 1 [0.001s]  <== current\n"
    );
}

#[test]
fn json_dispatch_and_errors() {
    // The reconstruction entry point dispatches on a leading brace.
    let doc = "  {\"current\": 0, \"tree\": {\"id\": 0, \"span\": {\"name\": \"a\", \"is_verbose\": false, \"is_long_running\": false}, \"elapsed_ns\": 5, \"children\": []}, \"detached\": []}";
    let t = reconstruct(doc).unwrap();
    assert_eq!(t.tree.elapsed_ns, 5);
    // Unparseable and schema-mismatching documents are malformed.
    assert!(matches!(reconstruct("{"), Err(TraceError::MalformedTrace)));
    assert!(matches!(
        TreeView::from_json("{\"current\": 0}"),
        Err(TraceError::MalformedTrace)
    ));
    assert!(matches!(
        TreeView::from_json("{\"current\": true, \"tree\": null, \"detached\": []}"),
        Err(TraceError::MalformedTrace)
    ));
}
