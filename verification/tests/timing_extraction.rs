use dynamecs::{
    extract_step_timings, AccumulatedTimings, DerivedStats, Record, RecordBuilder, Span,
    SpanPath, SpanTree, SpanTreeError, SpanTreeNode, TimingAccumulator, TimingError,
};

const SECOND: i64 = 1_000_000_000;

fn path(names: &[&str]) -> SpanPath {
    SpanPath::new(names.iter().map(|s| s.to_string()).collect())
}

fn named_spans(names: &[&str]) -> Vec<Span> {
    names.iter().map(|n| Span::new(n.to_string())).collect()
}

fn enter(ts: i64, target: &str, span: Span, spans: Vec<Span>) -> Record {
    RecordBuilder::span_enter()
        .info()
        .timestamp(ts)
        .span(span)
        .spans(spans)
        .target(target.to_string())
        .thread_id("ThreadId(0)".to_string())
        .build()
}

fn exit(ts: i64, target: &str, span: Span, spans: Vec<Span>) -> Record {
    RecordBuilder::span_exit()
        .info()
        .timestamp(ts)
        .span(span)
        .spans(spans)
        .target(target.to_string())
        .thread_id("ThreadId(0)".to_string())
        .build()
}

fn event(ts: i64, target: &str, message: &str) -> Record {
    RecordBuilder::event()
        .debug()
        .timestamp(ts)
        .message(message.to_string())
        .target(target.to_string())
        .thread_id("ThreadId(0)".to_string())
        .build()
}

fn step(i: u64) -> Span {
    Span::with_step_index("step".to_string(), i)
}

/// Two nested step spans (0 and 1), each containing a `simulate` span
/// wrapping `assemble` and `solve`; step 1 additionally wraps a second
/// `assemble` and an `occasional` span.
fn synthetic_records1() -> Vec<Record> {
    let run = || Span::new("run".to_string());
    let simulate = || Span::new("simulate".to_string());
    let assemble = || Span::new("assemble".to_string());
    let solve = || Span::new("solve".to_string());
    let occasional = || Span::new("occasional".to_string());
    let s = SECOND;
    vec![
        event(0, "target1", "msg1"),
        enter(0, "dynamecs_app", run(), named_spans(&["run"])),
        enter(1 * s, "dynamecs_app", step(0), vec![run(), step(0)]),
        event(3 * s, "target2", "msg2"),
        enter(3 * s, "target3", simulate(), vec![run(), step(0), simulate()]),
        enter(3 * s, "target3", assemble(), vec![run(), step(0), simulate(), assemble()]),
        exit(6 * s, "target3", assemble(), vec![run(), step(0), simulate()]),
        enter(6 * s, "target3", solve(), vec![run(), step(0), simulate(), solve()]),
        exit(8 * s, "target3", solve(), vec![run(), step(0), simulate()]),
        exit(9 * s, "target3", simulate(), vec![run(), step(0)]),
        exit(9 * s, "dynamecs_app", step(0), vec![run()]),
        enter(9 * s, "dynamecs_app", step(1), vec![run(), step(1)]),
        event(10 * s, "target2", "msg2"),
        enter(12 * s, "target3", simulate(), vec![run(), step(1), simulate()]),
        enter(12 * s, "target3", assemble(), vec![run(), step(1), simulate(), assemble()]),
        exit(14 * s, "target3", assemble(), vec![run(), step(1), simulate()]),
        enter(14 * s, "target3", assemble(), vec![run(), step(1), simulate(), assemble()]),
        exit(17 * s, "target3", assemble(), vec![run(), step(1), simulate()]),
        enter(17 * s, "target3", solve(), vec![run(), step(1), simulate(), solve()]),
        exit(19 * s, "target3", solve(), vec![run(), step(1), simulate()]),
        enter(19 * s, "target3", occasional(), vec![run(), step(1), simulate(), occasional()]),
        exit(23 * s, "target3", occasional(), vec![run(), step(1), simulate()]),
        exit(24 * s, "target3", simulate(), vec![run(), step(1)]),
        exit(24 * s, "dynamecs_app", step(1), vec![run()]),
        exit(25 * s, "dynamecs_app", run(), vec![]),
    ]
}

fn find_child<'a>(
    node: &SpanTreeNode<'a, Option<DerivedStats>>,
    target: &SpanPath,
) -> SpanTreeNode<'a, Option<DerivedStats>> {
    node.visit_children()
        .into_iter()
        .find(|child| child.path() == *target)
        .expect("child not found")
}

fn stats_of(tree: &SpanTree<Option<DerivedStats>>, names: &[&str]) -> DerivedStats {
    let root = tree.root().expect("tree is empty");
    let root_depth = root.path().depth();
    let mut node = root;
    for depth in root_depth..names.len() {
        let target = path(&names[..depth + 1]);
        node = find_child(&node, &target);
    }
    node.payload().clone().expect("node carries no stats")
}

fn trees_equal(a: &SpanTree<Option<DerivedStats>>, b: &SpanTree<Option<DerivedStats>>) -> bool {
    fn nodes_equal(
        a: &SpanTreeNode<'_, Option<DerivedStats>>,
        b: &SpanTreeNode<'_, Option<DerivedStats>>,
    ) -> bool {
        if a.path() != b.path() || a.payload() != b.payload() {
            return false;
        }
        let ca = a.visit_children();
        let cb = b.visit_children();
        if ca.len() != cb.len() {
            return false;
        }
        ca.iter().zip(cb.iter()).all(|(x, y)| nodes_equal(x, y))
    }
    match (a.root(), b.root()) {
        (None, None) => true,
        (Some(ra), Some(rb)) => nodes_equal(&ra, &rb),
        _ => false,
    }
}

#[test]
fn test_extract_step_timings_synthetic1() {
    let records = synthetic_records1();
    let timings = extract_step_timings(records).unwrap();

    assert_eq!(timings.steps().len(), 2);
    assert_eq!(timings.steps()[0].step_index, 0);
    assert_eq!(timings.steps()[1].step_index, 1);

    let s = SECOND as u128;
    let tree0 = timings.steps()[0].timings.create_timing_tree();
    let step0 = stats_of(&tree0, &["run", "step"]);
    assert_eq!((step0.duration, step0.count), (8 * s, 1));
    let sim0 = stats_of(&tree0, &["run", "step", "simulate"]);
    assert_eq!((sim0.duration, sim0.count), (6 * s, 1));
    let asm0 = stats_of(&tree0, &["run", "step", "simulate", "assemble"]);
    assert_eq!((asm0.duration, asm0.count), (3 * s, 1));
    let solve0 = stats_of(&tree0, &["run", "step", "simulate", "solve"]);
    assert_eq!((solve0.duration, solve0.count), (2 * s, 1));

    let tree1 = timings.steps()[1].timings.create_timing_tree();
    let step1 = stats_of(&tree1, &["run", "step"]);
    assert_eq!((step1.duration, step1.count), (15 * s, 1));
    let asm1 = stats_of(&tree1, &["run", "step", "simulate", "assemble"]);
    assert_eq!((asm1.duration, asm1.count), (5 * s, 2));
    let occ1 = stats_of(&tree1, &["run", "step", "simulate", "occasional"]);
    assert_eq!((occ1.duration, occ1.count), (4 * s, 1));

    let summary = timings.summarize().create_timing_tree();
    let run_total = stats_of(&summary, &["run"]);
    assert_eq!((run_total.duration, run_total.count), (25 * s, 1));
    let step_total = stats_of(&summary, &["run", "step"]);
    assert_eq!((step_total.duration, step_total.count), (23 * s, 2));
    let asm_total = stats_of(&summary, &["run", "step", "simulate", "assemble"]);
    assert_eq!((asm_total.duration, asm_total.count), (8 * s, 3));
}

#[test]
fn test_extract_step_timings_synthetic1_incomplete() {
    // Make the record set incomplete by cutting off records mid-step-1
    let records: Vec<_> = synthetic_records1().into_iter().take(19).collect();

    let timings = extract_step_timings(records).unwrap();

    assert_eq!(timings.steps().len(), 1);
    assert_eq!(timings.steps()[0].step_index, 0);

    let tree0 = timings.steps()[0].timings.create_timing_tree();
    let step0 = stats_of(&tree0, &["run", "step"]);
    assert_eq!((step0.duration, step0.count), (8 * SECOND as u128, 1));

    // Since the run never completed, the intransient bucket is empty, and
    // the summary over that single-step input equals the step's own tree.
    let summary = timings.summarize().create_timing_tree();
    assert!(trees_equal(&summary, &tree0));
}

#[test]
fn extraction_without_run_span_fails() {
    let records = vec![event(0, "target1", "msg")];
    assert_eq!(
        extract_step_timings(records).unwrap_err(),
        TimingError::RunSpanNotFound
    );
}

#[test]
fn mismatched_exit_fails_extraction() {
    let run = || Span::new("run".to_string());
    let solve = || Span::new("solve".to_string());
    let records = vec![
        enter(0, "dynamecs_app", run(), named_spans(&["run"])),
        exit(SECOND, "target3", solve(), named_spans(&["run"])),
    ];
    assert_eq!(
        extract_step_timings(records).unwrap_err(),
        TimingError::SpanNotActive
    );
}

#[test]
fn reentrant_span_fails_extraction() {
    let run = || Span::new("run".to_string());
    let solve = || Span::new("solve".to_string());
    let records = vec![
        enter(0, "dynamecs_app", run(), named_spans(&["run"])),
        enter(SECOND, "target3", solve(), vec![run(), solve()]),
        enter(2 * SECOND, "target3", solve(), vec![run(), solve()]),
    ];
    assert_eq!(
        extract_step_timings(records).unwrap_err(),
        TimingError::SpanAlreadyActive
    );
}

#[test]
fn step_without_index_fails_extraction() {
    let run = || Span::new("run".to_string());
    let records = vec![
        enter(0, "dynamecs_app", run(), named_spans(&["run"])),
        enter(SECOND, "dynamecs_app", Span::new("step".to_string()), named_spans(&["run", "step"])),
    ];
    assert_eq!(
        extract_step_timings(records).unwrap_err(),
        TimingError::MissingStepIndex
    );
}

#[test]
fn accumulator_round_trip() {
    // enter then exit folds the timestamp difference into the statistics
    let mut acc = TimingAccumulator::new();
    let p = path(&["run", "solve"]);
    acc.enter_span(p.clone(), 100).unwrap();
    assert!(acc.has_active_spans());
    acc.exit_span(p.clone(), 350).unwrap();
    assert!(!acc.has_active_spans());

    // repeating the pair accumulates count two and the summed duration,
    // with the magnitude of the difference guarding reversed timestamps
    acc.enter_span(p.clone(), 1000).unwrap();
    acc.exit_span(p.clone(), 900).unwrap();

    let timings = acc.collect_completed_statistics();
    let tree = timings.create_timing_tree();
    let root = tree.root().unwrap();
    assert_eq!(root.path(), p);
    let stats = root.payload().clone().unwrap();
    assert_eq!(stats.duration, 250 + 100);
    assert_eq!(stats.count, 2);
}

#[test]
fn exit_without_enter_is_rejected() {
    let mut acc = TimingAccumulator::new();
    assert_eq!(
        acc.exit_span(path(&["a"]), 0).unwrap_err(),
        TimingError::SpanNotActive
    );
    acc.enter_span(path(&["a"]), 0).unwrap();
    assert_eq!(
        acc.enter_span(path(&["a"]), 1).unwrap_err(),
        TimingError::SpanAlreadyActive
    );
}

#[test]
fn span_tree_valid_trees() {
    {
        let paths = vec![path(&[])];
        let payloads = vec![0];
        let tree = SpanTree::try_from_depth_first_ordering(paths, payloads).unwrap();
        let root = tree.root().unwrap();
        assert_eq!(root.path(), path(&[]));
        assert_eq!(root.payload(), &0);
        assert_eq!(root.count_children(), 0);
    }

    {
        let paths = vec![
            path(&["a", "b"]),
            path(&["a", "b", "c"]),
            path(&["a", "b", "d"]),
            path(&["a", "b", "d", "e"]),
        ];
        let payloads = vec!["ab", "abc", "abd", "abde"];
        let tree = SpanTree::try_from_depth_first_ordering(paths, payloads).unwrap();
        let ab = tree.root().unwrap();
        assert_eq!(ab.payload(), &"ab");
        assert_eq!(ab.count_children(), 2);

        let children = ab.visit_children();
        let abc = children
            .iter()
            .find(|node| node.path() == path(&["a", "b", "c"]))
            .unwrap();
        let abd = children
            .iter()
            .find(|node| node.path() == path(&["a", "b", "d"]))
            .unwrap();
        assert_eq!(abc.count_children(), 0);
        assert_eq!(abc.payload(), &"abc");
        assert_eq!(abd.count_children(), 1);
        assert_eq!(abd.payload(), &"abd");

        let abd_children = abd.visit_children();
        let abde = &abd_children[0];
        assert_eq!(abde.path(), path(&["a", "b", "d", "e"]));
        assert_eq!(abde.payload(), &"abde");

        assert_eq!(abde.parent().unwrap().path(), path(&["a", "b", "d"]));
        assert_eq!(abde.root().path(), path(&["a", "b"]));
        assert!(ab.parent().is_none());
    }
}

#[test]
fn span_tree_invalid_trees() {
    {
        let paths = vec![path(&["a"]), path(&["b"])];
        let payloads = vec![(); 2];
        assert_eq!(
            SpanTree::try_from_depth_first_ordering(paths, payloads).unwrap_err(),
            SpanTreeError::NotUnderRoot
        );
    }

    {
        let paths = vec![path(&["a"]), path(&["a", "b", "c"])];
        let payloads = vec![(); 2];
        assert_eq!(
            SpanTree::try_from_depth_first_ordering(paths, payloads).unwrap_err(),
            SpanTreeError::MissingIntermediateNode
        );
    }

    {
        let paths = vec![path(&["a"]), path(&["a"])];
        let payloads = vec![(); 2];
        assert_eq!(
            SpanTree::try_from_depth_first_ordering(paths, payloads).unwrap_err(),
            SpanTreeError::DuplicatePath
        );
    }

    {
        let paths = vec![path(&["a"]), path(&["a", "b"]), path(&["c"])];
        let payloads = vec![(); 3];
        assert_eq!(
            SpanTree::try_from_depth_first_ordering(paths, payloads).unwrap_err(),
            SpanTreeError::NotUnderRoot
        );
    }

    {
        let paths: Vec<SpanPath> = vec![];
        let payloads: Vec<()> = vec![];
        assert_eq!(
            SpanTree::try_from_depth_first_ordering(paths, payloads).unwrap_err(),
            SpanTreeError::EmptyInput
        );
    }
}

#[test]
fn root_relative_duration_of_root_is_whole() {
    // the root node's duration relative to the root is the ratio of its
    // duration to itself
    let mut acc = TimingAccumulator::new();
    acc.enter_span(path(&["run"]), 0).unwrap();
    acc.exit_span(path(&["run"]), 5 * SECOND).unwrap();
    let tree = acc.collect_completed_statistics().create_timing_tree();
    let root_stats = tree.root().unwrap().payload().clone().unwrap();
    let ratio = root_stats.duration_relative_to_root.unwrap();
    assert_eq!(ratio.numer, ratio.denom);
    assert!(root_stats.duration_relative_to_parent.is_none());
}

#[test]
fn inferred_ancestor_carries_no_stats() {
    // a missing intermediate node is inferred with an empty payload
    let mut acc = TimingAccumulator::new();
    acc.enter_span(path(&["run", "a", "deep"]), 0).unwrap();
    acc.exit_span(path(&["run", "a", "deep"]), SECOND).unwrap();
    acc.enter_span(path(&["run", "b", "deep"]), SECOND).unwrap();
    acc.exit_span(path(&["run", "b", "deep"]), 3 * SECOND).unwrap();
    let tree = acc.collect_completed_statistics().create_timing_tree();
    let root = tree.root().unwrap();
    // the common ancestor ["run"] was never measured itself
    assert_eq!(root.path(), path(&["run"]));
    assert!(root.payload().is_none());
    let a = find_child(&root, &path(&["run", "a"]));
    assert!(a.payload().is_none());
    let a_deep = find_child(&a, &path(&["run", "a", "deep"]));
    let stats = a_deep.payload().clone().unwrap();
    assert_eq!(stats.duration, SECOND as u128);
    // its parent was never measured, so the parent-relative share is absent
    assert!(stats.duration_relative_to_parent.is_none());
    assert!(stats.duration_relative_to_root.is_none());
}

#[test]
fn merge_sums_key_wise() {
    let mut a = TimingAccumulator::new();
    a.enter_span(path(&["run"]), 0).unwrap();
    a.exit_span(path(&["run"]), 10).unwrap();
    let mut first = a.collect_completed_statistics();

    let mut b = TimingAccumulator::new();
    b.enter_span(path(&["run"]), 0).unwrap();
    b.exit_span(path(&["run"]), 32).unwrap();
    let second = b.collect_completed_statistics();

    first.merge_with_others(&vec![second]);
    let tree = first.create_timing_tree();
    let stats = tree.root().unwrap().payload().clone().unwrap();
    assert_eq!(stats.duration, 42);
    assert_eq!(stats.count, 2);
}

#[test]
fn empty_bucket_gives_empty_tree() {
    let timings = AccumulatedTimings::new();
    let tree = timings.create_timing_tree();
    assert!(tree.root().is_none());
}

#[test]
fn proportions_render_with_na_for_missing() {
    // a node with no measured ancestor renders "N/A" for the proportion,
    // and a zero-duration reference renders "NaN"
    assert_eq!(dynamecs::proportion_cell(None), "    N/A");
    assert_eq!(
        dynamecs::proportion_cell(Some(dynamecs::Ratio { numer: 1, denom: 0 })),
        "  NaN %"
    );
    assert_eq!(
        dynamecs::proportion_cell(Some(dynamecs::Ratio { numer: 1, denom: 2 })),
        " 50.0 %"
    );
    assert_eq!(
        dynamecs::proportion_cell(Some(dynamecs::Ratio { numer: 7, denom: 7 })),
        "100.0 %"
    );
    assert_eq!(
        dynamecs::proportion_cell(Some(dynamecs::Ratio { numer: 1, denom: 8 })),
        " 12.5 %"
    );
}

#[test]
fn durations_render_scaled_to_largest_unit() {
    assert_eq!(dynamecs::duration_cell(None), "   N/A   ");
    assert_eq!(dynamecs::duration_cell(Some(0)), "  0.0 s ");
    assert_eq!(dynamecs::duration_cell(Some(123)), "123.0 ns");
    assert_eq!(dynamecs::duration_cell(Some(1_250)), "  1.2 \u{3bc}s");
    assert_eq!(dynamecs::duration_cell(Some(45_600_000)), " 45.6 ms");
    assert_eq!(dynamecs::duration_cell(Some(8_000_000_000)), "  8.0 s ");
    assert_eq!(dynamecs::duration_cell(Some(1_234_000_000_000)), "1.2e3 s ");
}

#[test]
fn formatting_handles_empty_duration_nodes() {
    // P-style check: a tree with an inferred, never-measured node formats
    // without panicking and renders its proportions as "N/A"
    let mut acc = TimingAccumulator::new();
    acc.enter_span(path(&["run", "a", "deep"]), 0).unwrap();
    acc.exit_span(path(&["run", "a", "deep"]), SECOND).unwrap();
    acc.enter_span(path(&["run", "b", "deep"]), SECOND).unwrap();
    acc.exit_span(path(&["run", "b", "deep"]), 3 * SECOND).unwrap();
    let tree = acc.collect_completed_statistics().create_timing_tree();
    let rendered = dynamecs::format_timing_tree(&tree);
    assert!(rendered.contains("N/A"));
    assert!(rendered.contains("run"));
    assert!(rendered.contains("deep"));
    assert!(rendered.contains("Total"));
    assert!(rendered.lines().count() >= 8);
}
