//! End-to-end scenarios for the bounded renderer.
use json_view::event::{Event, Line};
use json_view::ser::{render, identity, Opts};

fn doc_nested() -> Vec<Event> {
    // {"a":[1,2,3],"b":{"c":1}}
    vec![
        Event::BeginObject,
        Event::Key("\"a\"".to_string()),
        Event::BeginArray,
        Event::Scalar("1".to_string()),
        Event::Scalar("2".to_string()),
        Event::Scalar("3".to_string()),
        Event::EndArray,
        Event::Key("\"b\"".to_string()),
        Event::BeginObject,
        Event::Key("\"c\"".to_string()),
        Event::Scalar("1".to_string()),
        Event::EndObject,
        Event::EndObject,
    ]
}

fn doc_twins() -> Vec<Event> {
    // {"a":[1,2],"b":[3,4]}
    vec![
        Event::BeginObject,
        Event::Key("\"a\"".to_string()),
        Event::BeginArray,
        Event::Scalar("1".to_string()),
        Event::Scalar("2".to_string()),
        Event::EndArray,
        Event::Key("\"b\"".to_string()),
        Event::BeginArray,
        Event::Scalar("3".to_string()),
        Event::Scalar("4".to_string()),
        Event::EndArray,
        Event::EndObject,
    ]
}

fn doc_empties() -> Vec<Event> {
    // {"a":[],"b":{}}
    vec![
        Event::BeginObject,
        Event::Key("\"a\"".to_string()),
        Event::BeginArray,
        Event::EndArray,
        Event::Key("\"b\"".to_string()),
        Event::BeginObject,
        Event::EndObject,
        Event::EndObject,
    ]
}

fn text(lines: &[Line]) -> String {
    let rendered: Vec<String> = lines
        .iter()
        .map(|l| format!("{}{}", "  ".repeat(l.indent), l.text))
        .collect();
    rendered.join("\n")
}

fn no_limits() -> Opts {
    Opts { max_lines: 0, max_depth: None }
}

#[test]
fn unlimited_render_is_full_pretty_form() {
    let events = doc_nested();
    let lines = render(no_limits(), &events).unwrap();
    let expected = "{\n  \"a\": [\n    1,\n    2,\n    3\n  ],\n  \"b\": {\n    \"c\": 1\n  }\n}";
    assert_eq!(text(&lines), expected);
    assert_eq!(lines.len(), 10);
}

#[test]
fn unlimited_render_matches_identity() {
    let events = doc_nested();
    let bounded = render(no_limits(), &events).unwrap();
    let base = identity(&events).unwrap();
    assert_eq!(text(&bounded), text(&base));
}

#[test]
fn depth_zero_keeps_root_with_placeholders() {
    let events = doc_nested();
    let opts = Opts { max_lines: 0, max_depth: Some(0) };
    let lines = render(opts, &events).unwrap();
    let expected = "{\n  \"a\": ...,\n  \"b\": ...\n}";
    assert_eq!(text(&lines), expected);
    assert_eq!(lines.iter().map(|l| l.indent).max(), Some(1));
}

#[test]
fn depth_one_keeps_two_levels() {
    let events = doc_nested();
    let opts = Opts { max_lines: 0, max_depth: Some(1) };
    let lines = render(opts, &events).unwrap();
    // Both composites sit at depth 1 and have only scalar children, so
    // nothing is deeper than the limit.
    let expected = "{\n  \"a\": [\n    1,\n    2,\n    3\n  ],\n  \"b\": {\n    \"c\": 1\n  }\n}";
    assert_eq!(text(&lines), expected);
}

#[test]
fn line_budget_evicts_by_depth_then_size() {
    let events = doc_nested();
    // Total is 10; the deepest nodes are the two depth-1 composites, the
    // larger one (the array, 4 lines) goes first.
    let opts = Opts { max_lines: 6, max_depth: None };
    let lines = render(opts, &events).unwrap();
    let expected = "{\n  \"a\": ...,\n  \"b\": {\n    \"c\": 1\n  }\n}";
    assert_eq!(text(&lines), expected);
    assert_eq!(lines.len(), 6);
}

#[test]
fn tight_line_budget_collapses_whole_document() {
    let events = doc_nested();
    let opts = Opts { max_lines: 3, max_depth: None };
    let lines = render(opts, &events).unwrap();
    assert_eq!(text(&lines), "...");
    assert_eq!(lines.len(), 1);
}

#[test]
fn equal_priority_breaks_ties_by_earliest_start() {
    let events = doc_twins();
    // Both arrays have depth 1 and would save 3 lines; the earlier one is
    // evicted first.
    let opts = Opts { max_lines: 7, max_depth: None };
    let lines = render(opts, &events).unwrap();
    let expected = "{\n  \"a\": ...,\n  \"b\": [\n    3,\n    4\n  ]\n}";
    assert_eq!(text(&lines), expected);
    assert_eq!(lines.len(), 7);
}

#[test]
fn line_count_never_exceeds_budget() {
    let events = doc_nested();
    for budget in 1..=12usize {
        let opts = Opts { max_lines: budget, max_depth: None };
        let lines = render(opts, &events).unwrap();
        assert!(lines.len() <= budget.max(1));
    }
}

#[test]
fn smaller_budget_never_renders_more_lines() {
    let events = doc_twins();
    let mut previous = usize::MAX;
    for budget in [0usize, 12, 9, 7, 5, 3, 1] {
        let opts = Opts { max_lines: budget, max_depth: None };
        let lines = render(opts, &events).unwrap();
        if budget != 0 {
            assert!(lines.len() <= previous);
        }
        previous = lines.len();
    }
}

#[test]
fn empty_composites_render_on_one_line() {
    let events = doc_empties();
    let lines = render(no_limits(), &events).unwrap();
    let expected = "{\n  \"a\": [],\n  \"b\": {}\n}";
    assert_eq!(text(&lines), expected);
    assert_eq!(lines.len(), 4);
}

#[test]
fn empty_composites_are_not_evicted_for_lines() {
    let events = doc_empties();
    // A budget of 4 already fits; a budget of 3 cannot be met by eliding
    // the empties (they save nothing), so the root itself goes.
    let fits = render(Opts { max_lines: 4, max_depth: None }, &events).unwrap();
    assert_eq!(text(&fits), "{\n  \"a\": [],\n  \"b\": {}\n}");
    let collapsed = render(Opts { max_lines: 3, max_depth: None }, &events).unwrap();
    assert_eq!(text(&collapsed), "...");
}

#[test]
fn empty_composites_within_depth_limit_are_kept() {
    let events = doc_empties();
    let lines = render(Opts { max_lines: 0, max_depth: Some(1) }, &events).unwrap();
    assert_eq!(text(&lines), "{\n  \"a\": [],\n  \"b\": {}\n}");
}

#[test]
fn empty_composites_beyond_depth_limit_become_placeholders() {
    let events = doc_empties();
    let lines = render(Opts { max_lines: 0, max_depth: Some(0) }, &events).unwrap();
    assert_eq!(text(&lines), "{\n  \"a\": ...,\n  \"b\": ...\n}");
}

#[test]
fn root_scalar_renders_alone() {
    let events = vec![Event::Scalar("42".to_string())];
    let lines = render(no_limits(), &events).unwrap();
    assert_eq!(text(&lines), "42");
    let bounded = render(Opts { max_lines: 1, max_depth: Some(0) }, &events).unwrap();
    assert_eq!(text(&bounded), "42");
}

#[test]
fn deep_nesting_is_pruned_at_depth_limit() {
    // [[[[1]]]]
    let events = vec![
        Event::BeginArray,
        Event::BeginArray,
        Event::BeginArray,
        Event::BeginArray,
        Event::Scalar("1".to_string()),
        Event::EndArray,
        Event::EndArray,
        Event::EndArray,
        Event::EndArray,
    ];
    let lines = render(Opts { max_lines: 0, max_depth: Some(1) }, &events).unwrap();
    let expected = "[\n  [\n    ...\n  ]\n]";
    assert_eq!(text(&lines), expected);
    assert!(lines.iter().all(|l| l.indent <= 2));
}

#[test]
fn smaller_depth_limit_never_renders_more_lines() {
    let events = doc_nested();
    let mut previous = usize::MAX;
    for depth in [None, Some(3), Some(2), Some(1), Some(0)] {
        let opts = Opts { max_lines: 0, max_depth: depth };
        let lines = render(opts, &events).unwrap();
        assert!(lines.len() <= previous);
        previous = lines.len();
    }
}

#[test]
fn both_limits_apply_together() {
    let events = doc_nested();
    // Depth 1 keeps everything (10 lines); the line budget then elides the
    // larger depth-1 composite.
    let opts = Opts { max_lines: 6, max_depth: Some(1) };
    let lines = render(opts, &events).unwrap();
    let expected = "{\n  \"a\": ...,\n  \"b\": {\n    \"c\": 1\n  }\n}";
    assert_eq!(text(&lines), expected);
}

#[test]
fn placeholder_is_a_single_token_per_elided_region() {
    let events = doc_nested();
    let opts = Opts { max_lines: 6, max_depth: None };
    let lines = render(opts, &events).unwrap();
    let dotted: Vec<&json_view::event::Line> =
        lines.iter().filter(|l| l.text.contains("...")).collect();
    assert_eq!(dotted.len(), 1);
    assert_eq!(dotted[0].text, "\"a\": ...,");
}
