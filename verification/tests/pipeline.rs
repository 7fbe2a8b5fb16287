//! Unit tests for the pipeline stages and the small helpers.
use json_view::event::{Error, Event, OutEvent};
use json_view::logger;
use json_view::logger::LevelFilter;
use json_view::ser::count::count;
use json_view::ser::exclude::{apply_excludes, select, ExcludeSet};
use json_view::ser::print::print;
use json_view::ser::{non_zero, render, Opts};

fn doc_nested() -> Vec<Event> {
    // {"a":[1,2,3],"b":{"c":1}}
    vec![
        Event::BeginObject,
        Event::Key("\"a\"".to_string()),
        Event::BeginArray,
        Event::Scalar("1".to_string()),
        Event::Scalar("2".to_string()),
        Event::Scalar("3".to_string()),
        Event::EndArray,
        Event::Key("\"b\"".to_string()),
        Event::BeginObject,
        Event::Key("\"c\"".to_string()),
        Event::Scalar("1".to_string()),
        Event::EndObject,
        Event::EndObject,
    ]
}

fn no_limits() -> Opts {
    Opts { max_lines: 0, max_depth: None }
}

#[test]
fn count_projects_the_full_line_total() {
    let m = count(no_limits(), &doc_nested()).unwrap();
    assert_eq!(m.length, 10);
    assert!(m.exceeded.is_empty());
    // Completion order: the array, the inner object, the root.
    assert_eq!(m.objects.len(), 3);
    assert_eq!((m.objects[0].depth, m.objects[0].length), (1, 4));
    assert_eq!((m.objects[1].depth, m.objects[1].length), (1, 2));
    assert_eq!((m.objects[2].depth, m.objects[2].length), (0, 3));
}

#[test]
fn count_records_positions() {
    let m = count(no_limits(), &doc_nested()).unwrap();
    // Positions advance only on structural events: root begin 0, array
    // 1..=2, inner object 3..=4, root end 5.
    assert_eq!((m.objects[0].start, m.objects[0].end), (1, 2));
    assert_eq!((m.objects[1].start, m.objects[1].end), (3, 4));
    assert_eq!((m.objects[2].start, m.objects[2].end), (0, 5));
}

#[test]
fn count_with_depth_limit_separates_exceeded_nodes() {
    let opts = Opts { max_lines: 0, max_depth: Some(0) };
    let m = count(opts, &doc_nested()).unwrap();
    assert_eq!(m.length, 10);
    assert_eq!(m.exceeded.len(), 2);
    assert_eq!((m.exceeded[0].depth, m.exceeded[0].length), (1, 4));
    assert_eq!((m.exceeded[1].depth, m.exceeded[1].length), (1, 2));
    assert_eq!(m.objects.len(), 1);
    assert_eq!(m.objects[0].depth, 0);
}

#[test]
fn count_rejects_malformed_streams() {
    let cases: Vec<Vec<Event>> = vec![
        vec![],
        vec![Event::BeginArray],
        vec![Event::EndArray],
        vec![Event::BeginArray, Event::EndObject],
        vec![Event::Scalar("1".to_string()), Event::Scalar("2".to_string())],
        vec![Event::BeginObject, Event::Scalar("1".to_string()), Event::EndObject],
        vec![Event::BeginObject, Event::Key("\"a\"".to_string()), Event::EndObject],
        vec![Event::Key("\"a\"".to_string())],
        vec![
            Event::BeginArray,
            Event::Key("\"a\"".to_string()),
            Event::EndArray,
        ],
    ];
    for events in cases {
        assert!(matches!(
            count(no_limits(), &events),
            Err(Error::MalformedStream)
        ));
    }
}

#[test]
fn select_stays_put_within_budget() {
    let m = count(no_limits(), &doc_nested()).unwrap();
    let (ex, total) = select(Opts { max_lines: 10, max_depth: None }, m);
    assert_eq!(total, 10);
    assert!(!ex.contains_start(0));
    assert!(!ex.contains_start(1));
}

#[test]
fn select_evicts_until_under_budget() {
    let m = count(no_limits(), &doc_nested()).unwrap();
    let (ex, total) = select(Opts { max_lines: 6, max_depth: None }, m);
    assert_eq!(total, 6);
    // Only the array (positions 1..=2) is evicted.
    assert!(ex.contains_start(1));
    assert!(ex.contains_end(2));
    assert!(!ex.contains_start(3));
    assert!(!ex.contains_start(0));
}

#[test]
fn apply_excludes_forwards_everything_without_excludes() {
    let events = doc_nested();
    let out = apply_excludes(&events, &ExcludeSet::new()).unwrap();
    assert_eq!(out.len(), events.len());
    for oe in &out {
        assert!(matches!(oe, OutEvent::Ev(_)));
    }
}

#[test]
fn apply_excludes_collapses_a_range_to_one_placeholder() {
    let events = doc_nested();
    let mut ex = ExcludeSet::new();
    ex.insert(1, 2);
    let out = apply_excludes(&events, &ex).unwrap();
    // The three scalars and the array's bracket events collapse into one
    // placeholder.
    let placeholders = out
        .iter()
        .filter(|oe| matches!(oe, OutEvent::Placeholder))
        .count();
    assert_eq!(placeholders, 1);
    assert_eq!(out.len(), events.len() - 5 + 1);
}

#[test]
fn apply_excludes_detects_mismatched_boundaries() {
    let events = vec![Event::BeginArray, Event::EndArray];
    // An end boundary met while forwarding does not fit the stream.
    let mut ex = ExcludeSet::new();
    ex.insert(5, 0);
    assert!(matches!(
        apply_excludes(&events, &ex),
        Err(Error::InternalInconsistency)
    ));
    // A started range that never closes does not fit either.
    let mut ex2 = ExcludeSet::new();
    ex2.insert(0, 99);
    assert!(matches!(
        apply_excludes(&events, &ex2),
        Err(Error::InternalInconsistency)
    ));
}

#[test]
fn print_renders_placeholders_as_values() {
    let out = vec![
        OutEvent::Ev(Event::BeginObject),
        OutEvent::Ev(Event::Key("\"a\"".to_string())),
        OutEvent::Placeholder,
        OutEvent::Ev(Event::EndObject),
    ];
    let lines = print(&out).unwrap();
    assert_eq!(lines.len(), 3);
    assert_eq!(lines[1].text, "\"a\": ...");
}

#[test]
fn print_rejects_incomplete_documents() {
    let out = vec![OutEvent::Ev(Event::BeginArray)];
    assert!(matches!(print(&out), Err(Error::MalformedStream)));
}

#[test]
fn render_reports_malformed_streams() {
    let events = vec![Event::BeginObject, Event::BeginArray];
    assert!(matches!(
        render(no_limits(), &events),
        Err(Error::MalformedStream)
    ));
}

#[test]
fn exclude_set_remembers_inserted_ranges() {
    let mut ex = ExcludeSet::new();
    assert!(!ex.contains_start(0));
    assert!(!ex.contains_end(0));
    ex.insert(3, 9);
    ex.insert(12, 14);
    assert!(ex.contains_start(3));
    assert!(ex.contains_end(9));
    assert!(ex.contains_start(12));
    assert!(ex.contains_end(14));
    assert!(!ex.contains_start(9));
    assert!(!ex.contains_end(3));
    assert!(!ex.contains_start(4));
}

#[test]
fn non_zero_rejects_only_zero_spellings() {
    assert!(non_zero("0".to_string()).is_err());
    assert!(non_zero("00".to_string()).is_err());
    assert!(non_zero("+0".to_string()).is_err());
    assert!(non_zero("0000000000000000".to_string()).is_err());
    assert!(non_zero("1".to_string()).is_ok());
    assert!(non_zero("01".to_string()).is_ok());
    assert!(non_zero("10".to_string()).is_ok());
    assert!(non_zero("".to_string()).is_ok());
    assert!(non_zero("+".to_string()).is_ok());
    assert!(non_zero("abc".to_string()).is_ok());
    let msg = non_zero("0".to_string()).unwrap_err();
    assert_eq!(msg, "maximum length must be greater than 0");
}

#[test]
fn is_identity_checks_both_limits() {
    assert!(Opts { max_lines: 0, max_depth: None }.is_identity());
    assert!(!Opts { max_lines: 1, max_depth: None }.is_identity());
    assert!(!Opts { max_lines: 0, max_depth: Some(0) }.is_identity());
}

#[test]
fn level_filter_orders_the_flags() {
    let base = logger::Opts { debug: false, trace: false, quiet: false };
    assert_eq!(base.level_filter(), LevelFilter::Info);
    assert_eq!(
        logger::Opts { debug: true, ..base }.level_filter(),
        LevelFilter::Debug
    );
    assert_eq!(
        logger::Opts { trace: true, debug: true, ..base }.level_filter(),
        LevelFilter::Trace
    );
    assert_eq!(
        logger::Opts { quiet: true, trace: true, debug: true, ..base }.level_filter(),
        LevelFilter::Off
    );
}
