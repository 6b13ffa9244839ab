use radiosity::timing::fields::FieldVisitor;
use radiosity::timing::level::{level_prefix, Level};
use radiosity::timing::screen::AlternateScreenGuard;
use radiosity::timing::tree::{EventNode, Node, NodeKey, SpanNode, TreeState, TreeTimingLayer};

const DIM: &str = "\x1b[90m";
const RESET: &str = "\x1b[0m";

fn no_fields() -> FieldVisitor {
    FieldVisitor::default()
}

fn with_message(text: &str) -> FieldVisitor {
    let mut v = FieldVisitor::default();
    v.record_str("message", text);
    v
}

#[test]
fn labels_of_levels() {
    assert_eq!(level_prefix(&Level::Error), "\x1b[31mERROR\x1b[0m");
    assert_eq!(level_prefix(&Level::Warn), "\x1b[33mWARN\x1b[0m");
    assert_eq!(level_prefix(&Level::Info), "\x1b[32mINFO\x1b[0m");
    assert_eq!(level_prefix(&Level::Debug), "\x1b[34mDEBUG\x1b[0m");
    assert_eq!(level_prefix(&Level::Trace), "\x1b[35mTRACE\x1b[0m");
}

#[test]
fn fields_are_joined() {
    let mut v = FieldVisitor::default();
    v.push_field("a", "1");
    v.record_u64("b", 18_446_744_073_709_551_615);
    v.record_f64("c", 2, "2.5");
    v.record_str("d", "x y");
    v.record_debug("e", "\"quoted\"");
    assert_eq!(
        v.finish_fields(),
        Some("a = 1, b = 18446744073709551615, c = 2.5, d = x y, e = \"quoted\"".to_string())
    );
}

#[test]
fn no_fields_finish_as_none() {
    assert_eq!(no_fields().finish_fields(), None);
    let mut v = FieldVisitor::new();
    v.record_u64("elapsed_ns", 5);
    v.record_str("message", "hello");
    v.record_str("log.target", "origin");
    assert_eq!(v.elapsed_ns, Some(5));
    assert_eq!(v.message.as_deref(), Some("hello"));
    assert_eq!(v.log_target.as_deref(), Some("origin"));
    assert_eq!(v.finish_fields(), None);
}

#[test]
fn special_fields() {
    let mut v = FieldVisitor::new();
    v.record_f64("elapsed_ns", 7, "7.9");
    assert_eq!(v.elapsed_ns, Some(7));
    v.record_str("error", "first");
    assert_eq!(v.message.as_deref(), Some("first"));
    v.record_debug("message", "\"\"second\"");
    assert_eq!(v.message.as_deref(), Some("second"));
    v.record_debug("error", "third");
    assert_eq!(v.message.as_deref(), Some("third"));
    v.record_debug("log.target", "\"crate::module\"");
    assert_eq!(v.log_target.as_deref(), Some("crate::module"));
    v.record_debug("message", "\"\"\"");
    assert_eq!(v.message.as_deref(), Some(""));
    assert!(v.buf.is_empty());
}

#[test]
fn quotes_are_trimmed_as_std_does() {
    for text in ["", "\"", "\"\"", "a", "\"a", "a\"", "\"a\"b\"", "\"\"a\"\"", "ä\"", "\"µ"] {
        let mut v = FieldVisitor::new();
        v.record_debug("message", text);
        assert_eq!(v.message.as_deref(), Some(text.trim_matches('"')));
    }
}

#[test]
fn an_empty_tree_prints_nothing() {
    let layer = TreeTimingLayer::default();
    assert_eq!(layer.print_tree(false), "");
    assert_eq!(layer.print_tree(true), "\x1b[2J\x1b[H");
    assert!(layer.roots().is_empty());
}

#[test]
fn a_tree_is_rendered() {
    let mut layer = TreeTimingLayer::default();
    let mut fields = FieldVisitor::default();
    fields.record_u64("count", 3);
    layer.on_new_span(1, None, "run".to_string(), fields);
    layer.on_enter(1, 1_000);
    layer.on_new_span(2, Some(1), "first".to_string(), no_fields());
    layer.on_enter(2, 2_000);
    layer.on_event(None, Some(2), Level::Info, "lib".to_string(), with_message("one\ntwo"));
    layer.on_event(None, Some(2), Level::Warn, "lib".to_string(), no_fields());
    layer.on_exit(2, 502_000);
    layer.on_new_span(3, Some(1), "last".to_string(), no_fields());
    layer.on_new_span(4, Some(3), "inner".to_string(), no_fields());
    layer.on_exit(1, 2_001_000);

    let expected = [
        format!("{DIM}SPAN{RESET}\t{DIM}{RESET}run [ 2.00ms ] {{ count = 3 }}"),
        format!("{DIM}SPAN{RESET}\t{DIM}├── {RESET}first [ 500µs ]"),
        format!("\x1b[32mINFO{RESET}\t{DIM}│   ├> {RESET}{DIM}@lib{RESET} one two"),
        format!("\x1b[33mWARN{RESET}\t{DIM}│   └> {RESET}{DIM}@lib{RESET} lib"),
        format!("{DIM}SPAN{RESET}\t{DIM}└── {RESET}last ..."),
        format!("{DIM}SPAN{RESET}\t{DIM}    └── {RESET}inner ..."),
    ];
    let mut text = expected.join("\n");
    text.push('\n');
    assert_eq!(layer.print_tree(false), text);
    assert_eq!(layer.print_tree(true), format!("\x1b[2J\x1b[H{text}"));
}

#[test]
fn roots_stand_side_by_side() {
    let mut layer = TreeTimingLayer::default();
    layer.on_new_span(7, None, "alone".to_string(), no_fields());
    layer.on_event(None, None, Level::Error, "lib".to_string(), with_message("boom"));
    let mut roots = layer.roots();
    roots.sort_by_key(|k| match *k {
        NodeKey::Span(_) => 0,
        NodeKey::Event(_) => 1,
    });
    assert_eq!(roots, vec![NodeKey::Span(7), NodeKey::Event(0)]);
    let lines = layer.render(&roots, false);
    assert_eq!(
        lines,
        format!(
            "{DIM}SPAN{RESET}\t{DIM}{RESET}alone ...\n\x1b[31mERROR{RESET}\t{DIM}{RESET}{DIM}@lib{RESET} boom\n"
        )
    );
    roots.reverse();
    let turned = layer.render(&roots, false);
    let printed = layer.print_tree(false);
    assert!(printed == lines || printed == turned);
}

#[test]
fn an_event_prefers_its_own_parent() {
    let mut layer = TreeTimingLayer::default();
    layer.on_new_span(1, None, "a".to_string(), no_fields());
    layer.on_new_span(2, Some(1), "b".to_string(), no_fields());
    let mut v = with_message("hi");
    v.record_str("log.target", "other");
    layer.on_event(Some(1), Some(2), Level::Debug, "lib".to_string(), v);
    assert_eq!(
        layer.print_tree(false),
        format!(
            "{DIM}SPAN{RESET}\t{DIM}{RESET}a ...\n{DIM}SPAN{RESET}\t{DIM}├── {RESET}b ...\n\x1b[34mDEBUG{RESET}\t{DIM}└> {RESET}{DIM}@other{RESET} hi\n"
        )
    );
}

#[test]
fn the_first_entry_counts() {
    let mut layer = TreeTimingLayer::default();
    layer.on_new_span(1, None, "a".to_string(), no_fields());
    layer.on_enter(1, 10_000);
    layer.on_exit(1, 20_000);
    layer.on_enter(1, 30_000);
    layer.on_exit(1, 50_000);
    assert!(layer.print_tree(false).ends_with("a [ 40µs ]\n"));
}

#[test]
fn leaving_without_entering_takes_no_time() {
    let mut layer = TreeTimingLayer::default();
    layer.on_new_span(1, None, "a".to_string(), no_fields());
    layer.on_exit(1, 5_000_000);
    assert!(layer.print_tree(false).ends_with("a [ 0µs ]\n"));
}

#[test]
fn records_replace_time_and_fields() {
    let mut layer = TreeTimingLayer::default();
    let mut begun = FieldVisitor::default();
    begun.record_u64("elapsed_ns", 3_000);
    begun.record_str("x", "1");
    layer.on_new_span(1, None, "a".to_string(), begun);
    assert!(layer.print_tree(false).ends_with("a [ 3µs ] { x = 1 }\n"));
    let mut more = FieldVisitor::default();
    more.record_f64("elapsed_ns", 2_500_000, "2500000.5");
    layer.on_record(1, more);
    assert!(layer.print_tree(false).ends_with("a [ 2.50ms ] { x = 1 }\n"));
    let mut other = FieldVisitor::default();
    other.record_str("y", "2");
    layer.on_record(1, other);
    assert!(layer.print_tree(false).ends_with("a [ 2.50ms ] { y = 2 }\n"));
}

#[test]
fn unknown_spans_are_ignored() {
    let mut layer = TreeTimingLayer::default();
    layer.on_record(9, with_message("x"));
    layer.on_enter(9, 1);
    layer.on_exit(9, 2);
    assert_eq!(layer.print_tree(false), "");
}

#[test]
fn a_lost_parent_hides_its_node() {
    let mut layer = TreeTimingLayer::default();
    layer.on_new_span(2, Some(1), "orphan".to_string(), no_fields());
    assert_eq!(layer.print_tree(false), "");
}

#[test]
fn every_node_is_shown_once() {
    let mut layer = TreeTimingLayer::default();
    layer.on_new_span(1, None, "n1".to_string(), no_fields());
    for id in 2..40u64 {
        layer.on_new_span(id, Some(id / 2), format!("n{id}"), no_fields());
    }
    let text = layer.print_tree(false);
    assert_eq!(text.lines().count(), 39);
    for id in 1..40u64 {
        let end = format!("n{id} ...");
        assert_eq!(text.lines().filter(|l| l.ends_with(&end)).count(), 1);
    }
}

#[test]
fn parents_of_nodes() {
    let span = Node::Span(SpanNode {
        name: "s".to_string(),
        parent: Some(NodeKey::Span(4)),
        children: Vec::new(),
        start: None,
        elapsed: None,
        fields: None,
    });
    assert_eq!(span.parent(), Some(&NodeKey::Span(4)));
    let event = Node::Event(EventNode {
        name: "e".to_string(),
        parent: None,
        level: Level::Trace,
        target: "t".to_string(),
    });
    assert_eq!(event.parent(), None);
}

#[test]
fn lines_of_a_missing_node() {
    let state = TreeState::new();
    let mut out = vec!["before".to_string()];
    TreeTimingLayer::collect_lines(&state, &NodeKey::Span(1), "", true, true, &mut out);
    assert_eq!(out, vec!["before".to_string()]);
}

#[test]
fn the_alternate_screen_is_left_once() {
    let (enter, mut guard) = AlternateScreenGuard::new(|| 42);
    assert_eq!(enter, "\x1b[?1049h");
    let (leave, callback) = guard.leave();
    assert_eq!(leave, "\x1b[?1049l");
    assert_eq!(callback.map(|f| f()), Some(42));
    let (_, again) = guard.leave();
    assert!(again.is_none());
}

#[test]
fn lines_of_a_recorded_tree() {
    let mut layer = TreeTimingLayer::default();
    layer.on_new_span(1, None, "outer".to_string(), no_fields());
    layer.on_new_span(2, Some(1), "inner".to_string(), no_fields());
    layer.on_new_span(3, Some(1), "last".to_string(), no_fields());
    layer.on_new_span(4, Some(2), "deep".to_string(), no_fields());
    let names = |id: u64, is_root: bool| -> Vec<String> {
        let mut out = vec!["before".to_string()];
        TreeTimingLayer::collect_lines(
            layer.state(),
            &NodeKey::Span(id),
            "",
            false,
            is_root,
            &mut out,
        );
        assert_eq!(out.remove(0), "before");
        out
    };
    let has = |lines: &[String], wanted: &[&str]| {
        assert_eq!(lines.len(), wanted.len());
        for (line, name) in lines.iter().zip(wanted) {
            assert!(line.contains(name));
        }
    };
    has(&names(1, true), &["outer", "inner", "deep", "last"]);
    has(&names(2, false), &["inner", "deep"]);
    assert!(names(2, false)[0].contains("├"));
    assert!(names(2, false)[1].contains("│"));
    has(&names(3, false), &["last"]);
    assert!(names(9, false).is_empty());
}
