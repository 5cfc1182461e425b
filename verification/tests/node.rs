use std::sync::Arc;

use logfilter::document::content::Content;
use logfilter::document::Observer;
use logfilter::document::node::NodeObserver;
use logfilter::document::subdocument::Subdocument;
use logfilter::document::watcher::WatchState;
use logfilter::matcher::{PassthroughMatcher, PatternMatcher};
use logfilter::FilterError;

fn content_of(lines: &[&str]) -> Content {
    let mut c = Content::new("f".to_string()).unwrap();
    for l in lines {
        c.add_line(l.to_string());
    }
    c
}

#[test]
fn node_forwards_positions_of_accepted_lines() {
    let content = content_of(&["a line", "word", "line two", "x", "last line"]);
    let m = PatternMatcher::new("line").unwrap();
    let mut observer = NodeObserver::new();
    assert_eq!(observer.on_notification(1, &content, &m), vec![0]);
    assert_eq!(observer.next_index_to_read, 2);
    assert_eq!(observer.on_notification(4, &content, &m), vec![2, 4]);
    assert_eq!(observer.next_index_to_read, 5);
}

#[test]
fn node_forwarding_coalesces() {
    let content = content_of(&["a", "b", "c", "d"]);
    let mut one = NodeObserver::new();
    let mut first = one.on_notification(0, &content, &PassthroughMatcher());
    first.extend(one.on_notification(3, &content, &PassthroughMatcher()));
    let mut two = NodeObserver::new();
    let second = two.on_notification(3, &content, &PassthroughMatcher());
    assert_eq!(first, second);
    assert_eq!(second, vec![0, 1, 2, 3]);
}

#[test]
fn full_document_selects_every_line() {
    let content = Arc::new(content_of(&["a", "b", "c"]));
    let s = Subdocument::full_document(content);
    assert_eq!(*s.indices(), vec![0, 1, 2]);
}

#[test]
fn subdocument_selects_matching_lines() {
    let content = Arc::new(content_of(&["error 1", "ok", "error 2", "fine"]));
    let s = Subdocument::new(content, "^error").unwrap();
    assert_eq!(*s.indices(), vec![0, 2]);
}

#[test]
fn subdocument_refuses_invalid_pattern() {
    let content = Arc::new(content_of(&["a"]));
    assert!(matches!(Subdocument::new(content, "a)"), Err(FilterError::InvalidPattern)));
}

#[test]
fn watcher_skips_empty_lines_and_numbers_the_others() {
    let mut content = content_of(&[]);
    let mut indices = Vec::new();
    let mut w = WatchState::new();
    assert_eq!(w.ingest_line(&mut content, &mut indices, "first".to_string()), Some(0));
    assert_eq!(w.ingest_line(&mut content, &mut indices, String::new()), None);
    assert_eq!(w.ingest_line(&mut content, &mut indices, "second".to_string()), Some(1));
    assert_eq!(w.read_lines, 2);
    assert_eq!(indices, vec![0, 1]);
    assert_eq!(content.len(), 2);
    assert_eq!(content.get_line(1), "second");
}

#[test]
fn child_of_root_agrees_with_subdocument() {
    let mut content = content_of(&[]);
    let mut root_indices = Vec::new();
    let mut w = WatchState::new();
    let mut last = 0;
    for line in ["an error", "", "all good", "error again", "fine"] {
        if let Some(p) = w.ingest_line(&mut content, &mut root_indices, line.to_string()) {
            last = p;
        }
    }
    assert_eq!(root_indices, vec![0, 1, 2, 3]);
    let m = PatternMatcher::new("error").unwrap();
    let mut child = Vec::new();
    let mut observer = Observer::new();
    observer.on_notification(last, &root_indices, &mut child, &content, &m);
    let sub = Subdocument::new(Arc::new(content), "error").unwrap();
    assert_eq!(child, *sub.indices());
    assert_eq!(child, vec![0, 2]);
}

#[test]
fn empty_pattern_selects_every_non_empty_line() {
    let content = Arc::new(content_of(&["a", "b", "c"]));
    let all = Subdocument::full_document(content.clone());
    let s = Subdocument::new(content, "").unwrap();
    assert_eq!(*s.indices(), *all.indices());
    let with_blank = Arc::new(content_of(&["a", "", "c"]));
    assert_eq!(*Subdocument::new(with_blank, "").unwrap().indices(), vec![0, 2]);
}

#[test]
fn many_announcements_forward_each_accepted_line_once() {
    let content = content_of(&["x1", "y", "x2", "x3", "z", "x4"]);
    let m = PatternMatcher::new("x").unwrap();
    let mut o = NodeObserver::new();
    let mut all = Vec::new();
    for n in [0u32, 0, 2, 3, 5] {
        all.extend(o.on_notification(n, &content, &m));
    }
    assert_eq!(all, vec![0, 2, 3, 5]);
}

#[test]
fn reading_lines_in_two_rounds_keeps_earlier_ones() {
    let mut content = content_of(&[]);
    let mut indices = Vec::new();
    let mut w = WatchState::new();
    let mut sent = Vec::new();
    for l in ["a", "", "b"] {
        sent.extend(w.ingest_line(&mut content, &mut indices, l.to_string()));
    }
    for l in ["", "c", "d"] {
        sent.extend(w.ingest_line(&mut content, &mut indices, l.to_string()));
    }
    assert_eq!(sent, vec![0, 1, 2, 3]);
    assert_eq!(indices, vec![0, 1, 2, 3]);
    assert_eq!(content.get_line(0), "a");
    assert_eq!(content.get_line(3), "d");
}

#[test]
fn subdocument_repeats_a_position_per_matching_line_in_it() {
    let content = Arc::new(content_of(&["x\nx", "y", "x"]));
    let s = Subdocument::new(content, "x").unwrap();
    assert_eq!(*s.indices(), vec![0, 0, 2]);
}
