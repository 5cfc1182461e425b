use logfilter::content::{Content, TextContent};
use logfilter::document::{match_indices_range, Observer};
use logfilter::matcher::{PassthroughMatcher, PatternMatcher};

fn numbered_content(n: usize) -> TextContent {
    let mut c = TextContent::new();
    for i in 0..n {
        c.add_line(i.to_string());
    }
    c
}

#[test]
fn document_is_notified_about_last_parent_index() {
    const LINES_COUNT: usize = 10;
    let content = numbered_content(LINES_COUNT);
    // accepts every one of the lines "0" to "9"
    let matcher = PatternMatcher::new("^[0-9]$").unwrap();
    let parent_indices: Vec<usize> = (0..LINES_COUNT).collect();
    let mut indices = Vec::new();
    let mut observer = Observer::new();

    let first = observer.on_notification(LINES_COUNT - 5, &parent_indices, &mut indices, &content, &matcher);
    let second = observer.on_notification(LINES_COUNT - 1, &parent_indices, &mut indices, &content, &matcher);

    // every element up until the last sent index is kept, each exactly once
    assert_eq!(indices, parent_indices);
    assert_eq!(first, vec![0, 1, 2, 3, 4, 5]);
    assert_eq!(second, vec![6, 7, 8, 9]);
    assert_eq!(observer.next_index_to_read, LINES_COUNT);
}

#[test]
fn document_matches_only_content_elements_belonging_to_parent() {
    let content = numbered_content(10);
    let indices_vector = vec![2, 5, 7];
    // notify about second to last element from indices_vector
    let index_notified = indices_vector.len() - 2;
    let matcher = PassthroughMatcher();
    let mut indices = Vec::new();
    let mut observer = Observer::new();

    observer.on_notification(index_notified, &indices_vector, &mut indices, &content, &matcher);

    // only "2" and "5" from content
    assert_eq!(indices, vec![2, 5]);
    assert_eq!(content.get_line(indices[0]), "2");
    assert_eq!(content.get_line(indices[1]), "5");
}

#[test]
fn kept_positions_are_announced_by_their_place_in_the_list() {
    let content = numbered_content(10);
    let parent = vec![1, 3, 4, 6, 8, 9];
    let matcher = PatternMatcher::new("^[369]$").unwrap();
    let mut indices = vec![0];
    let sent = match_indices_range(0, 5, &parent, &mut indices, &content, &matcher);
    assert_eq!(indices, vec![0, 3, 6, 9]);
    assert_eq!(sent, vec![1, 2, 3]);
}

#[test]
fn range_already_examined_changes_nothing() {
    let content = numbered_content(4);
    let parent = vec![0, 1, 2, 3];
    let mut indices = vec![0, 1, 2];
    let sent = match_indices_range(3, 2, &parent, &mut indices, &content, &PassthroughMatcher());
    assert!(sent.is_empty());
    assert_eq!(indices, vec![0, 1, 2]);
}

#[test]
fn notifications_coalesce_into_one() {
    let content = numbered_content(8);
    let parent = vec![7, 6, 5, 4, 3, 2, 1, 0];
    let matcher = PatternMatcher::new("^[7540]$").unwrap();

    let mut indices_one = Vec::new();
    let mut observer_one = Observer::new();
    let mut sent_one = observer_one.on_notification(2, &parent, &mut indices_one, &content, &matcher);
    sent_one.extend(observer_one.on_notification(7, &parent, &mut indices_one, &content, &matcher));

    let mut indices_two = Vec::new();
    let mut observer_two = Observer::new();
    let sent_two = observer_two.on_notification(7, &parent, &mut indices_two, &content, &matcher);

    assert_eq!(indices_one, indices_two);
    assert_eq!(indices_one, vec![7, 5, 4, 0]);
    assert_eq!(sent_one, sent_two);
    assert_eq!(observer_one.next_index_to_read, observer_two.next_index_to_read);
}

#[test]
fn passthrough_document_copies_its_parent() {
    let mut content = TextContent::new();
    for line in ["a", "b", "c", "d"] {
        content.add_line(line.to_string());
    }
    let parent = vec![3, 1, 2];
    let mut indices = Vec::new();
    let sent = match_indices_range(0, 2, &parent, &mut indices, &content, &PassthroughMatcher());
    assert_eq!(indices, parent);
    assert_eq!(sent, vec![0, 1, 2]);
}

#[test]
fn document_over_file_content_keeps_matching_lines() {
    let mut content = logfilter::document::content::Content::new("f".to_string()).unwrap();
    for line in ["x line", "nothing", "line y"] {
        content.add_line(line.to_string());
    }
    let parent = vec![0, 1, 2];
    let mut indices = Vec::new();
    let matcher = PatternMatcher::new("line").unwrap();
    let sent = match_indices_range(0, 2, &parent, &mut indices, &content, &matcher);
    assert_eq!(indices, vec![0, 2]);
    assert_eq!(sent, vec![0, 1]);
}

#[test]
fn many_announcements_keep_each_accepted_entry_once() {
    let content = numbered_content(10);
    let parent: Vec<usize> = (0..10).rev().collect();
    let matcher = PatternMatcher::new("^[13579]$").unwrap();
    let mut indices = Vec::new();
    let mut observer = Observer::new();
    for n in [1, 1, 4, 9] {
        observer.on_notification(n, &parent, &mut indices, &content, &matcher);
    }
    assert_eq!(indices, vec![9, 7, 5, 3, 1]);
    assert_eq!(observer.next_index_to_read, 10);
}
