use logfilter::content::{Content as LineStore, TextContent};
use logfilter::document::content::Content;

#[test]
fn text_content_reads_back_added_lines() {
    let mut content = TextContent::new();
    content.add_line("first".to_string());
    content.add_line("second".to_string());
    assert_eq!(content.get_line(0), "first");
    assert_eq!(content.get_line(1), "second");
}

#[test]
fn file_content_starts_empty_with_its_path() {
    let content = Content::new("logs/app.log".to_string()).unwrap();
    assert_eq!(content.get_path(), "logs/app.log");
    assert_eq!(content.len(), 0);
}

#[test]
fn file_content_reads_back_added_lines() {
    let mut content = Content::new("x".to_string()).unwrap();
    content.add_line("alpha".to_string());
    content.add_line("beta".to_string());
    assert_eq!(content.len(), 2);
    assert_eq!(content.get_line(0), "alpha");
    assert_eq!(content.get_line(1), "beta");
    assert_eq!(LineStore::get_line(&content, 1), "beta");
    LineStore::add_line(&mut content, "gamma".to_string());
    assert_eq!(content.get_line(2), "gamma");
    assert_eq!(content.get_path(), "x");
}
