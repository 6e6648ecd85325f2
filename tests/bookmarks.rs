use gel::bookmarks::{auth_token, extract_text, parse_posts, BookmarkError};

#[test]
fn posts_are_read_in_order() {
    let xml = r#"<?xml version="1.0"?>
<posts user="u">
  <post href="https://a.example/" description="First" tag="x"/>
  <note href="https://skip.example/" description="Not a post"/>
  <post href="https://b.example/" description="Second"/>
</posts>"#;
    let posts = parse_posts(xml).unwrap();
    assert_eq!(posts.len(), 2);
    assert_eq!(posts[0].link, "https://a.example/");
    assert_eq!(posts[0].title, "First");
    assert_eq!(posts[1].link, "https://b.example/");
    assert_eq!(posts[1].title, "Second");
}

#[test]
fn bad_answers_are_errors() {
    assert!(matches!(parse_posts("<posts><post"), Err(BookmarkError::NotXml)));
    assert!(matches!(
        parse_posts(r#"<posts><post href="x"/></posts>"#),
        Err(BookmarkError::MissingAttribute)
    ));
    assert!(parse_posts("<posts/>").unwrap().is_empty());
}

#[test]
fn page_text_joins_paragraphs() {
    let html = "<html><body><h1>Head</h1><p>One <b>two</b></p><div>skip</div><p>Three</p></body></html>";
    assert_eq!(extract_text(html), "One  two\nThree");
    assert_eq!(extract_text("<p>only</p>"), "only");
    assert_eq!(extract_text("<div>none</div>"), "");
}

#[test]
fn token_is_last_line_after_last_separator() {
    assert_eq!(auth_token("  password\nlogin: me\napi: user:ABC123\n\n"), "user:ABC123");
    assert_eq!(auth_token("plain-token"), "plain-token");
    assert_eq!(auth_token("a: b: c"), "c");
}
