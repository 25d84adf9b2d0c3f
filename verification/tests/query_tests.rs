use tuicher::query::Query;

#[test]
fn test_query() {
    let phrase = "add youtube music https://youtube.com";
    let query = Query::new(phrase).unwrap();

    assert_eq!(query.keyword.clone().unwrap(), "add");

    assert_eq!(
        query.get_query().clone(),
        "youtube music https://youtube.com"
    );

    assert_eq!(query.full_text.clone(), phrase);
}

#[test]
fn parse_without_spaces_has_no_keyword() {
    let query = Query::new("hello").unwrap();
    assert_eq!(query.keyword, None);
    assert_eq!(query.query, None);
    assert_eq!(query.get_query(), "hello");
    assert_eq!(query.full_text, "hello");
}

#[test]
fn parse_with_consecutive_spaces_trims_the_remainder() {
    let query = Query::new("x  y").unwrap();
    assert_eq!(query.keyword.clone().unwrap(), "x");
    assert_eq!(query.get_query(), "y");
    assert_eq!(query.full_text, "x  y");
}

#[test]
fn parse_empty_string() {
    let query = Query::new("").unwrap();
    assert_eq!(query.keyword, None);
    assert_eq!(query.get_query(), "");
}

#[test]
fn parse_spaces_only_yields_empty_keyword() {
    let query = Query::new("  ").unwrap();
    assert_eq!(query.keyword.clone().unwrap(), "");
    assert_eq!(query.get_query(), "");
}

#[test]
fn parse_trailing_space_keeps_keyword() {
    let query = Query::new("open ").unwrap();
    assert_eq!(query.keyword.clone().unwrap(), "open");
    assert_eq!(query.get_query(), "");
}
