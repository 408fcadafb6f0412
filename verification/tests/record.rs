use wiki_grapher::record::PageInfo;

#[test]
fn new_keeps_title_and_links() {
    let p = PageInfo::new("T", vec!["a".to_string(), "b".to_string()]);
    assert_eq!(p.title, "T");
    assert_eq!(p.links, vec!["a", "b"]);
}

#[test]
fn to_pairs_repeats_title_per_link() {
    let p = PageInfo::new("T", vec!["a".to_string(), "b".to_string(), "a".to_string()]);
    let pairs = p.to_pairs();
    assert_eq!(pairs, vec![("T", "a"), ("T", "b"), ("T", "a")]);
}

#[test]
fn to_pairs_of_linkless_record_is_empty() {
    let p = PageInfo::new("T", vec![]);
    assert!(p.to_pairs().is_empty());
}

#[test]
fn to_csv_line_joins_and_quotes() {
    let p = PageInfo::new(
        "T",
        vec!["a".to_string(), "b,c".to_string(), "d".to_string()],
    );
    assert_eq!(p.to_csv_line(), "T,a,\"b,c\",d");
}

#[test]
fn to_csv_line_without_links_is_title_and_separator() {
    let p = PageInfo::new("Solo", vec![]);
    assert_eq!(p.to_csv_line(), "Solo,");
}
