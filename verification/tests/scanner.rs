use wiki_grapher::scanner::{scan_lines, Scanner};

#[test]
fn single_record_emits_one_fragment() {
    let mut sc = Scanner::new();
    assert_eq!(sc.push_line("<mediawiki>"), None);
    assert_eq!(sc.push_line("</siteinfo>"), None);
    assert_eq!(sc.push_line("<page>hello</page>   "), Some(
        "<mediawiki></siteinfo><page>hello</page>".to_string(),
    ));
}

#[test]
fn header_residue_only_prefixes_first_fragment() {
    let mut sc = Scanner::new();
    assert_eq!(sc.push_line("</siteinfo>"), None);
    assert_eq!(sc.push_line("<page>1</page>"), Some("</siteinfo><page>1</page>".to_string()));
    assert_eq!(sc.push_line("<page>2</page>"), Some("<page>2</page>".to_string()));
}

#[test]
fn record_close_before_header_emits_nothing() {
    let mut sc = Scanner::new();
    assert_eq!(sc.push_line("<page>early</page>"), None);
    assert_eq!(sc.push_line("</siteinfo>"), None);
    assert_eq!(sc.push_line("<page>late</page>"), Some(
        "<page>early</page></siteinfo><page>late</page>".to_string(),
    ));
}

#[test]
fn multiline_record_spans_until_close() {
    let lines: Vec<String> = vec![
        "</siteinfo>".to_string(),
        "<page>".to_string(),
        "  <title>T</title>  ".to_string(),
        "</page>".to_string(),
        "trailing text with no close marker".to_string(),
    ];
    let frags = scan_lines(&lines);
    assert_eq!(frags, vec!["</siteinfo><page>  <title>T</title></page>"]);
}

#[test]
fn fragments_come_in_closing_order() {
    let lines: Vec<String> = vec![
        "x</siteinfo>".to_string(),
        "<page>a</page>".to_string(),
        "<page>b</page>".to_string(),
        "<page>c</page>".to_string(),
    ];
    let frags = scan_lines(&lines);
    assert_eq!(frags, vec![
        "x</siteinfo><page>a</page>",
        "<page>b</page>",
        "<page>c</page>",
    ]);
}

#[test]
fn trailing_tabs_and_returns_are_trimmed() {
    let mut sc = Scanner::new();
    assert_eq!(sc.push_line("</siteinfo>\t\r"), None);
    assert_eq!(sc.push_line("<page>x</page> \t "), Some(
        "</siteinfo><page>x</page>".to_string(),
    ));
}

#[test]
fn stream_without_header_emits_nothing() {
    let lines: Vec<String> = vec!["<page>a</page>".to_string(), "<page>b</page>".to_string()];
    assert!(scan_lines(&lines).is_empty());
}
