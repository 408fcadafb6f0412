use wiki_grapher::extract::{extract_title_content, parse_page, parse_record, ExtractError, XmlNode};
use wiki_grapher::links::extract_links;

#[test]
fn test_extract_links() {
    let s = "aaa [a] a| [ [[ [[aa]] a aa] [[aaa|aaaa]]";
    let links = extract_links(s);

    assert_eq!(links, vec!["aa", "aaa"]);
}

#[test]
fn test_parse_page() {
    let (title, text) = parse_page(
        r#"<page>
            <title>AccessibleComputing</title>
            <ns>0</ns>
            <id>10</id>
            <redirect title="Computer accessibility" />
            <revision>
            <id>854851586</id>
            <parentid>834079434</parentid>
            <timestamp>2018-08-14T06:47:24Z</timestamp>
            <contributor>
                <username>Godsy</username>
                <id>23257138</id>
            </contributor>
            <comment>remove from category for seeking instructions on rcats</comment>
            <model>wikitext</model>
            <format>text/x-wiki</format>
            <text bytes="94" xml:space="preserve">#REDIRECT [[Computer accessibility]]

        {{R from move}}
        {{R from CamelCase}}
        {{R unprintworthy}}</text>
            <sha1>42l0cvblwtb4nnupxm6wo000d27t6kf</sha1>
            </revision>
        </page>"#,
    )
    .unwrap();

    assert_eq!(title, "AccessibleComputing");
    assert_eq!(text.len(), 118);
}

#[test]
fn display_suffix_is_discarded() {
    let links = extract_links("[[A|B]]");
    assert_eq!(links, vec!["A"]);
}

#[test]
fn no_references_yields_empty_list() {
    let links = extract_links("plain text without any reference");
    assert!(links.is_empty());
    assert!(extract_links("").is_empty());
}

#[test]
fn duplicates_and_order_are_preserved() {
    let links = extract_links("[[A]] then [[B]] then [[A]] again");
    assert_eq!(links, vec!["A", "B", "A"]);
}

#[test]
fn target_charset_and_stray_brackets() {
    assert_eq!(extract_links("[[a b-c 7]]"), vec!["a b-c 7"]);
    // An empty target is no reference.
    assert!(extract_links("[[|a]]").is_empty());
    assert!(extract_links("[[]]").is_empty());
    // A third opening bracket shifts the match by one position.
    assert_eq!(extract_links("[[[x]]"), vec!["x"]);
    // A second pipe breaks the reference.
    assert!(extract_links("[[a|b|c]]").is_empty());
    // An empty display name is accepted.
    assert_eq!(extract_links("[[a|]]"), vec!["a"]);
}

#[test]
fn parse_record_extracts_title_and_links() {
    let rec = parse_record("<page><title>A</title><text>see [[B]] and [[C|See C]]</text></page>")
        .unwrap();
    assert_eq!(rec.title, "A");
    assert_eq!(rec.links, vec!["B", "C"]);
}

#[test]
fn malformed_markup_is_not_xml() {
    assert_eq!(parse_record("<page>").unwrap_err(), ExtractError::NotXml);
    assert_eq!(parse_record("").unwrap_err(), ExtractError::NotXml);
}

#[test]
fn missing_title_node_is_rejected() {
    let e = parse_record("<page><text>x</text></page>").unwrap_err();
    assert_eq!(e, ExtractError::NoTitleNode);
}

#[test]
fn title_without_text_is_rejected() {
    let e = parse_record("<page><title></title><text>x</text></page>").unwrap_err();
    assert_eq!(e, ExtractError::NoTitleText);
}

#[test]
fn missing_content_node_is_rejected() {
    let e = parse_record("<page><title>X</title></page>").unwrap_err();
    assert_eq!(e, ExtractError::NoContentNode);
}

#[test]
fn empty_title_text_is_rejected() {
    let nodes = vec![
        XmlNode { name: "title".to_string(), text: Some(String::new()) },
        XmlNode { name: "text".to_string(), text: Some("x".to_string()) },
    ];
    assert_eq!(extract_title_content(&nodes).unwrap_err(), ExtractError::NoTitleText);
}

#[test]
fn content_without_text_is_rejected() {
    let e = parse_record("<page><title>X</title><text></text></page>").unwrap_err();
    assert_eq!(e, ExtractError::NoContentText);
}
