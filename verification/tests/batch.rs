use wiki_grapher::batch::{batch_records, Batcher};
use wiki_grapher::record::PageInfo;

fn records(titles: &[&str]) -> Vec<PageInfo> {
    let mut rs = Vec::new();
    for t in titles {
        rs.push(PageInfo::new(t, vec![]));
    }
    rs
}

fn titles_of(batch: &[PageInfo]) -> Vec<String> {
    let mut ts = Vec::new();
    for r in batch {
        ts.push(r.title.clone());
    }
    ts
}

#[test]
fn five_records_threshold_two_commit_three_batches() {
    let batches = batch_records(records(&["a", "b", "c", "d", "e"]), 2);
    assert_eq!(batches.len(), 3);
    assert_eq!(titles_of(&batches[0]), vec!["a", "b"]);
    assert_eq!(titles_of(&batches[1]), vec!["c", "d"]);
    assert_eq!(titles_of(&batches[2]), vec!["e"]);
}

#[test]
fn exact_multiple_leaves_no_partial_batch() {
    let batches = batch_records(records(&["a", "b", "c", "d"]), 2);
    assert_eq!(batches.len(), 2);
    assert_eq!(titles_of(&batches[0]), vec!["a", "b"]);
    assert_eq!(titles_of(&batches[1]), vec!["c", "d"]);
}

#[test]
fn threshold_one_commits_each_record_alone() {
    let batches = batch_records(records(&["a", "b", "c"]), 1);
    assert_eq!(batches.len(), 3);
    for (i, want) in ["a", "b", "c"].iter().enumerate() {
        assert_eq!(titles_of(&batches[i]), vec![*want]);
    }
}

#[test]
fn no_records_commit_no_batches() {
    let batches = batch_records(records(&[]), 1000);
    assert!(batches.is_empty());
}

#[test]
fn batcher_hands_out_full_batch_and_final_partial() {
    let mut b = Batcher::new(2);
    assert!(b.push(PageInfo::new("a", vec![])).is_none());
    let full = b.push(PageInfo::new("b", vec![])).unwrap();
    assert_eq!(titles_of(&full), vec!["a", "b"]);
    assert!(b.push(PageInfo::new("c", vec![])).is_none());
    let partial = b.finish().unwrap();
    assert_eq!(titles_of(&partial), vec!["c"]);
}

#[test]
fn batcher_finish_without_pending_yields_nothing() {
    let mut b = Batcher::new(2);
    assert!(b.push(PageInfo::new("a", vec![])).is_none());
    assert!(b.push(PageInfo::new("b", vec![])).is_some());
    assert!(b.finish().is_none());
}
