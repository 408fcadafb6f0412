//! The sequential core of the ingestion pipeline: lines are scanned into
//! fragments, fragments are parsed into records with malformed ones dropped,
//! and records are cut into committed batches.
//!
//! Each stage is a deterministic function that preserves arrival order, so
//! running the stages one after another over the whole stream yields exactly
//! what the concurrent hand-off over single-producer single-consumer channels
//! yields: end-to-end record order equals source emission order.

use vstd::prelude::*;
use vstd::string::*;

use crate::batch::{batch_records, spec_batches};
use crate::extract::{parse_record, spec_parse_record};
use crate::record::{PageData, PageInfo};
use crate::scanner::{scan_lines, spec_scan};

verus! {

/// The records the extractor stage produces from the fragments `frags`, in
/// order: each fragment that parses contributes its record, and each
/// malformed fragment contributes nothing.
pub open spec fn spec_extract_stage(frags: Seq<Seq<char>>) -> Seq<PageData>
    decreases frags.len(),
{
    if frags.len() == 0 {
        Seq::empty()
    } else {
        (match spec_parse_record(frags[0]) {
            Ok(r) => seq![r],
            Err(_) => Seq::<PageData>::empty(),
        }) + spec_extract_stage(frags.drop_first())
    }
}

/// The extractor stage splits over concatenation of fragment streams.
proof fn lemma_extract_stage_split(a: Seq<Seq<char>>, b: Seq<Seq<char>>)
    ensures
        spec_extract_stage(a + b) == spec_extract_stage(a) + spec_extract_stage(b),
    decreases a.len(),
{
    if a.len() == 0 {
        assert(a + b =~= b);
        assert(spec_extract_stage(a) + spec_extract_stage(b) =~= spec_extract_stage(b));
    } else {
        assert((a + b)[0] == a[0]);
        assert((a + b).drop_first() =~= a.drop_first() + b);
        lemma_extract_stage_split(a.drop_first(), b);
        assert(spec_extract_stage(a + b) =~= spec_extract_stage(a) + spec_extract_stage(b));
    }
}

/// Law of malformed fragments: a fragment that does not parse — one missing
/// its content node among them — contributes no record at all; the records of
/// the stream are exactly those of the fragments before it followed by those
/// of the fragments after it, so processing resumes with the next fragment.
pub proof fn lemma_malformed_fragment_dropped(frags: Seq<Seq<char>>, i: int)
    requires
        0 <= i < frags.len(),
        spec_parse_record(frags[i]) is Err,
    ensures
        spec_extract_stage(frags) == spec_extract_stage(frags.subrange(0, i))
            + spec_extract_stage(frags.subrange(i + 1, frags.len() as int)),
        spec_extract_stage(frags) == spec_extract_stage(frags.remove(i)),
{
    let n = frags.len() as int;
    let pre = frags.subrange(0, i);
    let one = frags.subrange(i, i + 1);
    let post = frags.subrange(i + 1, n);
    assert(frags =~= pre + (one + post));
    lemma_extract_stage_split(pre, one + post);
    lemma_extract_stage_split(one, post);
    assert(one[0] == frags[i]);
    assert(one.drop_first() =~= Seq::<Seq<char>>::empty());
    assert(spec_extract_stage(one.drop_first()) == Seq::<PageData>::empty());
    assert(spec_extract_stage(one) =~= Seq::<PageData>::empty());
    assert(spec_extract_stage(one + post) =~= spec_extract_stage(post));
    assert(spec_extract_stage(frags) =~= spec_extract_stage(pre) + spec_extract_stage(post));
    assert(frags.remove(i) =~= pre + post);
    lemma_extract_stage_split(pre, post);
}

/// Drains a fragment stream in order into parsed records: a fragment that
/// fails to parse is dropped and processing continues with the next one;
/// every fragment that parses yields its record, in arrival order.
pub fn extract_records(frags: &Vec<String>) -> (records: Vec<PageInfo>)
    ensures
        records.deep_view() == spec_extract_stage(frags.deep_view()),
{
    let ghost all: Seq<Seq<char>> = frags.deep_view();
    let mut records: Vec<PageInfo> = Vec::new();
    let mut i: usize = 0;
    proof {
        assert(records.deep_view() =~= Seq::<PageData>::empty());
        assert(all.skip(0) =~= all);
        assert(Seq::<PageData>::empty() + spec_extract_stage(all) =~= spec_extract_stage(all));
    }
    while i < frags.len()
        invariant
            i <= frags@.len(),
            all == frags.deep_view(),
            records.deep_view() + spec_extract_stage(all.skip(i as int)) == spec_extract_stage(
                all,
            ),
        decreases frags@.len() - i,
    {
        let ghost prev = records.deep_view();
        proof {
            assert(all.skip(i as int)[0] == all[i as int]);
            assert(all.skip(i as int).drop_first() =~= all.skip(i as int + 1));
            assert(all[i as int] == frags@[i as int]@);
        }
        match parse_record(frags[i].as_str()) {
            Ok(rec) => {
                let ghost r = rec@;
                records.push(rec);
                proof {
                    assert(spec_extract_stage(all.skip(i as int)) == seq![r]
                        + spec_extract_stage(all.skip(i as int + 1)));
                    assert(records.deep_view() =~= prev.push(r));
                    assert(prev.push(r) + spec_extract_stage(all.skip(i as int + 1)) =~= prev
                        + spec_extract_stage(all.skip(i as int)));
                }
            },
            Err(_) => {
                proof {
                    assert(spec_extract_stage(all.skip(i as int)) == Seq::<PageData>::empty()
                        + spec_extract_stage(all.skip(i as int + 1)));
                    assert(Seq::<PageData>::empty() + spec_extract_stage(all.skip(i as int + 1))
                        =~= spec_extract_stage(all.skip(i as int + 1)));
                }
            },
        }
        i = i + 1;
    }
    proof {
        assert(all.skip(frags@.len() as int) =~= Seq::<Seq<char>>::empty());
        assert(records.deep_view() + Seq::<PageData>::empty() =~= records.deep_view());
    }
    records
}

/// Runs the extractor and persister stages over a fragment stream: the
/// committed batches hold, in order, exactly the records of the fragments
/// that parse, cut at the threshold, with the final partial batch committed
/// at end of stream.
pub fn run_from_fragments(frags: &Vec<String>, threshold: usize) -> (batches: Vec<Vec<PageInfo>>)
    requires
        threshold >= 1,
    ensures
        batches.deep_view() == spec_batches(
            spec_extract_stage(frags.deep_view()),
            threshold as nat,
        ),
{
    let records = extract_records(frags);
    batch_records(records, threshold)
}

/// Runs the whole pipeline over a finite stream of lines: scanning into
/// fragments, extraction with malformed fragments dropped, and threshold
/// batching, each stage preserving arrival order.
pub fn run_pipeline(lines: &Vec<String>, threshold: usize) -> (batches: Vec<Vec<PageInfo>>)
    requires
        threshold >= 1,
    ensures
        batches.deep_view() == spec_batches(
            spec_extract_stage(spec_scan(lines.deep_view())),
            threshold as nat,
        ),
{
    let frags = scan_lines(lines);
    run_from_fragments(&frags, threshold)
}

} // verus!
