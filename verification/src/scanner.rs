//! Record-boundary scanner: consumes the dump line by line, accumulates a
//! buffer, and emits one raw fragment each time a line closes a record.
//!
//! The scanner has two modes. Until a line ends with the header-close marker
//! it is waiting for the header to finish; afterwards it emits the buffer as a
//! fragment whenever a line ends with the record-close marker. The buffer is
//! deliberately not cleared on the header transition, so the text of the
//! header lines persists as a prefix of the first emitted fragment — a known
//! imprecision of the boundary detection, noted here rather than silently
//! changed.

use vstd::prelude::*;
use vstd::string::*;

use crate::text::{spec_ends_with, spec_trim_back, str_ends_with, trim_back};

verus! {

/// The line suffix that closes the dump header.
pub open spec fn header_close() -> Seq<char> {
    "</siteinfo>"@
}

/// The line suffix that closes one record.
pub open spec fn record_close() -> Seq<char> {
    "</page>"@
}

/// Mathematical state of the scanner: whether the header has been passed, and
/// the accumulated buffer.
#[verifier::ext_equal]
pub struct ScanState {
    pub header_seen: bool,
    pub buf: Seq<char>,
}

/// The state the scanner starts in: before the header, with an empty buffer.
pub open spec fn scan_init() -> ScanState {
    ScanState { header_seen: false, buf: Seq::empty() }
}

/// One step of the scanner on the line `line`: the successor state and the
/// fragment emitted by this line, if any.
///
/// The line is stripped of trailing whitespace and appended to the buffer.
/// Before the header has been passed no fragment is ever emitted; a line
/// ending with the header-close marker switches the mode. Afterwards a line
/// ending with the record-close marker emits the whole buffer and clears it.
pub open spec fn scan_step(st: ScanState, line: Seq<char>) -> (ScanState, Option<Seq<char>>) {
    let t = spec_trim_back(line);
    let grown = st.buf + t;
    if !st.header_seen {
        (ScanState { header_seen: spec_ends_with(t, header_close()), buf: grown }, None)
    } else if spec_ends_with(t, record_close()) {
        (ScanState { header_seen: true, buf: Seq::empty() }, Some(grown))
    } else {
        (ScanState { header_seen: true, buf: grown }, None)
    }
}

/// The fragments the scanner emits from state `st` on the lines `lines`, in
/// emission order.
pub open spec fn scan_outputs(st: ScanState, lines: Seq<Seq<char>>) -> Seq<Seq<char>>
    decreases lines.len(),
{
    if lines.len() == 0 {
        Seq::empty()
    } else {
        let (st2, emitted) = scan_step(st, lines[0]);
        (match emitted {
            Some(f) => seq![f],
            None => Seq::<Seq<char>>::empty(),
        }) + scan_outputs(st2, lines.drop_first())
    }
}

/// The state the scanner is left in after consuming `lines` from state `st`.
pub open spec fn scan_state_after(st: ScanState, lines: Seq<Seq<char>>) -> ScanState
    decreases lines.len(),
{
    if lines.len() == 0 {
        st
    } else {
        scan_state_after(scan_step(st, lines[0]).0, lines.drop_first())
    }
}

/// The fragments a whole run of the scanner emits on `lines`.
pub open spec fn spec_scan(lines: Seq<Seq<char>>) -> Seq<Seq<char>> {
    scan_outputs(scan_init(), lines)
}

/// The concatenation of the lines with trailing whitespace stripped: the text
/// the scanner accumulates.
pub open spec fn trimmed_concat(lines: Seq<Seq<char>>) -> Seq<char>
    decreases lines.len(),
{
    if lines.len() == 0 {
        Seq::empty()
    } else {
        spec_trim_back(lines[0]) + trimmed_concat(lines.drop_first())
    }
}

/// View of an optionally emitted fragment.
pub open spec fn opt_str_view(o: Option<String>) -> Option<Seq<char>> {
    match o {
        Some(s) => Some(s@),
        None => None,
    }
}

/// The record-boundary scanner over an incoming stream of lines.
pub struct Scanner {
    header_seen: bool,
    buf: String,
}

impl View for Scanner {
    type V = ScanState;

    closed spec fn view(&self) -> ScanState {
        ScanState { header_seen: self.header_seen, buf: self.buf@ }
    }
}

impl Scanner {
    /// A scanner before any line has been consumed.
    pub fn new() -> (r: Scanner)
        ensures
            r@ == scan_init(),
    {
        let r = Scanner { header_seen: false, buf: String::new() };
        proof {
            assert(r@ =~= scan_init());
        }
        r
    }

    /// Consumes one line and returns the fragment it completes, if any.
    pub fn push_line(&mut self, line: &str) -> (emitted: Option<String>)
        ensures
            final(self)@ == scan_step(old(self)@, line@).0,
            opt_str_view(emitted) == scan_step(old(self)@, line@).1,
    {
        let t = trim_back(line);
        self.buf.append(t);
        if !self.header_seen {
            if str_ends_with(t, "</siteinfo>") {
                self.header_seen = true;
            }
            None
        } else if str_ends_with(t, "</page>") {
            let frag = self.buf.clone();
            self.buf = String::new();
            Some(frag)
        } else {
            None
        }
    }
}

/// Runs the scanner over a finite sequence of lines and returns every emitted
/// fragment, in emission order; no fragment is emitted twice and none is
/// reordered.
pub fn scan_lines(lines: &Vec<String>) -> (frags: Vec<String>)
    ensures
        frags.deep_view() == spec_scan(lines.deep_view()),
{
    let ghost all: Seq<Seq<char>> = lines.deep_view();
    let mut sc = Scanner::new();
    let mut frags: Vec<String> = Vec::new();
    let mut i: usize = 0;
    proof {
        assert(frags.deep_view() =~= Seq::<Seq<char>>::empty());
        assert(all.skip(0) =~= all);
        assert(Seq::<Seq<char>>::empty() + spec_scan(all) =~= spec_scan(all));
    }
    while i < lines.len()
        invariant
            i <= lines.len(),
            all == lines.deep_view(),
            frags.deep_view() + scan_outputs(sc@, all.skip(i as int)) == spec_scan(all),
        decreases lines.len() - i,
    {
        let ghost prev_frags = frags.deep_view();
        let ghost st = sc@;
        proof {
            assert(all.skip(i as int)[0] == all[i as int]);
            assert(all.skip(i as int).drop_first() =~= all.skip(i as int + 1));
            assert(all[i as int] == lines@[i as int]@);
        }
        let emitted = sc.push_line(lines[i].as_str());
        match emitted {
            Some(f) => {
                frags.push(f);
                proof {
                    assert(scan_outputs(st, all.skip(i as int)) == seq![f@] + scan_outputs(
                        sc@,
                        all.skip(i as int + 1),
                    ));
                    assert(frags.deep_view() =~= prev_frags.push(f@));
                    assert(prev_frags.push(f@) + scan_outputs(sc@, all.skip(i as int + 1))
                        =~= prev_frags + scan_outputs(st, all.skip(i as int)));
                }
            },
            None => {
                proof {
                    assert(scan_outputs(st, all.skip(i as int)) == Seq::<Seq<char>>::empty()
                        + scan_outputs(sc@, all.skip(i as int + 1)));
                    assert(Seq::<Seq<char>>::empty() + scan_outputs(sc@, all.skip(i as int + 1))
                        =~= scan_outputs(sc@, all.skip(i as int + 1)));
                }
            },
        }
        i = i + 1;
    }
    proof {
        assert(all.skip(i as int) =~= Seq::<Seq<char>>::empty());
        assert(frags.deep_view() + Seq::<Seq<char>>::empty() =~= frags.deep_view());
    }
    frags
}

/// Splitting a run of the scanner: the fragments over `a + b` are the
/// fragments over `a` followed by the fragments over `b` started in the state
/// `a` leaves behind.
proof fn lemma_scan_split(st: ScanState, a: Seq<Seq<char>>, b: Seq<Seq<char>>)
    ensures
        scan_outputs(st, a + b) == scan_outputs(st, a) + scan_outputs(scan_state_after(st, a), b),
        scan_state_after(st, a + b) == scan_state_after(scan_state_after(st, a), b),
    decreases a.len(),
{
    if a.len() == 0 {
        assert(a + b =~= b);
        assert(scan_outputs(st, a) + scan_outputs(st, b) =~= scan_outputs(st, b));
    } else {
        let (st2, emitted) = scan_step(st, a[0]);
        assert((a + b)[0] == a[0]);
        assert((a + b).drop_first() =~= a.drop_first() + b);
        lemma_scan_split(st2, a.drop_first(), b);
        assert(scan_outputs(st, a + b) =~= scan_outputs(st, a) + scan_outputs(
            scan_state_after(st, a),
            b,
        ));
    }
}

/// Concatenation of trimmed lines splits over concatenation of the line
/// sequences.
proof fn lemma_trimmed_concat_split(a: Seq<Seq<char>>, b: Seq<Seq<char>>)
    ensures
        trimmed_concat(a + b) == trimmed_concat(a) + trimmed_concat(b),
    decreases a.len(),
{
    if a.len() == 0 {
        assert(a + b =~= b);
        assert(trimmed_concat(a) + trimmed_concat(b) =~= trimmed_concat(b));
    } else {
        assert((a + b)[0] == a[0]);
        assert((a + b).drop_first() =~= a.drop_first() + b);
        lemma_trimmed_concat_split(a.drop_first(), b);
        assert(trimmed_concat(a + b) =~= trimmed_concat(a) + trimmed_concat(b));
    }
}

/// Before the header has been passed, lines that do not close the header emit
/// nothing and only grow the buffer.
proof fn lemma_scan_awaiting(st: ScanState, lines: Seq<Seq<char>>)
    requires
        !st.header_seen,
        forall|i: int|
            0 <= i < lines.len() ==> !spec_ends_with(
                spec_trim_back(#[trigger] lines[i]),
                header_close(),
            ),
    ensures
        scan_outputs(st, lines) == Seq::<Seq<char>>::empty(),
        scan_state_after(st, lines) == (ScanState {
            header_seen: false,
            buf: st.buf + trimmed_concat(lines),
        }),
    decreases lines.len(),
{
    if lines.len() == 0 {
        assert(st.buf + trimmed_concat(lines) =~= st.buf);
        assert(scan_state_after(st, lines) =~= ScanState {
            header_seen: false,
            buf: st.buf + trimmed_concat(lines),
        });
    } else {
        let (st2, emitted) = scan_step(st, lines[0]);
        lemma_scan_awaiting(st2, lines.drop_first());
        assert(st2.buf + trimmed_concat(lines.drop_first()) =~= st.buf + trimmed_concat(lines));
        assert(scan_state_after(st, lines) =~= ScanState {
            header_seen: false,
            buf: st.buf + trimmed_concat(lines),
        });
        assert(Seq::<Seq<char>>::empty() + Seq::<Seq<char>>::empty() =~= Seq::<
            Seq<char>,
        >::empty());
    }
}

/// After the header, lines that do not close a record emit nothing and only
/// grow the buffer.
proof fn lemma_scan_accumulating(st: ScanState, lines: Seq<Seq<char>>)
    requires
        st.header_seen,
        forall|i: int|
            0 <= i < lines.len() ==> !spec_ends_with(
                spec_trim_back(#[trigger] lines[i]),
                record_close(),
            ),
    ensures
        scan_outputs(st, lines) == Seq::<Seq<char>>::empty(),
        scan_state_after(st, lines) == (ScanState {
            header_seen: true,
            buf: st.buf + trimmed_concat(lines),
        }),
    decreases lines.len(),
{
    if lines.len() == 0 {
        assert(st.buf + trimmed_concat(lines) =~= st.buf);
        assert(scan_state_after(st, lines) =~= ScanState {
            header_seen: true,
            buf: st.buf + trimmed_concat(lines),
        });
    } else {
        let (st2, emitted) = scan_step(st, lines[0]);
        lemma_scan_accumulating(st2, lines.drop_first());
        assert(st2.buf + trimmed_concat(lines.drop_first()) =~= st.buf + trimmed_concat(lines));
        assert(scan_state_after(st, lines) =~= ScanState {
            header_seen: true,
            buf: st.buf + trimmed_concat(lines),
        });
        assert(Seq::<Seq<char>>::empty() + Seq::<Seq<char>>::empty() =~= Seq::<
            Seq<char>,
        >::empty());
    }
}

/// Law of the scanner on an input holding exactly one well-formed record:
/// exactly one fragment is emitted. Line `h` is the first line that closes
/// the header; the record occupies the remaining lines, the last of which is
/// the only one closing a record. The emitted fragment is the trimmed text of
/// the record's lines — spanning the record from its opening line through the
/// line bearing the close marker — prefixed by the trimmed header text, which
/// the scanner keeps in its buffer by design.
pub proof fn lemma_single_record_scan(lines: Seq<Seq<char>>, h: int)
    requires
        0 <= h < lines.len() - 1,
        forall|i: int|
            0 <= i < h ==> !spec_ends_with(spec_trim_back(#[trigger] lines[i]), header_close()),
        spec_ends_with(spec_trim_back(lines[h]), header_close()),
        forall|i: int|
            h < i < lines.len() - 1 ==> !spec_ends_with(
                spec_trim_back(#[trigger] lines[i]),
                record_close(),
            ),
        spec_ends_with(spec_trim_back(lines[lines.len() - 1]), record_close()),
    ensures
        spec_scan(lines) == seq![
            trimmed_concat(lines.subrange(0, h + 1)) + trimmed_concat(
                lines.subrange(h + 1, lines.len() as int),
            ),
        ],
        trimmed_concat(lines.subrange(0, h + 1)) + trimmed_concat(
            lines.subrange(h + 1, lines.len() as int),
        ) == trimmed_concat(lines),
{
    let n = lines.len() as int;
    let pre = lines.subrange(0, h);
    let hdr = lines.subrange(h, h + 1);
    let mid = lines.subrange(h + 1, n - 1);
    let fin = lines.subrange(n - 1, n);

    // Split the full run at the header line and at the final line.
    assert(lines =~= (pre + hdr) + (mid + fin));
    lemma_scan_split(scan_init(), pre + hdr, mid + fin);
    lemma_scan_split(scan_init(), pre, hdr);
    let st_pre = scan_state_after(scan_init(), pre);
    lemma_scan_split(st_pre, hdr, Seq::empty());

    // Phase 1: no line before `h` closes the header.
    lemma_scan_awaiting(scan_init(), pre);
    assert(st_pre == ScanState { header_seen: false, buf: Seq::empty() + trimmed_concat(pre) });

    // The header line itself: transition without emission.
    assert(hdr[0] == lines[h]);
    assert(hdr.drop_first() =~= Seq::<Seq<char>>::empty());
    let (st_hdr, e_hdr) = scan_step(st_pre, lines[h]);
    assert(e_hdr is None);
    assert(st_hdr.header_seen);
    assert(scan_outputs(st_hdr, hdr.drop_first()) =~= Seq::<Seq<char>>::empty());
    assert(scan_outputs(st_pre, hdr) == Seq::<Seq<char>>::empty() + scan_outputs(
        st_hdr,
        hdr.drop_first(),
    ));
    assert(scan_outputs(st_pre, hdr) =~= Seq::<Seq<char>>::empty());
    assert(scan_state_after(st_pre, hdr) == scan_state_after(st_hdr, hdr.drop_first()));
    assert(scan_state_after(st_hdr, hdr.drop_first()) == st_hdr);
    let st_mid0 = scan_state_after(scan_init(), pre + hdr);
    assert(st_mid0 == st_hdr);

    // Phase 2: record lines before the last close no record.
    lemma_scan_split(st_mid0, mid, fin);
    lemma_scan_accumulating(st_mid0, mid);
    let st_fin = scan_state_after(st_mid0, mid);

    // The final line: the buffer is emitted.
    assert(fin[0] == lines[n - 1]);
    assert(fin.drop_first() =~= Seq::<Seq<char>>::empty());
    let (st_end, e_fin) = scan_step(st_fin, lines[n - 1]);
    assert(e_fin == Some(st_fin.buf + spec_trim_back(lines[n - 1])));
    assert(scan_outputs(st_end, fin.drop_first()) =~= Seq::<Seq<char>>::empty());
    assert(scan_outputs(st_fin, fin) == seq![st_fin.buf + spec_trim_back(lines[n - 1])]
        + scan_outputs(st_end, fin.drop_first()));
    assert(scan_outputs(st_fin, fin) =~= seq![st_fin.buf + spec_trim_back(lines[n - 1])]);

    // Assemble the emitted text.
    lemma_trimmed_concat_split(pre, hdr);
    assert(pre + hdr =~= lines.subrange(0, h + 1));
    lemma_trimmed_concat_split(mid, fin);
    assert(mid + fin =~= lines.subrange(h + 1, n));
    assert(trimmed_concat(Seq::<Seq<char>>::empty()) == Seq::<char>::empty());
    assert(trimmed_concat(hdr) == spec_trim_back(hdr[0]) + trimmed_concat(hdr.drop_first()));
    assert(trimmed_concat(hdr) =~= spec_trim_back(lines[h]) + Seq::<char>::empty());
    assert(trimmed_concat(fin) == spec_trim_back(fin[0]) + trimmed_concat(fin.drop_first()));
    assert(trimmed_concat(fin) =~= spec_trim_back(lines[n - 1]) + Seq::<char>::empty());
    lemma_trimmed_concat_split(pre + hdr, mid + fin);

    assert(st_fin.buf + spec_trim_back(lines[n - 1]) =~= trimmed_concat(
        lines.subrange(0, h + 1),
    ) + trimmed_concat(lines.subrange(h + 1, n)));
    assert(spec_scan(lines) =~= seq![
        trimmed_concat(lines.subrange(0, h + 1)) + trimmed_concat(lines.subrange(h + 1, n)),
    ]);
    assert(trimmed_concat(lines.subrange(0, h + 1)) + trimmed_concat(lines.subrange(h + 1, n))
        =~= trimmed_concat(lines));
}

} // verus!
