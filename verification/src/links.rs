//! The in-body link reference grammar and its extractor.
//!
//! A reference is `[[target]]` or `[[target|display]]`: a double-open
//! bracket, a non-empty target drawn from letters, digits, hyphen and space,
//! an optional pipe with a discarded display name over the same alphabet, and
//! a double-close bracket. References are mined left to right and
//! non-overlapping, duplicates preserved, case-sensitive, with no escaping.

use vstd::prelude::*;
use vstd::string::*;

verus! {

/// Whether `c` may occur in a link target: ASCII letters, digits, hyphen and
/// space.
pub open spec fn is_link_char(c: char) -> bool {
    ('a' as u32 <= c as u32 && c as u32 <= 'z' as u32) || ('A' as u32 <= c as u32 && c as u32
        <= 'Z' as u32) || ('0' as u32 <= c as u32 && c as u32 <= '9' as u32) || c == '-' || c == ' '
}

/// The first position at or after `i` that is past the end of `s` or holds a
/// character outside the link alphabet.
pub open spec fn link_run_end(s: Seq<char>, i: int) -> int
    decreases s.len() - i,
    when 0 <= i <= s.len()
{
    if i == s.len() {
        i
    } else if is_link_char(s[i]) {
        link_run_end(s, i + 1)
    } else {
        i
    }
}

/// Bounds of a link-character run: it starts at `i`, stays within `s`, holds
/// only link characters, and ends at the end of `s` or just before a
/// character outside the alphabet.
pub proof fn lemma_link_run_end(s: Seq<char>, i: int)
    requires
        0 <= i <= s.len(),
    ensures
        i <= link_run_end(s, i) <= s.len(),
        forall|j: int| i <= j < link_run_end(s, i) ==> is_link_char(#[trigger] s[j]),
        link_run_end(s, i) < s.len() ==> !is_link_char(s[link_run_end(s, i)]),
    decreases s.len() - i,
{
    if i < s.len() && is_link_char(s[i]) {
        lemma_link_run_end(s, i + 1);
    }
}

/// The reference matched at position `i` of `s`, if any: `Some((j, e))` where
/// the target is `s[i + 2 .. j]` and the whole reference is `s[i .. e]`.
///
/// A match needs `[[`, a non-empty greedy run of link characters, and then
/// either the closing `]]` at once or a pipe, a second run, and the closing
/// `]]`.
pub open spec fn link_match_at(s: Seq<char>, i: int) -> Option<(int, int)> {
    if i + 2 <= s.len() && s[i] == '[' && s[i + 1] == '[' {
        let j = link_run_end(s, i + 2);
        if j > i + 2 {
            if j + 2 <= s.len() && s[j] == ']' && s[j + 1] == ']' {
                Some((j, j + 2))
            } else if j < s.len() && s[j] == '|' {
                let k = link_run_end(s, j + 1);
                if k + 2 <= s.len() && s[k] == ']' && s[k + 1] == ']' {
                    Some((j, k + 2))
                } else {
                    None
                }
            } else {
                None
            }
        } else {
            None
        }
    } else {
        None
    }
}

/// A match at `i` captures past `i + 2` and ends after the capture but within
/// `s`.
pub proof fn lemma_link_match_at_bounds(s: Seq<char>, i: int)
    requires
        0 <= i <= s.len(),
        link_match_at(s, i) is Some,
    ensures
        i + 2 < link_match_at(s, i).unwrap().0,
        link_match_at(s, i).unwrap().0 + 2 <= link_match_at(s, i).unwrap().1 <= s.len(),
{
    lemma_link_run_end(s, i + 2);
    let j = link_run_end(s, i + 2);
    if !(j + 2 <= s.len() && s[j] == ']' && s[j + 1] == ']') && j < s.len() && s[j] == '|' {
        lemma_link_run_end(s, j + 1);
    }
}

/// The targets of the references of `s` from position `i` on, in
/// left-to-right order: a match contributes its target and scanning resumes
/// past the match; otherwise scanning advances one position.
pub open spec fn spec_links_from(s: Seq<char>, i: int) -> Seq<Seq<char>>
    decreases s.len() - i,
    when 0 <= i <= s.len()
    via spec_links_from_dec
{
    if i >= s.len() {
        Seq::empty()
    } else {
        match link_match_at(s, i) {
            Some(m) => seq![s.subrange(i + 2, m.0)] + spec_links_from(s, m.1),
            None => spec_links_from(s, i + 1),
        }
    }
}

#[via_fn]
proof fn spec_links_from_dec(s: Seq<char>, i: int) {
    if 0 <= i < s.len() && link_match_at(s, i) is Some {
        lemma_link_match_at_bounds(s, i);
    }
}

/// The targets of every reference of `s`, in left-to-right order, duplicates
/// included.
pub open spec fn spec_extract_links(s: Seq<char>) -> Seq<Seq<char>> {
    spec_links_from(s, 0)
}

/// Whether `c` may occur in a link target.
pub fn is_link_char_exec(c: char) -> (r: bool)
    ensures
        r == is_link_char(c),
{
    let u = c as u32;
    ('a' as u32 <= u && u <= 'z' as u32) || ('A' as u32 <= u && u <= 'Z' as u32) || ('0' as u32
        <= u && u <= '9' as u32) || c == '-' || c == ' '
}

/// Walks to the end of the run of link characters starting at `start`.
fn run_end(s: &str, start: usize, n: usize) -> (j: usize)
    requires
        start <= n,
        n == s@.len(),
    ensures
        j == link_run_end(s@, start as int),
        start <= j <= n,
{
    let mut j = start;
    while j < n && is_link_char_exec(s.get_char(j))
        invariant
            start <= j <= n,
            n == s@.len(),
            link_run_end(s@, start as int) == link_run_end(s@, j as int),
        decreases n - j,
    {
        j = j + 1;
    }
    j
}

/// Finds the reference matched at position `i`, if any, mirroring
/// [`link_match_at`].
fn try_match_at(s: &str, i: usize, n: usize) -> (r: Option<(usize, usize)>)
    requires
        i < n,
        n == s@.len(),
    ensures
        match r {
            Some(p) => {
                &&& link_match_at(s@, i as int) == Some((p.0 as int, p.1 as int))
                &&& i + 2 < p.0
                &&& p.0 + 2 <= p.1 <= n
            },
            None => link_match_at(s@, i as int) is None,
        },
{
    if n - i < 2 {
        return None;
    }
    if s.get_char(i) != '[' || s.get_char(i + 1) != '[' {
        return None;
    }
    let j = run_end(s, i + 2, n);
    if j == i + 2 {
        return None;
    }
    if n - j >= 2 && s.get_char(j) == ']' && s.get_char(j + 1) == ']' {
        return Some((j, j + 2));
    }
    if j < n && s.get_char(j) == '|' {
        let k = run_end(s, j + 1, n);
        if n - k >= 2 && s.get_char(k) == ']' && s.get_char(k + 1) == ']' {
            return Some((j, k + 2));
        }
    }
    None
}

/// Extracts every link target of `content`, left to right, duplicates and
/// self-references preserved; content without references yields the empty
/// list.
pub fn extract_links(content: &str) -> (links: Vec<String>)
    ensures
        links.deep_view() == spec_extract_links(content@),
{
    let n = content.unicode_len();
    let mut links: Vec<String> = Vec::new();
    let mut i: usize = 0;
    proof {
        assert(links.deep_view() =~= Seq::<Seq<char>>::empty());
        assert(Seq::<Seq<char>>::empty() + spec_links_from(content@, 0) =~= spec_links_from(
            content@,
            0,
        ));
    }
    while i < n
        invariant
            i <= n,
            n == content@.len(),
            links.deep_view() + spec_links_from(content@, i as int) == spec_extract_links(
                content@,
            ),
        decreases n - i,
    {
        let ghost prev = links.deep_view();
        match try_match_at(content, i, n) {
            Some(p) => {
                let (j, e) = p;
                let cap = content.substring_char(i + 2, j).to_owned();
                links.push(cap);
                proof {
                    assert(spec_links_from(content@, i as int) == seq![
                        content@.subrange(i as int + 2, j as int),
                    ] + spec_links_from(content@, e as int));
                    assert(links.deep_view() =~= prev.push(cap@));
                    assert(prev.push(cap@) + spec_links_from(content@, e as int) =~= prev
                        + spec_links_from(content@, i as int));
                }
                i = e;
            },
            None => {
                proof {
                    assert(spec_links_from(content@, i as int) == spec_links_from(
                        content@,
                        i as int + 1,
                    ));
                }
                i = i + 1;
            },
        }
    }
    proof {
        assert(spec_links_from(content@, n as int) =~= Seq::<Seq<char>>::empty());
        assert(links.deep_view() + Seq::<Seq<char>>::empty() =~= links.deep_view());
    }
    links
}

} // verus!
