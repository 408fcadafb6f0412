//! Parsed records: a page title together with the link targets mined from its
//! body, in first-occurrence order, and their two flat output forms — edge
//! pairs for a relational sink and one delimited line for a text sink.

use vstd::prelude::*;
use vstd::string::*;

use crate::text::str_contains_char;

verus! {

/// Mathematical model of a parsed record: the title and the outgoing link
/// targets, duplicates and self-references allowed, in the order they occur.
#[verifier::ext_equal]
pub struct PageData {
    pub title: Seq<char>,
    pub links: Seq<Seq<char>>,
}

/// One field of the delimited line: the link name, wrapped in double quotes
/// when it contains the separator.
pub open spec fn csv_field(link: Seq<char>) -> Seq<char> {
    if link.contains(',') {
        seq!['"'] + link + seq!['"']
    } else {
        link
    }
}

/// The link names joined by the separator, each quoted when needed.
pub open spec fn csv_rest(links: Seq<Seq<char>>) -> Seq<char>
    decreases links.len(),
{
    if links.len() == 0 {
        Seq::empty()
    } else if links.len() == 1 {
        csv_field(links[0])
    } else {
        csv_field(links[0]) + seq![','] + csv_rest(links.drop_first())
    }
}

/// The whole delimited line of a record: the title, the separator, and the
/// joined link names; a record without links yields the title followed by a
/// bare separator.
pub open spec fn spec_csv_line(title: Seq<char>, links: Seq<Seq<char>>) -> Seq<char> {
    title + seq![','] + csv_rest(links)
}

/// Appending one link extends the joined names by a separator and the new
/// field, or is the bare field when no link came before.
proof fn lemma_csv_rest_push(links: Seq<Seq<char>>, x: Seq<char>)
    ensures
        csv_rest(links.push(x)) == if links.len() == 0 {
            csv_field(x)
        } else {
            csv_rest(links) + seq![','] + csv_field(x)
        },
    decreases links.len(),
{
    if links.len() == 0 {
        assert(links.push(x)[0] == x);
    } else {
        assert(links.push(x)[0] == links[0]);
        assert(links.push(x).drop_first() =~= links.drop_first().push(x));
        lemma_csv_rest_push(links.drop_first(), x);
        if links.len() == 1 {
            assert(csv_rest(links.push(x)) =~= csv_rest(links) + seq![','] + csv_field(x));
        } else {
            assert(csv_rest(links.push(x)) =~= csv_rest(links) + seq![','] + csv_field(x));
        }
    }
}

/// One parsed record of the dump: a page and its outgoing link targets.
#[derive(Debug)]
pub struct PageInfo {
    pub title: String,
    pub links: Vec<String>,
}

impl View for PageInfo {
    type V = PageData;

    open spec fn view(&self) -> PageData {
        PageData { title: self.title@, links: self.links.deep_view() }
    }
}

impl DeepView for PageInfo {
    type V = PageData;

    open spec fn deep_view(&self) -> PageData {
        self.view()
    }
}

impl PageInfo {
    /// Builds a record from a borrowed title and an owned link list.
    pub fn new(title: &str, links: Vec<String>) -> (r: PageInfo)
        ensures
            r@.title == title@,
            r@.links == links.deep_view(),
    {
        PageInfo { title: title.to_owned(), links }
    }

    /// The edge pairs of this record: one `(title, link)` pair per link, in
    /// link order.
    pub fn to_pairs<'a>(&'a self) -> (r: Vec<(&'a str, &'a str)>)
        ensures
            r@.len() == self@.links.len(),
            forall|i: int|
                0 <= i < r@.len() ==> (#[trigger] r@[i]).0@ == self@.title && r@[i].1@
                    == self@.links[i],
    {
        let mut r: Vec<(&str, &str)> = Vec::new();
        let mut i: usize = 0;
        while i < self.links.len()
            invariant
                i <= self.links@.len(),
                r@.len() == i,
                forall|k: int|
                    0 <= k < i ==> (#[trigger] r@[k]).0@ == self@.title && r@[k].1@
                        == self@.links[k],
            decreases self.links@.len() - i,
        {
            r.push((self.title.as_str(), self.links[i].as_str()));
            i = i + 1;
        }
        r
    }

    /// The delimited line of this record: title, separator, then each link
    /// name in order, quoted when it contains the separator.
    pub fn to_csv_line(&self) -> (r: String)
        ensures
            r@ == spec_csv_line(self@.title, self@.links),
    {
        proof {
            reveal_strlit(",");
            reveal_strlit("\"");
        }
        let mut r = String::new();
        r.append(self.title.as_str());
        r.append(",");
        proof {
            assert(self@.links.take(0) =~= Seq::<Seq<char>>::empty());
            assert(r@ =~= self@.title + seq![','] + csv_rest(self@.links.take(0)));
        }
        let mut i: usize = 0;
        while i < self.links.len()
            invariant
                i <= self.links@.len(),
                r@ == self@.title + seq![','] + csv_rest(self@.links.take(i as int)),
            decreases self.links@.len() - i,
        {
            proof {
                reveal_strlit(",");
                reveal_strlit("\"");
            }
            let ghost taken = self@.links.take(i as int);
            if i > 0 {
                r.append(",");
            }
            let link = &self.links[i];
            if str_contains_char(link.as_str(), ',') {
                r.append("\"");
                r.append(link.as_str());
                r.append("\"");
            } else {
                r.append(link.as_str());
            }
            proof {
                assert(self@.links[i as int] == self.links@[i as int]@);
                lemma_csv_rest_push(taken, self@.links[i as int]);
                assert(taken.push(self@.links[i as int]) =~= self@.links.take(i as int + 1));
                if i == 0 {
                    assert(r@ =~= self@.title + seq![','] + csv_rest(self@.links.take(1)));
                } else {
                    assert(r@ =~= self@.title + seq![','] + csv_rest(self@.links.take(i as int + 1)));
                }
            }
            i = i + 1;
        }
        proof {
            assert(self@.links.take(self.links@.len() as int) =~= self@.links);
        }
        r
    }
}

} // verus!
