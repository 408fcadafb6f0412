//! Record extraction: a raw fragment is parsed as a markup tree, the first
//! descendant named `title` and the first named `text` are located in
//! document order, and the link targets are mined from the latter's text.
//!
//! Parsing the markup itself is delegated to the `roxmltree` crate behind a
//! trusted wrapper that flattens the tree into a plain node list; everything
//! after that point is verified against the flattened list.

use vstd::prelude::*;
use vstd::string::*;

use crate::links::{extract_links, spec_extract_links};
use crate::record::{PageData, PageInfo};
use crate::text::str_eq;

verus! {

/// One node of the flattened markup tree, in document order: its tag name
/// (empty for non-element nodes) and its immediate text, if any.
#[derive(Debug)]
pub struct XmlNode {
    pub name: String,
    pub text: Option<String>,
}

impl DeepView for XmlNode {
    type V = (Seq<char>, Option<Seq<char>>);

    open spec fn deep_view(&self) -> (Seq<char>, Option<Seq<char>>) {
        (self.name@, self.text.deep_view())
    }
}

/// The flattened node list of a markup document: `None` when the text is not
/// well-formed markup, otherwise every node of the tree in document order
/// with its tag name and immediate text. The list is a function of the
/// document text alone.
pub uninterp spec fn xml_node_list(doc: Seq<char>) -> Option<Seq<(Seq<char>, Option<Seq<char>>)>>;

/// Relies on `roxmltree::Document::parse` and the node accessors
/// `tag_name().name()` and `text()`: parsing is deterministic in the document
/// text, `descendants()` walks the tree in document order, `name()` is the
/// element's local name and empty for non-element nodes, and `text()` is the
/// node's immediate text.
#[verifier::external_body]
fn xml_nodes(doc: &str) -> (r: Option<Vec<XmlNode>>)
    ensures
        r is Some <==> xml_node_list(doc@) is Some,
        r matches Some(ns) ==> ns.deep_view() == xml_node_list(doc@).unwrap(),
{
    match roxmltree::Document::parse(doc) {
        Ok(tree) => Some(
            tree.descendants().map(
                |n| XmlNode {
                    name: n.tag_name().name().to_owned(),
                    text: n.text().map(|t| t.to_owned()),
                },
            ).collect(),
        ),
        Err(_) => None,
    }
}

/// Why a fragment was dropped rather than turned into a record.
#[derive(Debug, Clone, Copy, PartialEq, Eq, Structural)]
pub enum ExtractError {
    /// The fragment is not well-formed markup.
    NotXml,
    /// No descendant node is named `title`.
    NoTitleNode,
    /// The title node has no text, or its text is empty.
    NoTitleText,
    /// No descendant node is named `text`.
    NoContentNode,
    /// The content node has no text.
    NoContentText,
}

/// The first node of `ns` whose tag name is `tag`, in document order.
pub open spec fn spec_find_tag(
    ns: Seq<(Seq<char>, Option<Seq<char>>)>,
    tag: Seq<char>,
) -> Option<(Seq<char>, Option<Seq<char>>)>
    decreases ns.len(),
{
    if ns.len() == 0 {
        None
    } else if ns[0].0 == tag {
        Some(ns[0])
    } else {
        spec_find_tag(ns.drop_first(), tag)
    }
}

/// The title and content text of a flattened fragment: the text of the first
/// `title` node and of the first `text` node. A fragment is rejected when
/// either node is absent, when either node has no text, or when the title
/// text is empty — a record's title is always a non-empty string.
pub open spec fn spec_extract_page(ns: Seq<(Seq<char>, Option<Seq<char>>)>) -> Result<
    (Seq<char>, Seq<char>),
    ExtractError,
> {
    match spec_find_tag(ns, "title"@) {
        None => Err(ExtractError::NoTitleNode),
        Some(tn) => match tn.1 {
            None => Err(ExtractError::NoTitleText),
            Some(title) => if title.len() == 0 {
                Err(ExtractError::NoTitleText)
            } else {
                match spec_find_tag(ns, "text"@) {
                    None => Err(ExtractError::NoContentNode),
                    Some(cn) => match cn.1 {
                        None => Err(ExtractError::NoContentText),
                        Some(content) => Ok((title, content)),
                    },
                }
            },
        },
    }
}

/// The parse of a whole fragment: its flattened node list when the markup is
/// well formed, then the title and content text of that list.
pub open spec fn spec_parse_page(doc: Seq<char>) -> Result<(Seq<char>, Seq<char>), ExtractError> {
    match xml_node_list(doc) {
        None => Err(ExtractError::NotXml),
        Some(ns) => spec_extract_page(ns),
    }
}

/// The record a fragment yields: its title and the link targets mined from
/// its content text, or the reason it is dropped.
pub open spec fn spec_parse_record(doc: Seq<char>) -> Result<PageData, ExtractError> {
    match spec_parse_page(doc) {
        Err(e) => Err(e),
        Ok(tc) => Ok(PageData { title: tc.0, links: spec_extract_links(tc.1) }),
    }
}

/// A parsed record always carries a non-empty title.
pub proof fn lemma_record_title_nonempty(doc: Seq<char>)
    requires
        spec_parse_record(doc) is Ok,
    ensures
        spec_parse_record(doc).unwrap().title.len() > 0,
{
}

/// Finds the first node of `nodes` named `tag`.
fn find_tag<'a>(nodes: &'a Vec<XmlNode>, tag: &str) -> (r: Option<&'a XmlNode>)
    ensures
        match r {
            Some(n) => spec_find_tag(nodes.deep_view(), tag@) == Some(n.deep_view()),
            None => spec_find_tag(nodes.deep_view(), tag@) is None,
        },
{
    let ghost all = nodes.deep_view();
    let mut i: usize = 0;
    proof {
        assert(all.skip(0) =~= all);
    }
    while i < nodes.len()
        invariant
            i <= nodes@.len(),
            all == nodes.deep_view(),
            spec_find_tag(all, tag@) == spec_find_tag(all.skip(i as int), tag@),
        decreases nodes@.len() - i,
    {
        proof {
            assert(all.skip(i as int)[0] == all[i as int]);
            assert(all[i as int] == nodes@[i as int].deep_view());
        }
        if str_eq(nodes[i].name.as_str(), tag) {
            return Some(&nodes[i]);
        }
        proof {
            assert(all.skip(i as int).drop_first() =~= all.skip(i as int + 1));
        }
        i = i + 1;
    }
    proof {
        assert(all.skip(nodes@.len() as int) =~= Seq::<(Seq<char>, Option<Seq<char>>)>::empty());
    }
    None
}

/// Locates the title and content text of a flattened fragment, or reports
/// why the fragment must be dropped.
pub fn extract_title_content(nodes: &Vec<XmlNode>) -> (r: Result<(String, String), ExtractError>)
    ensures
        match r {
            Ok(tc) => spec_extract_page(nodes.deep_view()) == Ok::<
                (Seq<char>, Seq<char>),
                ExtractError,
            >((tc.0@, tc.1@)),
            Err(e) => spec_extract_page(nodes.deep_view()) == Err::<
                (Seq<char>, Seq<char>),
                ExtractError,
            >(e),
        },
{
    let title_node = match find_tag(nodes, "title") {
        None => {
            return Err(ExtractError::NoTitleNode);
        },
        Some(n) => n,
    };
    let title = match &title_node.text {
        None => {
            return Err(ExtractError::NoTitleText);
        },
        Some(t) => t,
    };
    if title.as_str().unicode_len() == 0 {
        return Err(ExtractError::NoTitleText);
    }
    let content_node = match find_tag(nodes, "text") {
        None => {
            return Err(ExtractError::NoContentNode);
        },
        Some(n) => n,
    };
    let content = match &content_node.text {
        None => {
            return Err(ExtractError::NoContentText);
        },
        Some(c) => c,
    };
    Ok((title.clone(), content.clone()))
}

/// Parses one raw fragment and returns its title and content text, or the
/// reason the fragment is dropped.
pub fn parse_page(doc: &str) -> (r: Result<(String, String), ExtractError>)
    ensures
        match r {
            Ok(tc) => spec_parse_page(doc@) == Ok::<(Seq<char>, Seq<char>), ExtractError>(
                (tc.0@, tc.1@),
            ),
            Err(e) => spec_parse_page(doc@) == Err::<(Seq<char>, Seq<char>), ExtractError>(e),
        },
{
    match xml_nodes(doc) {
        None => Err(ExtractError::NotXml),
        Some(nodes) => extract_title_content(&nodes),
    }
}

/// Parses one raw fragment into a record: the title and the link targets of
/// the content text, in first-occurrence order. A fragment that is not well
/// formed, or misses the title or content node or their text, is reported as
/// an error and yields no record.
pub fn parse_record(doc: &str) -> (r: Result<PageInfo, ExtractError>)
    ensures
        match r {
            Ok(p) => spec_parse_record(doc@) == Ok::<PageData, ExtractError>(p@),
            Err(e) => spec_parse_record(doc@) == Err::<PageData, ExtractError>(e),
        },
{
    match parse_page(doc) {
        Err(e) => Err(e),
        Ok((title, content)) => {
            let links = extract_links(content.as_str());
            let rec = PageInfo::new(title.as_str(), links);
            proof {
                assert(rec@ =~= PageData {
                    title: title@,
                    links: spec_extract_links(content@),
                });
            }
            Ok(rec)
        },
    }
}

} // verus!
