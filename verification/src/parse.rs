//! Parsing of decompressed container documents into the track/clip model.
//!
//! The display name of a track, group or clip is resolved through a chained
//! descendant lookup: for each tag in an ordered list the walk descends to
//! the first matching element of the current subtree, and a fixed `Value`
//! attribute is read off the final element.  A missing link or a missing
//! attribute is a typed error carrying the failing tag path, so one
//! malformed element degrades one file's parse instead of the whole run.

use vstd::prelude::*;

use crate::xml::{attr_value, first_desc, get_attr, find_first_desc, wf_doc, NodeView, XmlDoc};

pub mod als;
pub mod clip;
pub mod group;
pub mod track;

verus! {

/// The views of a list of strings.
pub open spec fn strs_view(v: Seq<String>) -> Seq<Seq<char>> {
    v.map_values(|s: String| s@)
}

/// Why a file's parse failed.
#[derive(Debug, Clone, PartialEq)]
pub enum ParseError {
    /// The decompressed text is not a well-formed document.
    NotXml,
    /// A chained descendant lookup found no element for the last tag of
    /// `path`.
    MissingTag { path: Vec<String> },
    /// The element reached by the lookup lacks the attribute named by the
    /// last entry of `path`.
    MissingAttr { path: Vec<String> },
    /// A mandatory numeric attribute, named by the last entry of `path`,
    /// does not parse as a number.
    BadNumber { path: Vec<String> },
}

/// Mathematical image of a parse failure.
pub enum ErrView {
    NotXml,
    MissingTag(Seq<Seq<char>>),
    MissingAttr(Seq<Seq<char>>),
    BadNumber(Seq<Seq<char>>),
}

impl View for ParseError {
    type V = ErrView;

    open spec fn view(&self) -> ErrView {
        match self {
            ParseError::NotXml => ErrView::NotXml,
            ParseError::MissingTag { path } => ErrView::MissingTag(strs_view(path@)),
            ParseError::MissingAttr { path } => ErrView::MissingAttr(strs_view(path@)),
            ParseError::BadNumber { path } => ErrView::BadNumber(strs_view(path@)),
        }
    }
}

/// The message text of a parse failure.
pub open spec fn sp_err_msg(e: ErrView) -> Seq<char> {
    match e {
        ErrView::NotXml => "not a well-formed document"@,
        ErrView::MissingTag(path) => "missing tag "@ + crate::text::sp_join(path, "/"@),
        ErrView::MissingAttr(path) => "missing attribute "@ + crate::text::sp_join(path, "/"@),
        ErrView::BadNumber(path) => "bad number at "@ + crate::text::sp_join(path, "/"@),
    }
}

impl ParseError {
    /// The failure as a line of text naming the failing tag path; mirrors
    /// [`sp_err_msg`].
    pub fn message(&self) -> (r: String)
        ensures
            r@ == sp_err_msg(self@),
    {
        match self {
            ParseError::NotXml => String::from_str("not a well-formed document"),
            ParseError::MissingTag { path } => {
                let mut m = String::from_str("missing tag ");
                m.append(crate::text::join(path, "/").as_str());
                m
            },
            ParseError::MissingAttr { path } => {
                let mut m = String::from_str("missing attribute ");
                m.append(crate::text::join(path, "/").as_str());
                m
            },
            ParseError::BadNumber { path } => {
                let mut m = String::from_str("bad number at ");
                m.append(crate::text::join(path, "/").as_str());
                m
            },
        }
    }
}

/// Walks the tag chain `tags` from element `i` on, descending to the first
/// matching element each time; yields the final element's index, or the
/// position in `tags` of the link that found no element.
pub open spec fn sp_chain(d: Seq<NodeView>, i: int, tags: Seq<Seq<char>>, k: int) -> Result<
    int,
    int,
>
    decreases tags.len() - k,
{
    if 0 <= k && k < tags.len() {
        match first_desc(d, i, tags[k]) {
            None => Err(k),
            Some(j) => sp_chain(d, j, tags, k + 1),
        }
    } else {
        Ok(i)
    }
}

/// The chained descendant lookup: walk `tags` from element `i`, then read
/// the `Value` attribute off the final element.
pub open spec fn sp_attribute_value(d: Seq<NodeView>, i: int, tags: Seq<Seq<char>>) -> Result<
    Seq<char>,
    ErrView,
> {
    match sp_chain(d, i, tags, 0) {
        Err(k) => Err(ErrView::MissingTag(tags.subrange(0, k + 1))),
        Ok(j) => match attr_value(d[j], "Value"@) {
            Some(v) => Ok(v),
            None => Err(ErrView::MissingAttr(tags.push("Value"@))),
        },
    }
}

/// How a decompressed document parses to its track list alone: a text the
/// XML crate rejects fails as not-XML; otherwise the tracks parse in
/// document order.
pub open spec fn sp_parse_als_tracks(text: Seq<char>) -> Result<
    Seq<crate::parse::track::TrackView>,
    ErrView,
> {
    match crate::xml::xml_doc_of(text) {
        None => Err(ErrView::NotXml),
        Some(d) => if !wf_doc(d) {
            Err(ErrView::NotXml)
        } else {
            crate::parse::als::sp_parse_tracks(d, crate::parse::als::track_idxs(d))
        },
    }
}

/// Parses a decompressed container document to its track list, in document
/// order; mirrors [`sp_parse_als_tracks`].
pub fn parse_als(xml_contents: String) -> (r: Result<Vec<crate::parse::track::Track>, ParseError>)
    ensures
        ({
            let sp = sp_parse_als_tracks(xml_contents@);
            match r {
                Ok(v) => sp == Ok::<_, ErrView>(
                    v@.map_values(|t: crate::parse::track::Track| t@),
                ),
                Err(e) => sp == Err::<Seq<crate::parse::track::TrackView>, ErrView>(e@),
            }
        }),
{
    let doc = match crate::xml::parse_xml_tree(xml_contents.as_str()) {
        Some(d) => d,
        None => {
            return Err(ParseError::NotXml);
        },
    };
    if !crate::xml::check_wf(&doc) {
        return Err(ParseError::NotXml);
    }
    let tidxs = crate::parse::als::collect_track_idxs(&doc);
    proof {
        crate::xml::lemma_idx_where_upto_sorted(
            doc@,
            crate::parse::als::track_pred(),
            doc@.len() as int,
        );
        assert(forall|a: int|
            0 <= a < tidxs@.len() ==> #[trigger] tidxs@[a] as int == crate::parse::track::idxs_view(
                tidxs@,
            )[a]);
    }
    crate::parse::als::parse_tracks(&doc, &tidxs)
}

/// Clones the first `k` entries of `tags`.
fn clone_prefix(tags: &Vec<String>, k: usize) -> (r: Vec<String>)
    requires
        k <= tags@.len(),
    ensures
        strs_view(r@) == strs_view(tags@).subrange(0, k as int),
{
    let mut r: Vec<String> = Vec::new();
    let mut t: usize = 0;
    while t < k
        invariant
            t <= k <= tags@.len(),
            r@.len() == t,
            forall|a: int| 0 <= a < t ==> (#[trigger] r@[a])@ == tags@[a]@,
        decreases k - t,
    {
        r.push(tags[t].clone());
        t = t + 1;
    }
    proof {
        assert(strs_view(r@) =~= strs_view(tags@).subrange(0, k as int));
    }
    r
}

/// Resolves a chained descendant lookup and reads the final `Value`
/// attribute; mirrors [`sp_attribute_value`].
pub fn get_attribute_value(doc: &XmlDoc, i: usize, tags: &Vec<String>) -> (r: Result<
    String,
    ParseError,
>)
    requires
        wf_doc(doc@),
        i < doc@.len(),
    ensures
        ({
            let sp = sp_attribute_value(doc@, i as int, strs_view(tags@));
            match r {
                Ok(v) => sp == Ok::<_, ErrView>(v@),
                Err(e) => sp == Err::<Seq<char>, ErrView>(e@),
            }
        }),
{
    let ghost tv = strs_view(tags@);
    let n = tags.len();
    let mut cur: usize = i;
    let mut k: usize = 0;
    while k < n
        invariant
            k <= n,
            n == tags@.len(),
            tv == strs_view(tags@),
            wf_doc(doc@),
            i < doc@.len(),
            cur < doc@.len(),
            sp_chain(doc@, i as int, tv, 0) == sp_chain(doc@, cur as int, tv, k as int),
        ensures
            k <= n,
            n == tags@.len(),
            cur < doc@.len(),
            k == n ==> sp_chain(doc@, i as int, tv, 0) == Ok::<int, int>(cur as int),
            k < n ==> sp_chain(doc@, i as int, tv, 0) == Err::<int, int>(k as int),
        decreases n - k,
    {
        proof {
            assert(tv[k as int] == tags@[k as int]@);
        }
        match find_first_desc(doc, cur, tags[k].as_str()) {
            Some(j) => {
                cur = j;
                k = k + 1;
            },
            None => {
                break;
            },
        }
    }
    if k < n {
        let path = clone_prefix(tags, k + 1);
        proof {
            assert(strs_view(path@) == tv.subrange(0, k + 1));
        }
        return Err(ParseError::MissingTag { path });
    }
    match get_attr(doc, cur, "Value") {
        Some(v) => Ok(v),
        None => {
            let mut path = clone_prefix(tags, n);
            path.push(String::from_str("Value"));
            proof {
                assert(strs_view(tags@).subrange(0, n as int) =~= tv);
                assert(strs_view(path@) =~= tv.push("Value"@));
            }
            Err(ParseError::MissingAttr { path })
        },
    }
}

} // verus!
