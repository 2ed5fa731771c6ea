//! Element tree of a decompressed container document.
//!
//! The tree is held as an arena in document order: element `0` is the root
//! element and every other element names a parent with a smaller index, so
//! the index order is exactly the order in which the elements' opening tags
//! appear in the text.  All tree logic — descendant tests, first-match
//! lookups, attribute reads — is verified against this arena; only the step
//! from raw text to arena is entrusted to the XML crate.

use vstd::prelude::*;

use std::collections::HashMap;

use crate::text::str_eq;

verus! {

/// One attribute of an element.
pub struct XmlAttr {
    pub name: String,
    pub value: String,
}

/// Mathematical image of an attribute.
pub struct AttrView {
    pub name: Seq<char>,
    pub value: Seq<char>,
}

impl View for XmlAttr {
    type V = AttrView;

    open spec fn view(&self) -> AttrView {
        AttrView { name: self.name@, value: self.value@ }
    }
}

/// One element: its tag, its attributes in document order, and the index of
/// its parent element (`None` only for the root element).
pub struct XmlNode {
    pub tag: String,
    pub attrs: Vec<XmlAttr>,
    pub parent: Option<usize>,
}

/// Mathematical image of an element.
pub struct NodeView {
    pub tag: Seq<char>,
    pub attrs: Seq<AttrView>,
    pub parent: Option<int>,
}

impl View for XmlNode {
    type V = NodeView;

    open spec fn view(&self) -> NodeView {
        NodeView {
            tag: self.tag@,
            attrs: self.attrs@.map_values(|a: XmlAttr| a@),
            parent: match self.parent {
                Some(p) => Some(p as int),
                None => None,
            },
        }
    }
}

/// The element arena of one document.
pub struct XmlDoc {
    pub nodes: Vec<XmlNode>,
}

impl View for XmlDoc {
    type V = Seq<NodeView>;

    open spec fn view(&self) -> Seq<NodeView> {
        self.nodes@.map_values(|n: XmlNode| n@)
    }
}

/// Element `j` names a parent that stands earlier in document order.
pub open spec fn parent_ok(d: Seq<NodeView>, j: int) -> bool {
    d[j].parent matches Some(p) && 0 <= p < j
}

/// A well-shaped arena: there is a root element, it alone has no parent,
/// and every parent stands earlier in document order than its child.
pub open spec fn wf_doc(d: Seq<NodeView>) -> bool {
    &&& d.len() >= 1
    &&& d[0].parent is None
    &&& forall|j: int| 1 <= j < d.len() ==> #[trigger] parent_ok(d, j)
}

/// Checks an arena for the shape that [`wf_doc`] describes.
pub fn check_wf(doc: &XmlDoc) -> (r: bool)
    ensures
        r == wf_doc(doc@),
{
    let n = doc.nodes.len();
    if n == 0 {
        return false;
    }
    if doc.nodes[0].parent.is_some() {
        return false;
    }
    let mut j: usize = 1;
    while j < n
        invariant
            1 <= j <= n,
            n == doc@.len(),
            doc@.len() == doc.nodes@.len(),
            doc@[0].parent is None,
            forall|k: int| 1 <= k < j ==> #[trigger] parent_ok(doc@, k),
        ensures
            1 <= j <= n,
            n == doc@.len(),
            j < n ==> !parent_ok(doc@, j as int),
            j == n ==> forall|k: int| 1 <= k < j ==> #[trigger] parent_ok(doc@, k),
        decreases n - j,
    {
        proof {
            assert(doc@[j as int] == doc.nodes@[j as int]@);
        }
        let ok = match doc.nodes[j].parent {
            Some(p) => p < j,
            None => false,
        };
        if !ok {
            break;
        }
        j = j + 1;
    }
    j == n
}

/// `j` lies in the subtree of `i`: either it is `i` itself or its parent
/// chain passes through `i`.
pub open spec fn is_desc_or_self(d: Seq<NodeView>, i: int, j: int) -> bool
    decreases j,
{
    if i == j {
        true
    } else if 0 < j < d.len() {
        match d[j].parent {
            Some(p) => if 0 <= p < j {
                is_desc_or_self(d, i, p)
            } else {
                false
            },
            None => false,
        }
    } else {
        false
    }
}

/// In a well-shaped arena a subtree lies wholly at or after its root.
pub proof fn lemma_desc_ge(d: Seq<NodeView>, i: int, j: int)
    requires
        is_desc_or_self(d, i, j),
    ensures
        j >= i,
    decreases j,
{
    if i != j && 0 < j < d.len() {
        match d[j].parent {
            Some(p) => {
                if 0 <= p < j {
                    lemma_desc_ge(d, i, p);
                }
            },
            None => {},
        }
    }
}

/// Walks the parent chain of `j` looking for `i`.
pub fn is_descendant(doc: &XmlDoc, i: usize, j: usize) -> (r: bool)
    requires
        wf_doc(doc@),
        i < doc@.len(),
        j < doc@.len(),
    ensures
        r == is_desc_or_self(doc@, i as int, j as int),
{
    let mut k: usize = j;
    loop
        invariant
            k < doc@.len(),
            doc@.len() == doc.nodes@.len(),
            wf_doc(doc@),
            i < doc@.len(),
            is_desc_or_self(doc@, i as int, j as int) == is_desc_or_self(
                doc@,
                i as int,
                k as int,
            ),
        ensures
            is_desc_or_self(doc@, i as int, j as int) == is_desc_or_self(
                doc@,
                i as int,
                k as int,
            ),
            k == i || (k == 0 || doc@[k as int].parent is None),
        decreases k,
    {
        if k == i {
            break;
        }
        match doc.nodes[k].parent {
            Some(p) => {
                proof {
                    assert(doc@[k as int] == doc.nodes@[k as int]@);
                    assert(doc@[k as int].parent == Some(p as int));
                    if k == 0 {
                        assert(doc@[0].parent is None);
                    } else {
                        assert(parent_ok(doc@, k as int));
                    }
                    assert(is_desc_or_self(doc@, i as int, k as int) == is_desc_or_self(
                        doc@,
                        i as int,
                        p as int,
                    ));
                }
                k = p;
            },
            None => {
                proof {
                    assert(doc@[k as int].parent is None);
                }
                break;
            },
        }
    }
    k == i
}

/// The first element of the subtree of `i`, scanning document order from
/// `j` on, whose tag is `tag`.
pub open spec fn first_desc_from(d: Seq<NodeView>, i: int, tag: Seq<char>, j: int) -> Option<int>
    decreases d.len() - j,
{
    if 0 <= j && j < d.len() {
        if is_desc_or_self(d, i, j) && d[j].tag == tag {
            Some(j)
        } else {
            first_desc_from(d, i, tag, j + 1)
        }
    } else {
        None
    }
}

/// The first element in the subtree of `i`, in document order and counting
/// `i` itself, whose tag is `tag`.  Subtree members never precede `i`
/// ([`lemma_desc_ge`]), so the scan starts there;
/// [`lemma_first_desc_complete`] shows that scanning the whole arena finds
/// the same element.
pub open spec fn first_desc(d: Seq<NodeView>, i: int, tag: Seq<char>) -> Option<int> {
    first_desc_from(d, i, tag, i)
}

/// Starting the scan at the subtree root misses nothing: a scan of the
/// whole arena finds the same first match.
pub proof fn lemma_first_desc_complete(d: Seq<NodeView>, i: int, tag: Seq<char>, k: int)
    requires
        0 <= k <= i,
    ensures
        first_desc_from(d, i, tag, k) == first_desc(d, i, tag),
    decreases i - k,
{
    if k < i {
        if 0 <= k && k < d.len() {
            if is_desc_or_self(d, i, k) {
                lemma_desc_ge(d, i, k);
            }
            lemma_first_desc_complete(d, i, tag, k + 1);
        } else {
            assert(k >= d.len());
            assert(i > d.len());
            assert(first_desc_from(d, i, tag, i) is None);
        }
    }
}

/// Finds the first element of the subtree of `i` tagged `tag`; mirrors
/// [`first_desc`].
pub fn find_first_desc(doc: &XmlDoc, i: usize, tag: &str) -> (r: Option<usize>)
    requires
        wf_doc(doc@),
        i < doc@.len(),
    ensures
        match r {
            Some(j) => first_desc(doc@, i as int, tag@) == Some(j as int) && j < doc@.len(),
            None => first_desc(doc@, i as int, tag@) is None,
        },
{
    let n = doc.nodes.len();
    let mut j: usize = i;
    while j < n
        invariant
            i <= j,
            n == doc@.len(),
            doc@.len() == doc.nodes@.len(),
            wf_doc(doc@),
            i < doc@.len(),
            first_desc(doc@, i as int, tag@) == first_desc_from(doc@, i as int, tag@, j as int),
        ensures
            first_desc(doc@, i as int, tag@) == first_desc_from(doc@, i as int, tag@, j as int),
            j < n ==> is_desc_or_self(doc@, i as int, j as int) && doc@[j as int].tag == tag@,
            j >= n ==> first_desc_from(doc@, i as int, tag@, j as int) is None,
        decreases n - j,
    {
        let here = is_descendant(doc, i, j) && str_eq(doc.nodes[j].tag.as_str(), tag);
        if here {
            break;
        }
        j = j + 1;
    }
    if j < n {
        Some(j)
    } else {
        None
    }
}

/// The value of the first attribute named `name`, scanning from `k`.
pub open spec fn attr_from(attrs: Seq<AttrView>, name: Seq<char>, k: int) -> Option<Seq<char>>
    decreases attrs.len() - k,
{
    if 0 <= k && k < attrs.len() {
        if attrs[k].name == name {
            Some(attrs[k].value)
        } else {
            attr_from(attrs, name, k + 1)
        }
    } else {
        None
    }
}

/// The value of the attribute named `name` on element `n`, if present.
pub open spec fn attr_value(n: NodeView, name: Seq<char>) -> Option<Seq<char>> {
    attr_from(n.attrs, name, 0)
}

/// Reads the attribute named `name` off element `i`; mirrors
/// [`attr_value`].
pub fn get_attr(doc: &XmlDoc, i: usize, name: &str) -> (r: Option<String>)
    requires
        i < doc@.len(),
    ensures
        match r {
            Some(v) => attr_value(doc@[i as int], name@) == Some(v@),
            None => attr_value(doc@[i as int], name@) is None,
        },
{
    let node = &doc.nodes[i];
    let n = node.attrs.len();
    proof {
        assert(doc@[i as int] == doc.nodes@[i as int]@);
    }
    let mut k: usize = 0;
    while k < n
        invariant
            k <= n,
            n == node.attrs@.len(),
            i < doc@.len(),
            doc@[i as int] == node@,
            attr_value(node@, name@) == attr_from(node@.attrs, name@, k as int),
        ensures
            k <= n,
            attr_value(node@, name@) == attr_from(node@.attrs, name@, k as int),
            k < n ==> node@.attrs[k as int].name == name@,
            k >= n ==> attr_from(node@.attrs, name@, k as int) is None,
        decreases n - k,
    {
        proof {
            assert(node@.attrs[k as int] == node.attrs@[k as int]@);
        }
        if str_eq(node.attrs[k].name.as_str(), name) {
            break;
        }
        k = k + 1;
    }
    if k < n {
        let v = node.attrs[k].value.clone();
        proof {
            assert(node@.attrs[k as int] == node.attrs@[k as int]@);
        }
        Some(v)
    } else {
        None
    }
}

/// The indices below `n` that satisfy `p`, in increasing (document) order.
pub open spec fn idx_where_upto(
    d: Seq<NodeView>,
    p: spec_fn(Seq<NodeView>, int) -> bool,
    n: int,
) -> Seq<int>
    decreases n,
{
    if n <= 0 {
        seq![]
    } else {
        idx_where_upto(d, p, n - 1) + (if p(d, n - 1) {
            seq![n - 1]
        } else {
            seq![]
        })
    }
}

/// The indices of the whole arena that satisfy `p`, in document order.
pub open spec fn idx_where(d: Seq<NodeView>, p: spec_fn(Seq<NodeView>, int) -> bool) -> Seq<int> {
    idx_where_upto(d, p, d.len() as int)
}

/// Collected indices lie in range and increase strictly, so they list the
/// matching elements in document order.
pub proof fn lemma_idx_where_upto_sorted(
    d: Seq<NodeView>,
    p: spec_fn(Seq<NodeView>, int) -> bool,
    n: int,
)
    requires
        n <= d.len(),
    ensures
        forall|a: int|
            0 <= a < idx_where_upto(d, p, n).len() ==> 0 <= #[trigger] idx_where_upto(d, p, n)[a]
                < n,
        forall|a: int, b: int|
            0 <= a < b < idx_where_upto(d, p, n).len() ==> idx_where_upto(d, p, n)[a]
                < idx_where_upto(d, p, n)[b],
    decreases n,
{
    if n > 0 {
        lemma_idx_where_upto_sorted(d, p, n - 1);
        let prev = idx_where_upto(d, p, n - 1);
        let curr = idx_where_upto(d, p, n);
        if p(d, n - 1) {
            assert(curr =~= prev + seq![n - 1]);
            assert forall|a: int| 0 <= a < curr.len() implies 0 <= #[trigger] curr[a] < n by {
                if a < prev.len() {
                    assert(curr[a] == prev[a]);
                } else {
                    assert(curr[a] == n - 1);
                }
            }
            assert forall|a: int, b: int| 0 <= a < b < curr.len() implies #[trigger] curr[a] < #[trigger] curr[b] by {
                if b < prev.len() {
                    assert(curr[a] == prev[a]);
                    assert(curr[b] == prev[b]);
                } else {
                    assert(curr[b] == n - 1);
                    assert(curr[a] == prev[a]);
                    assert(prev[a] < n - 1);
                }
            }
        } else {
            assert(curr =~= prev);
        }
    }
}

/// What the XML crate turned a given text into: `None` where the text is
/// not a well-formed document, otherwise the element arena in document
/// order.
pub uninterp spec fn xml_doc_of(text: Seq<char>) -> Option<Seq<NodeView>>;

/// Relies on roxmltree::Document::parse: whether a text parses, and the
/// element tree it parses to (tags, attributes and parent links, elements
/// in document order), depend on the text alone.
#[verifier::external_body]
pub(crate) fn parse_xml_tree(text: &str) -> (r: Option<XmlDoc>)
    ensures
        r is Some <==> xml_doc_of(text@) is Some,
        r matches Some(d) ==> d@ == xml_doc_of(text@).unwrap(),
{
    let doc = roxmltree::Document::parse(text).ok()?;
    let mut ids = HashMap::new();
    let mut nodes: Vec<XmlNode> = Vec::new();
    for n in doc.descendants().filter(|n| n.is_element()) {
        ids.insert(n.id(), nodes.len());
        nodes.push(XmlNode {
            tag: n.tag_name().name().to_string(),
            attrs: n.attributes().map(|a| XmlAttr { name: a.name().into(), value: a.value().into() }).collect(),
            parent: n.ancestors().skip(1).find(|a| a.is_element()).map(|a| ids[&a.id()]),
        });
    }
    Some(XmlDoc { nodes })
}

} // verus!
