//! Organizational track groupings.

use vstd::prelude::*;

use crate::num::{parse_u32_text, sp_parse_u32_text};
use crate::parse::{sp_attribute_value, get_attribute_value, ErrView, ParseError};
use crate::xml::{attr_value, get_attr, wf_doc, NodeView, XmlDoc};

verus! {

/// An organizational track grouping declared in the source document.
#[derive(Debug, Clone, PartialEq)]
pub struct Group {
    pub id: u32,
    pub name: String,
    pub color: Option<u32>,
}

/// Mathematical image of a [`Group`].
pub struct GroupView {
    pub id: u32,
    pub name: Seq<char>,
    pub color: Option<u32>,
}

impl View for Group {
    type V = GroupView;

    open spec fn view(&self) -> GroupView {
        GroupView { id: self.id, name: self.name@, color: self.color }
    }
}

/// How a `GroupTrack` element parses: its `Id` attribute must be a number,
/// its display name resolves through the chained lookup, and its color is
/// left unset at this layer.
pub open spec fn sp_parse_group(d: Seq<NodeView>, i: int) -> Result<GroupView, ErrView> {
    match attr_value(d[i], "Id"@) {
        None => Err(ErrView::MissingAttr(seq!["Id"@])),
        Some(t) => match sp_parse_u32_text(t) {
            None => Err(ErrView::BadNumber(seq!["Id"@])),
            Some(id) => match sp_attribute_value(d, i, seq!["Name"@, "EffectiveName"@]) {
                Err(e) => Err(e),
                Ok(name) => Ok(GroupView { id, name, color: None }),
            },
        },
    }
}

impl Group {
    /// Parses the `GroupTrack` element at index `i`; mirrors
    /// [`sp_parse_group`].
    pub fn parse(doc: &XmlDoc, i: usize) -> (r: Result<Group, ParseError>)
        requires
            wf_doc(doc@),
            i < doc@.len(),
        ensures
            ({
                let sp = sp_parse_group(doc@, i as int);
                match r {
                    Ok(g) => sp == Ok::<_, ErrView>(g@),
                    Err(e) => sp == Err::<GroupView, ErrView>(e@),
                }
            }),
    {
        let id_text = match get_attr(doc, i, "Id") {
            Some(t) => t,
            None => {
                let path = vec![String::from_str("Id")];
                proof {
                    assert(crate::parse::strs_view(path@) =~= seq!["Id"@]);
                }
                return Err(ParseError::MissingAttr { path });
            },
        };
        let id = match parse_u32_text(id_text.as_str()) {
            Some(v) => v,
            None => {
                let path = vec![String::from_str("Id")];
                proof {
                    assert(crate::parse::strs_view(path@) =~= seq!["Id"@]);
                }
                return Err(ParseError::BadNumber { path });
            },
        };
        let tags = vec![String::from_str("Name"), String::from_str("EffectiveName")];
        proof {
            assert(crate::parse::strs_view(tags@) =~= seq!["Name"@, "EffectiveName"@]);
        }
        let name = match get_attribute_value(doc, i, &tags) {
            Ok(v) => v,
            Err(e) => {
                return Err(e);
            },
        };
        Ok(Group { id, name, color: None })
    }
}

} // verus!
