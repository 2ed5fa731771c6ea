//! Placed musical regions on a track.

use vstd::prelude::*;

use crate::num::{check_decimal, is_decimal};
use crate::parse::{get_attribute_value, sp_attribute_value, strs_view, ErrView, ParseError};
use crate::xml::{find_first_desc, first_desc, wf_doc, NodeView, XmlDoc};

verus! {

/// The mandatory loop span of a clip.  Both bounds are decimal time text
/// as the document carries it.
#[derive(Debug, Clone, PartialEq)]
pub struct Loop {
    pub start: String,
    pub end: String,
}

/// Mathematical image of a [`Loop`].
pub struct LoopView {
    pub start: Seq<char>,
    pub end: Seq<char>,
}

impl View for Loop {
    type V = LoopView;

    open spec fn view(&self) -> LoopView {
        LoopView { start: self.start@, end: self.end@ }
    }
}

/// A placed musical region.  `start` and `end` hold the clip's decimal
/// time text, or the sentinel text `-1` where the attribute is absent or
/// not a number.
#[derive(Debug, Clone, PartialEq)]
pub struct Clip {
    pub name: String,
    pub start: String,
    pub end: String,
    pub loop_span: Option<Loop>,
}

/// Mathematical image of a [`Clip`].
pub struct ClipView {
    pub name: Seq<char>,
    pub start: Seq<char>,
    pub end: Seq<char>,
    pub loop_span: Option<LoopView>,
}

impl View for Clip {
    type V = ClipView;

    open spec fn view(&self) -> ClipView {
        ClipView {
            name: self.name@,
            start: self.start@,
            end: self.end@,
            loop_span: match self.loop_span {
                Some(ref l) => Some(l@),
                None => None,
            },
        }
    }
}

/// A clip's positional bound: the value the chained lookup finds under
/// `tag`, or the sentinel text `-1` where the lookup fails or the value is
/// not decimal.  This is the tolerant path.
pub open spec fn sp_bound(d: Seq<NodeView>, i: int, tag: Seq<char>) -> Seq<char> {
    match sp_attribute_value(d, i, seq![tag]) {
        Ok(v) => if is_decimal(v) {
            v
        } else {
            "-1"@
        },
        Err(_) => "-1"@,
    }
}

/// How a clip element parses: the name resolves through the chained
/// lookup, the positional bounds fall back to the sentinel, and the `Loop`
/// child with decimal `LoopStart` and `LoopEnd` is mandatory — its absence
/// fails the file.  This is the intolerant path.
pub open spec fn sp_parse_clip(d: Seq<NodeView>, i: int) -> Result<ClipView, ErrView> {
    match sp_attribute_value(d, i, seq!["Name"@]) {
        Err(e) => Err(e),
        Ok(name) => {
            let start = sp_bound(d, i, "CurrentStart"@);
            let end = sp_bound(d, i, "CurrentEnd"@);
            match first_desc(d, i, "Loop"@) {
                None => Err(ErrView::MissingTag(seq!["Loop"@])),
                Some(l) => match sp_attribute_value(d, l, seq!["LoopStart"@]) {
                    Err(e) => Err(e),
                    Ok(ls) => if !is_decimal(ls) {
                        Err(ErrView::BadNumber(seq!["LoopStart"@]))
                    } else {
                        match sp_attribute_value(d, l, seq!["LoopEnd"@]) {
                            Err(e) => Err(e),
                            Ok(le) => if !is_decimal(le) {
                                Err(ErrView::BadNumber(seq!["LoopEnd"@]))
                            } else {
                                Ok(
                                    ClipView {
                                        name,
                                        start,
                                        end,
                                        loop_span: Some(LoopView { start: ls, end: le }),
                                    },
                                )
                            },
                        }
                    },
                },
            }
        },
    }
}

/// Reads one positional bound with sentinel fallback; mirrors
/// [`sp_bound`].
fn parse_bound(doc: &XmlDoc, i: usize, tag: &str) -> (r: String)
    requires
        wf_doc(doc@),
        i < doc@.len(),
    ensures
        r@ == sp_bound(doc@, i as int, tag@),
{
    let tags = vec![String::from_str(tag)];
    proof {
        assert(strs_view(tags@) =~= seq![tag@]);
    }
    match get_attribute_value(doc, i, &tags) {
        Ok(v) => {
            if check_decimal(v.as_str()) {
                v
            } else {
                String::from_str("-1")
            }
        },
        Err(_) => String::from_str("-1"),
    }
}

impl Clip {
    /// Parses the clip element at index `i`; mirrors [`sp_parse_clip`].
    pub fn parse(doc: &XmlDoc, i: usize) -> (r: Result<Clip, ParseError>)
        requires
            wf_doc(doc@),
            i < doc@.len(),
        ensures
            ({
                let sp = sp_parse_clip(doc@, i as int);
                match r {
                    Ok(c) => sp == Ok::<_, ErrView>(c@),
                    Err(e) => sp == Err::<ClipView, ErrView>(e@),
                }
            }),
    {
        let name_tags = vec![String::from_str("Name")];
        proof {
            assert(strs_view(name_tags@) =~= seq!["Name"@]);
        }
        let name = match get_attribute_value(doc, i, &name_tags) {
            Ok(v) => v,
            Err(e) => {
                return Err(e);
            },
        };
        let start = parse_bound(doc, i, "CurrentStart");
        let end = parse_bound(doc, i, "CurrentEnd");
        let l = match find_first_desc(doc, i, "Loop") {
            Some(l) => l,
            None => {
                let path = vec![String::from_str("Loop")];
                proof {
                    assert(strs_view(path@) =~= seq!["Loop"@]);
                }
                return Err(ParseError::MissingTag { path });
            },
        };
        let ls_tags = vec![String::from_str("LoopStart")];
        proof {
            assert(strs_view(ls_tags@) =~= seq!["LoopStart"@]);
        }
        let ls = match get_attribute_value(doc, l, &ls_tags) {
            Ok(v) => v,
            Err(e) => {
                return Err(e);
            },
        };
        if !check_decimal(ls.as_str()) {
            let path = vec![String::from_str("LoopStart")];
            proof {
                assert(strs_view(path@) =~= seq!["LoopStart"@]);
            }
            return Err(ParseError::BadNumber { path });
        }
        let le_tags = vec![String::from_str("LoopEnd")];
        proof {
            assert(strs_view(le_tags@) =~= seq!["LoopEnd"@]);
        }
        let le = match get_attribute_value(doc, l, &le_tags) {
            Ok(v) => v,
            Err(e) => {
                return Err(e);
            },
        };
        if !check_decimal(le.as_str()) {
            let path = vec![String::from_str("LoopEnd")];
            proof {
                assert(strs_view(path@) =~= seq!["LoopEnd"@]);
            }
            return Err(ParseError::BadNumber { path });
        }
        Ok(Clip { name, start, end, loop_span: Some(Loop { start: ls, end: le }) })
    }
}

} // verus!
