//! MIDI, audio and return lanes.

use vstd::prelude::*;

use crate::num::{parse_i32_text, sp_parse_i32_text};
use crate::parse::clip::{sp_parse_clip, Clip, ClipView};
use crate::parse::{get_attribute_value, sp_attribute_value, strs_view, ErrView, ParseError};
use crate::text::str_eq;
use crate::xml::{idx_where, idx_where_upto, is_desc_or_self, is_descendant, lemma_idx_where_upto_sorted, wf_doc, NodeView, XmlDoc};

verus! {

/// A MIDI, audio or return lane.  `group_id` is `-1` where the track is
/// ungrouped, and `color` is left unset at this layer.
#[derive(Debug, Clone, PartialEq)]
pub struct Track {
    pub group_id: i32,
    pub name: String,
    pub color: Option<u32>,
    pub clips: Vec<Clip>,
}

/// Mathematical image of a [`Track`].
pub struct TrackView {
    pub group_id: i32,
    pub name: Seq<char>,
    pub color: Option<u32>,
    pub clips: Seq<ClipView>,
}

impl View for Track {
    type V = TrackView;

    open spec fn view(&self) -> TrackView {
        TrackView {
            group_id: self.group_id,
            name: self.name@,
            color: self.color,
            clips: self.clips@.map_values(|c: Clip| c@),
        }
    }
}

/// The tags that mark a clip element.
pub open spec fn is_clip_tag(tag: Seq<char>) -> bool {
    tag == "MidiClip"@ || tag == "AudioClip"@
}

/// Membership test for the clips of the track at `t`.
pub open spec fn clip_pred(t: int) -> spec_fn(Seq<NodeView>, int) -> bool {
    |d: Seq<NodeView>, j: int| is_clip_tag(d[j].tag) && is_desc_or_self(d, t, j)
}

/// The indices of the clip elements under track `t`, in document order.
pub open spec fn clip_idxs(d: Seq<NodeView>, t: int) -> Seq<int> {
    idx_where(d, clip_pred(t))
}

/// Integer views of a list of collected indices.
pub open spec fn idxs_view(v: Seq<usize>) -> Seq<int> {
    v.map_values(|u: usize| u as int)
}

/// Collects the clip elements under track `t` in document order; mirrors
/// [`clip_idxs`].
fn collect_clip_idxs(doc: &XmlDoc, t: usize) -> (r: Vec<usize>)
    requires
        wf_doc(doc@),
        t < doc@.len(),
    ensures
        idxs_view(r@) == clip_idxs(doc@, t as int),
{
    let n = doc.nodes.len();
    let ghost p = clip_pred(t as int);
    let mut r: Vec<usize> = Vec::new();
    let mut j: usize = 0;
    while j < n
        invariant
            j <= n,
            n == doc@.len(),
            doc@.len() == doc.nodes@.len(),
            wf_doc(doc@),
            t < doc@.len(),
            p == clip_pred(t as int),
            idxs_view(r@) == idx_where_upto(doc@, p, j as int),
        decreases n - j,
    {
        proof {
            assert(doc@[j as int] == doc.nodes@[j as int]@);
        }
        let tagged = str_eq(doc.nodes[j].tag.as_str(), "MidiClip") || str_eq(
            doc.nodes[j].tag.as_str(),
            "AudioClip",
        );
        let here = tagged && is_descendant(doc, t, j);
        proof {
            assert(here == p(doc@, j as int));
        }
        if here {
            r.push(j);
            proof {
                assert(idxs_view(r@) =~= idx_where_upto(doc@, p, j + 1));
            }
        } else {
            proof {
                assert(idxs_view(r@) =~= idx_where_upto(doc@, p, j + 1));
            }
        }
        j = j + 1;
    }
    r
}

/// Parses the clips at `idxs` in order; the first failure fails the list.
pub open spec fn sp_parse_clips(d: Seq<NodeView>, idxs: Seq<int>) -> Result<Seq<ClipView>, ErrView>
    decreases idxs.len(),
{
    if idxs.len() == 0 {
        Ok(seq![])
    } else {
        match sp_parse_clip(d, idxs[0]) {
            Err(e) => Err(e),
            Ok(c) => match sp_parse_clips(d, idxs.drop_first()) {
                Err(e) => Err(e),
                Ok(cs) => Ok(seq![c] + cs),
            },
        }
    }
}

/// Parses the clips at `idxs` in order; mirrors [`sp_parse_clips`].
fn parse_clips(doc: &XmlDoc, idxs: &Vec<usize>) -> (r: Result<Vec<Clip>, ParseError>)
    requires
        wf_doc(doc@),
        forall|a: int| 0 <= a < idxs@.len() ==> #[trigger] idxs@[a] < doc@.len(),
    ensures
        ({
            let sp = sp_parse_clips(doc@, idxs_view(idxs@));
            match r {
                Ok(v) => sp == Ok::<_, ErrView>(v@.map_values(|c: Clip| c@)),
                Err(e) => sp == Err::<Seq<ClipView>, ErrView>(e@),
            }
        }),
{
    let ghost iv = idxs_view(idxs@);
    let n = idxs.len();
    let mut acc: Vec<Clip> = Vec::new();
    let mut k: usize = 0;
    proof {
        assert(iv.skip(0) =~= iv);
        if let Ok(cs) = sp_parse_clips(doc@, iv) {
            assert(acc@.map_values(|c: Clip| c@) + cs =~= cs);
        }
    }
    while k < n
        invariant
            k <= n,
            n == idxs@.len(),
            iv == idxs_view(idxs@),
            wf_doc(doc@),
            forall|a: int| 0 <= a < idxs@.len() ==> #[trigger] idxs@[a] < doc@.len(),
            sp_parse_clips(doc@, iv) == match sp_parse_clips(doc@, iv.skip(k as int)) {
                Ok(cs) => Ok::<_, ErrView>(acc@.map_values(|c: Clip| c@) + cs),
                Err(e) => Err::<Seq<ClipView>, ErrView>(e),
            },
        decreases n - k,
    {
        proof {
            assert(iv.skip(k as int).len() == n - k);
            assert(iv.skip(k as int)[0] == iv[k as int]);
            assert(iv[k as int] == idxs@[k as int] as int);
        }
        match Clip::parse(doc, idxs[k]) {
            Ok(c) => {
                proof {
                    assert(iv.skip(k as int).drop_first() =~= iv.skip(k + 1));
                }
                let ghost old_accv = acc@.map_values(|c: Clip| c@);
                acc.push(c);
                proof {
                    let accv = acc@.map_values(|c: Clip| c@);
                    assert(accv =~= old_accv + seq![c@]);
                    if let Ok(cs) = sp_parse_clips(doc@, iv.skip(k + 1)) {
                        assert(old_accv + (seq![c@] + cs) =~= accv + cs);
                    }
                }
                k = k + 1;
            },
            Err(e) => {
                return Err(e);
            },
        }
    }
    proof {
        assert(iv.skip(n as int) =~= Seq::<int>::empty());
        assert(acc@.map_values(|c: Clip| c@) + Seq::<ClipView>::empty() =~= acc@.map_values(
            |c: Clip| c@,
        ));
    }
    Ok(acc)
}

/// A clip list that parses yields one clip per index, in index order.
pub proof fn lemma_parse_clips_elems(d: Seq<NodeView>, idxs: Seq<int>)
    requires
        sp_parse_clips(d, idxs) is Ok,
    ensures
        ({
            let cs = sp_parse_clips(d, idxs)->Ok_0;
            &&& cs.len() == idxs.len()
            &&& forall|k: int|
                0 <= k < idxs.len() ==> sp_parse_clip(d, #[trigger] idxs[k]) == Ok::<
                    ClipView,
                    ErrView,
                >(cs[k])
        }),
    decreases idxs.len(),
{
    if idxs.len() > 0 {
        lemma_parse_clips_elems(d, idxs.drop_first());
        let cs = sp_parse_clips(d, idxs)->Ok_0;
        let rest = sp_parse_clips(d, idxs.drop_first())->Ok_0;
        assert forall|k: int| 0 <= k < idxs.len() implies sp_parse_clip(d, #[trigger] idxs[k])
            == Ok::<ClipView, ErrView>(cs[k]) by {
            if k == 0 {
                assert(cs[0] == (seq![sp_parse_clip(d, idxs[0])->Ok_0] + rest)[0]);
            } else {
                assert(idxs.drop_first()[k - 1] == idxs[k]);
                assert(cs[k] == (seq![sp_parse_clip(d, idxs[0])->Ok_0] + rest)[k]);
                assert(cs[k] == rest[k - 1]);
            }
        }
    }
}

/// How a track element parses: the group linkage is tolerant (sentinel
/// `-1` where the attribute is missing or not a number), the display name
/// resolves through the chained lookup, the color is left unset, and the
/// clips under the track parse in document order.
pub open spec fn sp_parse_track(d: Seq<NodeView>, i: int) -> Result<TrackView, ErrView> {
    let group_id: i32 = match sp_attribute_value(d, i, seq!["TrackGroupId"@]) {
        Ok(t) => match sp_parse_i32_text(t) {
            Some(v) => v,
            None => -1i32,
        },
        Err(_) => -1i32,
    };
    match sp_attribute_value(d, i, seq!["Name"@, "EffectiveName"@]) {
        Err(e) => Err(e),
        Ok(name) => match sp_parse_clips(d, clip_idxs(d, i)) {
            Err(e) => Err(e),
            Ok(clips) => Ok(TrackView { group_id, name, color: None, clips }),
        },
    }
}

impl Track {
    /// Parses the track element at index `i`; mirrors [`sp_parse_track`].
    pub fn parse(doc: &XmlDoc, i: usize) -> (r: Result<Track, ParseError>)
        requires
            wf_doc(doc@),
            i < doc@.len(),
        ensures
            ({
                let sp = sp_parse_track(doc@, i as int);
                match r {
                    Ok(t) => sp == Ok::<_, ErrView>(t@),
                    Err(e) => sp == Err::<TrackView, ErrView>(e@),
                }
            }),
    {
        let gid_tags = vec![String::from_str("TrackGroupId")];
        proof {
            assert(strs_view(gid_tags@) =~= seq!["TrackGroupId"@]);
        }
        let group_id: i32 = match get_attribute_value(doc, i, &gid_tags) {
            Ok(t) => match parse_i32_text(t.as_str()) {
                Some(v) => v,
                None => -1,
            },
            Err(_) => -1,
        };
        let name_tags = vec![String::from_str("Name"), String::from_str("EffectiveName")];
        proof {
            assert(strs_view(name_tags@) =~= seq!["Name"@, "EffectiveName"@]);
        }
        let name = match get_attribute_value(doc, i, &name_tags) {
            Ok(v) => v,
            Err(e) => {
                return Err(e);
            },
        };
        let idxs = collect_clip_idxs(doc, i);
        proof {
            lemma_idx_where_upto_sorted(doc@, clip_pred(i as int), doc@.len() as int);
            assert(forall|a: int|
                0 <= a < idxs@.len() ==> #[trigger] idxs@[a] as int == idxs_view(idxs@)[a]);
        }
        let clips = match parse_clips(doc, &idxs) {
            Ok(v) => v,
            Err(e) => {
                return Err(e);
            },
        };
        Ok(Track { group_id, name, color: None, clips })
    }
}

} // verus!
