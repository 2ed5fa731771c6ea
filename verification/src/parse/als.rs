//! The model of one parsed container file, and of one project.

use vstd::prelude::*;

use crate::parse::group::{sp_parse_group, Group, GroupView};
use crate::parse::track::{idxs_view, sp_parse_track, Track, TrackView};
use crate::parse::{ErrView, ParseError};
use crate::text::str_eq;
use crate::xml::{
    check_wf, idx_where, idx_where_upto, lemma_idx_where_upto_sorted, parse_xml_tree, wf_doc,
    xml_doc_of, NodeView, XmlDoc,
};

verus! {

/// Everything one container file parses to: the file's base name, its
/// groups and its tracks, each list in document order.
#[derive(Debug, Clone, PartialEq)]
pub struct AlsData {
    pub name: String,
    pub groups: Vec<Group>,
    pub tracks: Vec<Track>,
}

/// Mathematical image of an [`AlsData`].
pub struct AlsView {
    pub name: Seq<char>,
    pub groups: Seq<GroupView>,
    pub tracks: Seq<TrackView>,
}

impl View for AlsData {
    type V = AlsView;

    open spec fn view(&self) -> AlsView {
        AlsView {
            name: self.name@,
            groups: self.groups@.map_values(|g: Group| g@),
            tracks: self.tracks@.map_values(|t: Track| t@),
        }
    }
}

/// The tags that mark a track element.
pub open spec fn is_track_tag(tag: Seq<char>) -> bool {
    tag == "MidiTrack"@ || tag == "AudioTrack"@ || tag == "ReturnTrack"@
}

/// Membership test for track elements.
pub open spec fn track_pred() -> spec_fn(Seq<NodeView>, int) -> bool {
    |d: Seq<NodeView>, j: int| is_track_tag(d[j].tag)
}

/// Membership test for group elements.
pub open spec fn group_pred() -> spec_fn(Seq<NodeView>, int) -> bool {
    |d: Seq<NodeView>, j: int| d[j].tag == "GroupTrack"@
}

/// The indices of all track elements, in document order.
pub open spec fn track_idxs(d: Seq<NodeView>) -> Seq<int> {
    idx_where(d, track_pred())
}

/// The indices of all group elements, in document order.
pub open spec fn group_idxs(d: Seq<NodeView>) -> Seq<int> {
    idx_where(d, group_pred())
}

/// Collects all track elements in document order; mirrors [`track_idxs`].
pub(crate) fn collect_track_idxs(doc: &XmlDoc) -> (r: Vec<usize>)
    ensures
        idxs_view(r@) == track_idxs(doc@),
{
    let n = doc.nodes.len();
    let ghost p = track_pred();
    let mut r: Vec<usize> = Vec::new();
    let mut j: usize = 0;
    while j < n
        invariant
            j <= n,
            n == doc@.len(),
            doc@.len() == doc.nodes@.len(),
            p == track_pred(),
            idxs_view(r@) == idx_where_upto(doc@, p, j as int),
        decreases n - j,
    {
        proof {
            assert(doc@[j as int] == doc.nodes@[j as int]@);
        }
        let here = str_eq(doc.nodes[j].tag.as_str(), "MidiTrack") || str_eq(
            doc.nodes[j].tag.as_str(),
            "AudioTrack",
        ) || str_eq(doc.nodes[j].tag.as_str(), "ReturnTrack");
        proof {
            assert(here == p(doc@, j as int));
        }
        if here {
            r.push(j);
        }
        proof {
            assert(idxs_view(r@) =~= idx_where_upto(doc@, p, j + 1));
        }
        j = j + 1;
    }
    r
}

/// Collects all group elements in document order; mirrors [`group_idxs`].
fn collect_group_idxs(doc: &XmlDoc) -> (r: Vec<usize>)
    ensures
        idxs_view(r@) == group_idxs(doc@),
{
    let n = doc.nodes.len();
    let ghost p = group_pred();
    let mut r: Vec<usize> = Vec::new();
    let mut j: usize = 0;
    while j < n
        invariant
            j <= n,
            n == doc@.len(),
            doc@.len() == doc.nodes@.len(),
            p == group_pred(),
            idxs_view(r@) == idx_where_upto(doc@, p, j as int),
        decreases n - j,
    {
        proof {
            assert(doc@[j as int] == doc.nodes@[j as int]@);
        }
        let here = str_eq(doc.nodes[j].tag.as_str(), "GroupTrack");
        proof {
            assert(here == p(doc@, j as int));
        }
        if here {
            r.push(j);
        }
        proof {
            assert(idxs_view(r@) =~= idx_where_upto(doc@, p, j + 1));
        }
        j = j + 1;
    }
    r
}

/// Parses the tracks at `idxs` in order; the first failure fails the list.
pub open spec fn sp_parse_tracks(d: Seq<NodeView>, idxs: Seq<int>) -> Result<
    Seq<TrackView>,
    ErrView,
>
    decreases idxs.len(),
{
    if idxs.len() == 0 {
        Ok(seq![])
    } else {
        match sp_parse_track(d, idxs[0]) {
            Err(e) => Err(e),
            Ok(t) => match sp_parse_tracks(d, idxs.drop_first()) {
                Err(e) => Err(e),
                Ok(ts) => Ok(seq![t] + ts),
            },
        }
    }
}

/// Parses the groups at `idxs` in order; the first failure fails the list.
pub open spec fn sp_parse_groups(d: Seq<NodeView>, idxs: Seq<int>) -> Result<
    Seq<GroupView>,
    ErrView,
>
    decreases idxs.len(),
{
    if idxs.len() == 0 {
        Ok(seq![])
    } else {
        match sp_parse_group(d, idxs[0]) {
            Err(e) => Err(e),
            Ok(g) => match sp_parse_groups(d, idxs.drop_first()) {
                Err(e) => Err(e),
                Ok(gs) => Ok(seq![g] + gs),
            },
        }
    }
}

/// Parses the tracks at `idxs` in order; mirrors [`sp_parse_tracks`].
pub fn parse_tracks(doc: &XmlDoc, idxs: &Vec<usize>) -> (r: Result<Vec<Track>, ParseError>)
    requires
        wf_doc(doc@),
        forall|a: int| 0 <= a < idxs@.len() ==> #[trigger] idxs@[a] < doc@.len(),
    ensures
        ({
            let sp = sp_parse_tracks(doc@, idxs_view(idxs@));
            match r {
                Ok(v) => sp == Ok::<_, ErrView>(v@.map_values(|t: Track| t@)),
                Err(e) => sp == Err::<Seq<TrackView>, ErrView>(e@),
            }
        }),
{
    let ghost iv = idxs_view(idxs@);
    let n = idxs.len();
    let mut acc: Vec<Track> = Vec::new();
    let mut k: usize = 0;
    proof {
        assert(iv.skip(0) =~= iv);
        if let Ok(ts) = sp_parse_tracks(doc@, iv) {
            assert(acc@.map_values(|t: Track| t@) + ts =~= ts);
        }
    }
    while k < n
        invariant
            k <= n,
            n == idxs@.len(),
            iv == idxs_view(idxs@),
            wf_doc(doc@),
            forall|a: int| 0 <= a < idxs@.len() ==> #[trigger] idxs@[a] < doc@.len(),
            sp_parse_tracks(doc@, iv) == match sp_parse_tracks(doc@, iv.skip(k as int)) {
                Ok(ts) => Ok::<_, ErrView>(acc@.map_values(|t: Track| t@) + ts),
                Err(e) => Err::<Seq<TrackView>, ErrView>(e),
            },
        decreases n - k,
    {
        proof {
            assert(iv.skip(k as int)[0] == iv[k as int]);
            assert(iv[k as int] == idxs@[k as int] as int);
        }
        match Track::parse(doc, idxs[k]) {
            Ok(t) => {
                proof {
                    assert(iv.skip(k as int).drop_first() =~= iv.skip(k + 1));
                }
                let ghost old_accv = acc@.map_values(|t: Track| t@);
                acc.push(t);
                proof {
                    let accv = acc@.map_values(|t: Track| t@);
                    assert(accv =~= old_accv + seq![t@]);
                    if let Ok(ts) = sp_parse_tracks(doc@, iv.skip(k + 1)) {
                        assert(old_accv + (seq![t@] + ts) =~= accv + ts);
                    }
                }
                k = k + 1;
            },
            Err(e) => {
                return Err(e);
            },
        }
    }
    proof {
        assert(iv.skip(n as int) =~= Seq::<int>::empty());
        assert(acc@.map_values(|t: Track| t@) + Seq::<TrackView>::empty() =~= acc@.map_values(
            |t: Track| t@,
        ));
    }
    Ok(acc)
}

/// Parses the groups at `idxs` in order; mirrors [`sp_parse_groups`].
pub fn parse_groups(doc: &XmlDoc, idxs: &Vec<usize>) -> (r: Result<Vec<Group>, ParseError>)
    requires
        wf_doc(doc@),
        forall|a: int| 0 <= a < idxs@.len() ==> #[trigger] idxs@[a] < doc@.len(),
    ensures
        ({
            let sp = sp_parse_groups(doc@, idxs_view(idxs@));
            match r {
                Ok(v) => sp == Ok::<_, ErrView>(v@.map_values(|g: Group| g@)),
                Err(e) => sp == Err::<Seq<GroupView>, ErrView>(e@),
            }
        }),
{
    let ghost iv = idxs_view(idxs@);
    let n = idxs.len();
    let mut acc: Vec<Group> = Vec::new();
    let mut k: usize = 0;
    proof {
        assert(iv.skip(0) =~= iv);
        if let Ok(gs) = sp_parse_groups(doc@, iv) {
            assert(acc@.map_values(|g: Group| g@) + gs =~= gs);
        }
    }
    while k < n
        invariant
            k <= n,
            n == idxs@.len(),
            iv == idxs_view(idxs@),
            wf_doc(doc@),
            forall|a: int| 0 <= a < idxs@.len() ==> #[trigger] idxs@[a] < doc@.len(),
            sp_parse_groups(doc@, iv) == match sp_parse_groups(doc@, iv.skip(k as int)) {
                Ok(gs) => Ok::<_, ErrView>(acc@.map_values(|g: Group| g@) + gs),
                Err(e) => Err::<Seq<GroupView>, ErrView>(e),
            },
        decreases n - k,
    {
        proof {
            assert(iv.skip(k as int)[0] == iv[k as int]);
            assert(iv[k as int] == idxs@[k as int] as int);
        }
        match Group::parse(doc, idxs[k]) {
            Ok(g) => {
                proof {
                    assert(iv.skip(k as int).drop_first() =~= iv.skip(k + 1));
                }
                let ghost old_accv = acc@.map_values(|g: Group| g@);
                acc.push(g);
                proof {
                    let accv = acc@.map_values(|g: Group| g@);
                    assert(accv =~= old_accv + seq![g@]);
                    if let Ok(gs) = sp_parse_groups(doc@, iv.skip(k + 1)) {
                        assert(old_accv + (seq![g@] + gs) =~= accv + gs);
                    }
                }
                k = k + 1;
            },
            Err(e) => {
                return Err(e);
            },
        }
    }
    proof {
        assert(iv.skip(n as int) =~= Seq::<int>::empty());
        assert(acc@.map_values(|g: Group| g@) + Seq::<GroupView>::empty() =~= acc@.map_values(
            |g: Group| g@,
        ));
    }
    Ok(acc)
}

/// A track list that parses yields one track per index, in index order.
pub proof fn lemma_parse_tracks_elems(d: Seq<NodeView>, idxs: Seq<int>)
    requires
        sp_parse_tracks(d, idxs) is Ok,
    ensures
        ({
            let ts = sp_parse_tracks(d, idxs)->Ok_0;
            &&& ts.len() == idxs.len()
            &&& forall|k: int|
                0 <= k < idxs.len() ==> sp_parse_track(d, #[trigger] idxs[k]) == Ok::<
                    TrackView,
                    ErrView,
                >(ts[k])
        }),
    decreases idxs.len(),
{
    if idxs.len() > 0 {
        lemma_parse_tracks_elems(d, idxs.drop_first());
        let ts = sp_parse_tracks(d, idxs)->Ok_0;
        let rest = sp_parse_tracks(d, idxs.drop_first())->Ok_0;
        assert forall|k: int| 0 <= k < idxs.len() implies sp_parse_track(d, #[trigger] idxs[k])
            == Ok::<TrackView, ErrView>(ts[k]) by {
            if k == 0 {
                assert(ts[0] == (seq![sp_parse_track(d, idxs[0])->Ok_0] + rest)[0]);
            } else {
                assert(idxs.drop_first()[k - 1] == idxs[k]);
                assert(ts[k] == (seq![sp_parse_track(d, idxs[0])->Ok_0] + rest)[k]);
                assert(ts[k] == rest[k - 1]);
            }
        }
    }
}

/// A group list that parses yields one group per index, in index order.
pub proof fn lemma_parse_groups_elems(d: Seq<NodeView>, idxs: Seq<int>)
    requires
        sp_parse_groups(d, idxs) is Ok,
    ensures
        ({
            let gs = sp_parse_groups(d, idxs)->Ok_0;
            &&& gs.len() == idxs.len()
            &&& forall|k: int|
                0 <= k < idxs.len() ==> sp_parse_group(d, #[trigger] idxs[k]) == Ok::<
                    GroupView,
                    ErrView,
                >(gs[k])
        }),
    decreases idxs.len(),
{
    if idxs.len() > 0 {
        lemma_parse_groups_elems(d, idxs.drop_first());
        let gs = sp_parse_groups(d, idxs)->Ok_0;
        let rest = sp_parse_groups(d, idxs.drop_first())->Ok_0;
        assert forall|k: int| 0 <= k < idxs.len() implies sp_parse_group(d, #[trigger] idxs[k])
            == Ok::<GroupView, ErrView>(gs[k]) by {
            if k == 0 {
                assert(gs[0] == (seq![sp_parse_group(d, idxs[0])->Ok_0] + rest)[0]);
            } else {
                assert(idxs.drop_first()[k - 1] == idxs[k]);
                assert(gs[k] == (seq![sp_parse_group(d, idxs[0])->Ok_0] + rest)[k]);
                assert(gs[k] == rest[k - 1]);
            }
        }
    }
}

/// Law: a parsed file keeps document order, however its files were
/// scheduled.  The model's tracks correspond one to one, in order, to the
/// track-tagged elements of the document at strictly increasing document
/// positions; the groups likewise; and each track's clips correspond one
/// to one, in order, to the clip-tagged elements of that track's subtree
/// at strictly increasing document positions.
pub proof fn lemma_order_preservation(name: Seq<char>, d: Seq<NodeView>)
    requires
        wf_doc(d),
        sp_parse_doc(name, d) is Ok,
    ensures
        ({
            let a = sp_parse_doc(name, d)->Ok_0;
            let ti = track_idxs(d);
            let gi = group_idxs(d);
            &&& a.tracks.len() == ti.len()
            &&& forall|k: int|
                0 <= k < ti.len() ==> sp_parse_track(d, #[trigger] ti[k]) == Ok::<
                    TrackView,
                    ErrView,
                >(a.tracks[k])
            &&& forall|k: int, l: int| 0 <= k < l < ti.len() ==> ti[k] < ti[l]
            &&& a.groups.len() == gi.len()
            &&& forall|k: int|
                0 <= k < gi.len() ==> sp_parse_group(d, #[trigger] gi[k]) == Ok::<
                    GroupView,
                    ErrView,
                >(a.groups[k])
            &&& forall|k: int, l: int| 0 <= k < l < gi.len() ==> gi[k] < gi[l]
            &&& forall|k: int|
                0 <= k < ti.len() ==> {
                    let ci = crate::parse::track::clip_idxs(d, ti[k]);
                    let cs = (#[trigger] a.tracks[k]).clips;
                    &&& cs.len() == ci.len()
                    &&& forall|c: int|
                        0 <= c < ci.len() ==> crate::parse::clip::sp_parse_clip(
                            d,
                            #[trigger] ci[c],
                        ) == Ok::<crate::parse::clip::ClipView, ErrView>(cs[c])
                    &&& forall|c: int, e: int| 0 <= c < e < ci.len() ==> ci[c] < ci[e]
                }
        }),
{
    let a = sp_parse_doc(name, d)->Ok_0;
    let ti = track_idxs(d);
    let gi = group_idxs(d);
    lemma_parse_tracks_elems(d, ti);
    lemma_parse_groups_elems(d, gi);
    lemma_idx_where_upto_sorted(d, track_pred(), d.len() as int);
    lemma_idx_where_upto_sorted(d, group_pred(), d.len() as int);
    assert forall|k: int| 0 <= k < ti.len() implies {
        let ci = crate::parse::track::clip_idxs(d, ti[k]);
        let cs = (#[trigger] a.tracks[k]).clips;
        &&& cs.len() == ci.len()
        &&& forall|c: int|
            0 <= c < ci.len() ==> crate::parse::clip::sp_parse_clip(d, #[trigger] ci[c]) == Ok::<
                crate::parse::clip::ClipView,
                ErrView,
            >(cs[c])
        &&& forall|c: int, e: int| 0 <= c < e < ci.len() ==> ci[c] < ci[e]
    } by {
        let ci = crate::parse::track::clip_idxs(d, ti[k]);
        assert(sp_parse_track(d, ti[k]) == Ok::<TrackView, ErrView>(a.tracks[k]));
        assert(crate::parse::track::sp_parse_clips(d, ci) is Ok);
        assert(crate::parse::track::sp_parse_clips(d, ci)->Ok_0 == a.tracks[k].clips);
        crate::parse::track::lemma_parse_clips_elems(d, ci);
        lemma_idx_where_upto_sorted(
            d,
            crate::parse::track::clip_pred(ti[k]),
            d.len() as int,
        );
    }
}

/// How a whole well-shaped document parses: all tracks in document order,
/// then all groups in document order; the first failing element fails the
/// file.
pub open spec fn sp_parse_doc(name: Seq<char>, d: Seq<NodeView>) -> Result<AlsView, ErrView> {
    match sp_parse_tracks(d, track_idxs(d)) {
        Err(e) => Err(e),
        Ok(tracks) => match sp_parse_groups(d, group_idxs(d)) {
            Err(e) => Err(e),
            Ok(groups) => Ok(AlsView { name, groups, tracks }),
        },
    }
}

/// How a file parses from its decompressed text: a text the XML crate
/// rejects fails as not-XML; otherwise the element arena parses as
/// [`sp_parse_doc`].
pub open spec fn sp_parse_als(name: Seq<char>, text: Seq<char>) -> Result<AlsView, ErrView> {
    match xml_doc_of(text) {
        None => Err(ErrView::NotXml),
        Some(d) => if !wf_doc(d) {
            Err(ErrView::NotXml)
        } else {
            sp_parse_doc(name, d)
        },
    }
}

impl AlsData {
    /// Parses a well-shaped element arena; mirrors [`sp_parse_doc`].
    pub fn parse_doc(name: String, doc: &XmlDoc) -> (r: Result<AlsData, ParseError>)
        requires
            wf_doc(doc@),
        ensures
            ({
                let sp = sp_parse_doc(name@, doc@);
                match r {
                    Ok(a) => sp == Ok::<_, ErrView>(a@),
                    Err(e) => sp == Err::<AlsView, ErrView>(e@),
                }
            }),
    {
        let tidxs = collect_track_idxs(doc);
        proof {
            lemma_idx_where_upto_sorted(doc@, track_pred(), doc@.len() as int);
            assert(forall|a: int|
                0 <= a < tidxs@.len() ==> #[trigger] tidxs@[a] as int == idxs_view(tidxs@)[a]);
        }
        let tracks = match parse_tracks(doc, &tidxs) {
            Ok(v) => v,
            Err(e) => {
                return Err(e);
            },
        };
        let gidxs = collect_group_idxs(doc);
        proof {
            lemma_idx_where_upto_sorted(doc@, group_pred(), doc@.len() as int);
            assert(forall|a: int|
                0 <= a < gidxs@.len() ==> #[trigger] gidxs@[a] as int == idxs_view(gidxs@)[a]);
        }
        let groups = match parse_groups(doc, &gidxs) {
            Ok(v) => v,
            Err(e) => {
                return Err(e);
            },
        };
        Ok(AlsData { name, groups, tracks })
    }

    /// Parses one decompressed container document into the model; mirrors
    /// [`sp_parse_als`].
    pub fn parse(name: String, xml_contents: String) -> (r: Result<AlsData, ParseError>)
        ensures
            ({
                let sp = sp_parse_als(name@, xml_contents@);
                match r {
                    Ok(a) => sp == Ok::<_, ErrView>(a@),
                    Err(e) => sp == Err::<AlsView, ErrView>(e@),
                }
            }),
    {
        let doc = match parse_xml_tree(xml_contents.as_str()) {
            Some(d) => d,
            None => {
                return Err(ParseError::NotXml);
            },
        };
        if !check_wf(&doc) {
            return Err(ParseError::NotXml);
        }
        AlsData::parse_doc(name, &doc)
    }
}

/// One project directory's worth of parsed files.
#[derive(Debug, Clone, PartialEq)]
pub struct Project {
    pub name: String,
    pub als_data: Option<Vec<AlsData>>,
}

/// Mathematical image of a [`Project`].
pub struct ProjectView {
    pub name: Seq<char>,
    pub als_data: Option<Seq<AlsView>>,
}

impl View for Project {
    type V = ProjectView;

    open spec fn view(&self) -> ProjectView {
        ProjectView {
            name: self.name@,
            als_data: match self.als_data {
                Some(ref v) => Some(v@.map_values(|a: AlsData| a@)),
                None => None,
            },
        }
    }
}

} // verus!
