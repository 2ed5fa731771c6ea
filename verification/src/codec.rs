//! The textual form of one cache record.
//!
//! A record is one parsed file's model written as plain text: single-letter
//! markers, decimal numbers each closed by one space, and length-prefixed
//! strings.  The encoder and the decoder are both verified against the same
//! grammar, and writing a well-formed model and reading it back is proved
//! to yield the model unchanged.

use vstd::prelude::*;

use crate::num::{
    dec_digits, digit_run_end, digits_val, is_digit_char, lemma_dec_digits_val,
    lemma_digit_run_exact, lemma_u64_digits_len, parse_num_at, push_dec_u64, sp_num_at,
};
use crate::parse::als::{AlsData, AlsView};
use crate::parse::clip::{Clip, ClipView, Loop, LoopView};
use crate::parse::group::{Group, GroupView};
use crate::parse::track::{Track, TrackView};

verus! {

/// A string short enough for its length to be written in at most twenty
/// digits.  Every string an executable model can hold is of this kind.
pub open spec fn wf_str(s: Seq<char>) -> bool {
    s.len() < 0x1_0000_0000_0000_0000
}

/// Every piece of a loop span is encodable.
pub open spec fn wf_loop(l: LoopView) -> bool {
    wf_str(l.start) && wf_str(l.end)
}

/// Every piece of a clip is encodable.
pub open spec fn wf_clip(c: ClipView) -> bool {
    &&& wf_str(c.name)
    &&& wf_str(c.start)
    &&& wf_str(c.end)
    &&& match c.loop_span {
        Some(l) => wf_loop(l),
        None => true,
    }
}

/// Every piece of a group is encodable.
pub open spec fn wf_group(g: GroupView) -> bool {
    wf_str(g.name)
}

/// Every piece of a track is encodable.
pub open spec fn wf_track(t: TrackView) -> bool {
    &&& wf_str(t.name)
    &&& t.clips.len() < 0x1_0000_0000_0000_0000
    &&& forall|i: int| 0 <= i < t.clips.len() ==> wf_clip(#[trigger] t.clips[i])
}

/// Every piece of a record is encodable.  Any model built from executable
/// vectors and strings satisfies this.
pub open spec fn wf_als(a: AlsView) -> bool {
    &&& wf_str(a.name)
    &&& a.groups.len() < 0x1_0000_0000_0000_0000
    &&& a.tracks.len() < 0x1_0000_0000_0000_0000
    &&& forall|i: int| 0 <= i < a.groups.len() ==> wf_group(#[trigger] a.groups[i])
    &&& forall|i: int| 0 <= i < a.tracks.len() ==> wf_track(#[trigger] a.tracks[i])
}

/// A number closed by one space.
pub open spec fn enc_num_sp(n: nat) -> Seq<char> {
    dec_digits(n) + seq![' ']
}

/// A signed number closed by one space.
pub open spec fn enc_i32_sp(v: i32) -> Seq<char> {
    if v < 0 {
        seq!['-'] + enc_num_sp((0 - v as int) as nat)
    } else {
        enc_num_sp(v as nat)
    }
}

/// An optional palette index: `n` for none, `c` and the index otherwise.
pub open spec fn enc_color(c: Option<u32>) -> Seq<char> {
    match c {
        None => seq!['n', ' '],
        Some(v) => seq!['c'] + enc_num_sp(v as nat),
    }
}

/// A length-prefixed string.
pub open spec fn enc_str(s: Seq<char>) -> Seq<char> {
    dec_digits(s.len()) + seq![':'] + s
}

/// An optional loop span: `L` and two strings, or `x` for none.
pub open spec fn enc_loopopt(l: Option<LoopView>) -> Seq<char> {
    match l {
        Some(l) => seq!['L'] + enc_str(l.start) + enc_str(l.end),
        None => seq!['x'],
    }
}

/// One clip.
pub open spec fn enc_clip(c: ClipView) -> Seq<char> {
    seq!['c'] + enc_str(c.name) + enc_str(c.start) + enc_str(c.end) + enc_loopopt(c.loop_span)
        + seq!['\n']
}

/// A clip list, in order.
pub open spec fn enc_clips(cs: Seq<ClipView>) -> Seq<char>
    decreases cs.len(),
{
    if cs.len() == 0 {
        seq![]
    } else {
        enc_clip(cs[0]) + enc_clips(cs.drop_first())
    }
}

/// One group.
pub open spec fn enc_group(g: GroupView) -> Seq<char> {
    seq!['g'] + enc_num_sp(g.id as nat) + enc_color(g.color) + enc_str(g.name) + seq!['\n']
}

/// A group list, in order.
pub open spec fn enc_groups(gs: Seq<GroupView>) -> Seq<char>
    decreases gs.len(),
{
    if gs.len() == 0 {
        seq![]
    } else {
        enc_group(gs[0]) + enc_groups(gs.drop_first())
    }
}

/// One track and its clips.
pub open spec fn enc_track(t: TrackView) -> Seq<char> {
    seq!['t'] + enc_i32_sp(t.group_id) + enc_color(t.color) + enc_num_sp(t.clips.len())
        + enc_str(t.name) + seq!['\n'] + enc_clips(t.clips)
}

/// A track list, in order.
pub open spec fn enc_tracks(ts: Seq<TrackView>) -> Seq<char>
    decreases ts.len(),
{
    if ts.len() == 0 {
        seq![]
    } else {
        enc_track(ts[0]) + enc_tracks(ts.drop_first())
    }
}

/// A whole record: the file name, the group list with its count, and the
/// track list with its count.
pub open spec fn enc_record(a: AlsView) -> Seq<char> {
    seq!['A'] + enc_str(a.name) + seq!['\n'] + seq!['G'] + enc_num_sp(a.groups.len()) + seq!['\n']
        + enc_groups(a.groups) + seq!['T'] + enc_num_sp(a.tracks.len()) + seq!['\n'] + enc_tracks(
        a.tracks,
    )
}

/// One exact character.
pub open spec fn sp_char_at(s: Seq<char>, pos: int, c: char) -> Option<int> {
    if 0 <= pos < s.len() && s[pos] == c {
        Some(pos + 1)
    } else {
        None
    }
}

/// A number closed by one space.
pub open spec fn sp_num_sp_at(s: Seq<char>, pos: int) -> Option<(nat, int)> {
    match sp_num_at(s, pos) {
        None => None,
        Some((n, e)) => if e < s.len() && s[e] == ' ' {
            Some((n, e + 1))
        } else {
            None
        },
    }
}

/// A number closed by one space, within `u32` range.
pub open spec fn sp_u32_sp_at(s: Seq<char>, pos: int) -> Option<(u32, int)> {
    match sp_num_sp_at(s, pos) {
        None => None,
        Some((n, e)) => if n <= u32::MAX {
            Some((n as u32, e))
        } else {
            None
        },
    }
}

/// A possibly negated number closed by one space, within `i32` range.
pub open spec fn sp_i32_sp_at(s: Seq<char>, pos: int) -> Option<(i32, int)> {
    if 0 <= pos < s.len() && s[pos] == '-' {
        match sp_num_sp_at(s, pos + 1) {
            None => None,
            Some((n, e)) => if n <= 0x8000_0000 {
                Some(((0 - n as int) as i32, e))
            } else {
                None
            },
        }
    } else {
        match sp_num_sp_at(s, pos) {
            None => None,
            Some((n, e)) => if n <= i32::MAX {
                Some((n as i32, e))
            } else {
                None
            },
        }
    }
}

/// An optional palette index.
pub open spec fn sp_color_at(s: Seq<char>, pos: int) -> Option<(Option<u32>, int)> {
    if 0 <= pos < s.len() && s[pos] == 'n' {
        if pos + 1 < s.len() && s[pos + 1] == ' ' {
            Some((None, pos + 2))
        } else {
            None
        }
    } else if 0 <= pos < s.len() && s[pos] == 'c' {
        match sp_u32_sp_at(s, pos + 1) {
            None => None,
            Some((v, e)) => Some((Some(v), e)),
        }
    } else {
        None
    }
}

/// A length-prefixed string.
pub open spec fn sp_str_at(s: Seq<char>, pos: int) -> Option<(Seq<char>, int)> {
    match sp_num_at(s, pos) {
        None => None,
        Some((l, e)) => if e < s.len() && s[e] == ':' && e + 1 + l <= s.len() {
            Some((s.subrange(e + 1, e + 1 + l), e + 1 + l))
        } else {
            None
        },
    }
}

/// An optional loop span.
pub open spec fn sp_loopopt_at(s: Seq<char>, pos: int) -> Option<(Option<LoopView>, int)> {
    if 0 <= pos < s.len() && s[pos] == 'L' {
        match sp_str_at(s, pos + 1) {
            None => None,
            Some((a, e1)) => match sp_str_at(s, e1) {
                None => None,
                Some((b, e2)) => Some((Some(LoopView { start: a, end: b }), e2)),
            },
        }
    } else if 0 <= pos < s.len() && s[pos] == 'x' {
        Some((None, pos + 1))
    } else {
        None
    }
}

/// One clip.
pub open spec fn sp_clip_at(s: Seq<char>, pos: int) -> Option<(ClipView, int)> {
    match sp_char_at(s, pos, 'c') {
        None => None,
        Some(p1) => match sp_str_at(s, p1) {
            None => None,
            Some((name, p2)) => match sp_str_at(s, p2) {
                None => None,
                Some((start, p3)) => match sp_str_at(s, p3) {
                    None => None,
                    Some((end, p4)) => match sp_loopopt_at(s, p4) {
                        None => None,
                        Some((ls, p5)) => match sp_char_at(s, p5, '\n') {
                            None => None,
                            Some(p6) => Some(
                                (ClipView { name, start, end, loop_span: ls }, p6),
                            ),
                        },
                    },
                },
            },
        },
    }
}

/// `cnt` clips, one after the other.
pub open spec fn sp_clips_at(s: Seq<char>, pos: int, cnt: nat) -> Option<(Seq<ClipView>, int)>
    decreases cnt,
{
    if cnt == 0 {
        Some((seq![], pos))
    } else {
        match sp_clip_at(s, pos) {
            None => None,
            Some((c, e)) => match sp_clips_at(s, e, (cnt - 1) as nat) {
                None => None,
                Some((cs, e2)) => Some((seq![c] + cs, e2)),
            },
        }
    }
}

/// One group.
pub open spec fn sp_group_at(s: Seq<char>, pos: int) -> Option<(GroupView, int)> {
    match sp_char_at(s, pos, 'g') {
        None => None,
        Some(p1) => match sp_u32_sp_at(s, p1) {
            None => None,
            Some((id, p2)) => match sp_color_at(s, p2) {
                None => None,
                Some((color, p3)) => match sp_str_at(s, p3) {
                    None => None,
                    Some((name, p4)) => match sp_char_at(s, p4, '\n') {
                        None => None,
                        Some(p5) => Some((GroupView { id, name, color }, p5)),
                    },
                },
            },
        },
    }
}

/// `cnt` groups, one after the other.
pub open spec fn sp_groups_at(s: Seq<char>, pos: int, cnt: nat) -> Option<(Seq<GroupView>, int)>
    decreases cnt,
{
    if cnt == 0 {
        Some((seq![], pos))
    } else {
        match sp_group_at(s, pos) {
            None => None,
            Some((g, e)) => match sp_groups_at(s, e, (cnt - 1) as nat) {
                None => None,
                Some((gs, e2)) => Some((seq![g] + gs, e2)),
            },
        }
    }
}

/// One track and its clips.
pub open spec fn sp_track_at(s: Seq<char>, pos: int) -> Option<(TrackView, int)> {
    match sp_char_at(s, pos, 't') {
        None => None,
        Some(p1) => match sp_i32_sp_at(s, p1) {
            None => None,
            Some((group_id, p2)) => match sp_color_at(s, p2) {
                None => None,
                Some((color, p3)) => match sp_num_sp_at(s, p3) {
                    None => None,
                    Some((cnt, p4)) => match sp_str_at(s, p4) {
                        None => None,
                        Some((name, p5)) => match sp_char_at(s, p5, '\n') {
                            None => None,
                            Some(p6) => match sp_clips_at(s, p6, cnt) {
                                None => None,
                                Some((clips, p7)) => Some(
                                    (TrackView { group_id, name, color: color, clips }, p7),
                                ),
                            },
                        },
                    },
                },
            },
        },
    }
}

/// `cnt` tracks, one after the other.
pub open spec fn sp_tracks_at(s: Seq<char>, pos: int, cnt: nat) -> Option<(Seq<TrackView>, int)>
    decreases cnt,
{
    if cnt == 0 {
        Some((seq![], pos))
    } else {
        match sp_track_at(s, pos) {
            None => None,
            Some((t, e)) => match sp_tracks_at(s, e, (cnt - 1) as nat) {
                None => None,
                Some((ts, e2)) => Some((seq![t] + ts, e2)),
            },
        }
    }
}

/// A whole record, consuming the whole text.
#[verifier::opaque]
pub open spec fn sp_record(s: Seq<char>) -> Option<AlsView> {
    match sp_char_at(s, 0, 'A') {
        None => None,
        Some(p1) => match sp_str_at(s, p1) {
            None => None,
            Some((name, p2)) => match sp_char_at(s, p2, '\n') {
                None => None,
                Some(p3) => match sp_char_at(s, p3, 'G') {
                    None => None,
                    Some(p4) => match sp_num_sp_at(s, p4) {
                        None => None,
                        Some((gcnt, p5)) => match sp_char_at(s, p5, '\n') {
                            None => None,
                            Some(p6) => match sp_groups_at(s, p6, gcnt) {
                                None => None,
                                Some((groups, p7)) => match sp_char_at(s, p7, 'T') {
                                    None => None,
                                    Some(p8) => match sp_num_sp_at(s, p8) {
                                        None => None,
                                        Some((tcnt, p9)) => match sp_char_at(s, p9, '\n') {
                                            None => None,
                                            Some(p10) => match sp_tracks_at(s, p10, tcnt) {
                                                None => None,
                                                Some((tracks, p11)) => if p11 == s.len() {
                                                    Some(AlsView { name, groups, tracks })
                                                } else {
                                                    None
                                                },
                                            },
                                        },
                                    },
                                },
                            },
                        },
                    },
                },
            },
        },
    }
}

/// Splitting a concatenation written into `s` back into its two parts.
pub proof fn lemma_subrange_concat(s: Seq<char>, pos: int, a: Seq<char>, b: Seq<char>)
    requires
        0 <= pos,
        pos + a.len() + b.len() <= s.len(),
        s.subrange(pos, pos + a.len() + b.len()) == a + b,
    ensures
        s.subrange(pos, pos + a.len()) == a,
        s.subrange(pos + a.len(), pos + a.len() + b.len()) == b,
{
    let whole = s.subrange(pos, pos + a.len() + b.len());
    assert forall|i: int| 0 <= i < a.len() implies s[pos + i] == a[i] by {
        assert(whole[i] == (a + b)[i]);
    }
    assert forall|i: int| 0 <= i < b.len() implies s[pos + a.len() + i] == b[i] by {
        assert(whole[a.len() + i] == (a + b)[a.len() + i]);
    }
    assert(s.subrange(pos, pos + a.len()) =~= a);
    assert(s.subrange(pos + a.len(), pos + a.len() + b.len()) =~= b);
}

/// Reading a single written character finds it.
proof fn lemma_char_rt(s: Seq<char>, pos: int, c: char)
    requires
        0 <= pos,
        pos + 1 <= s.len(),
        s.subrange(pos, pos + 1) == seq![c],
    ensures
        sp_char_at(s, pos, c) == Some(pos + 1),
{
    assert(s[pos] == s.subrange(pos, pos + 1)[0]);
}

/// Reading a written number finds the number.
proof fn lemma_num_sp_rt(n: nat, s: Seq<char>, pos: int)
    requires
        n < 0x1_0000_0000_0000_0000,
        0 <= pos,
        pos + enc_num_sp(n).len() <= s.len(),
        s.subrange(pos, pos + enc_num_sp(n).len()) == enc_num_sp(n),
    ensures
        sp_num_sp_at(s, pos) == Some((n, pos + enc_num_sp(n).len())),
{
    let ds = dec_digits(n);
    lemma_dec_digits_val(n);
    lemma_u64_digits_len(n);
    lemma_subrange_concat(s, pos, ds, seq![' ']);
    let dlen = ds.len() as int;
    assert forall|i: int| pos <= i < pos + dlen implies is_digit_char(#[trigger] s[i]) by {
        assert(s[i] == s.subrange(pos, pos + dlen)[i - pos]);
    }
    assert(s[pos + dlen] == s.subrange(pos + dlen, pos + dlen + 1)[0]);
    assert(s[pos + dlen] == ' ');
    assert(!is_digit_char(' '));
    lemma_digit_run_exact(s, pos, dlen);
    assert(s.subrange(pos, pos + dlen) == ds);
    assert(digits_val(s.subrange(pos, pos + dlen)) == n);
}

/// Reading a written signed number finds the number.
proof fn lemma_i32_sp_rt(v: i32, s: Seq<char>, pos: int)
    requires
        0 <= pos,
        pos + enc_i32_sp(v).len() <= s.len(),
        s.subrange(pos, pos + enc_i32_sp(v).len()) == enc_i32_sp(v),
    ensures
        sp_i32_sp_at(s, pos) == Some((v, pos + enc_i32_sp(v).len())),
{
    if v < 0 {
        let m = (0 - v as int) as nat;
        lemma_subrange_concat(s, pos, seq!['-'], enc_num_sp(m));
        assert(s[pos] == s.subrange(pos, pos + 1)[0]);
        assert(s[pos] == '-');
        lemma_num_sp_rt(m, s, pos + 1);
    } else {
        lemma_num_sp_rt(v as nat, s, pos);
        lemma_dec_digits_val(v as nat);
        assert(s[pos] == s.subrange(pos, pos + enc_i32_sp(v).len())[0]);
        assert(is_digit_char(s[pos]));
        assert(s[pos] != '-');
    }
}

/// Reading a written palette index finds it.
proof fn lemma_color_rt(c: Option<u32>, s: Seq<char>, pos: int)
    requires
        0 <= pos,
        pos + enc_color(c).len() <= s.len(),
        s.subrange(pos, pos + enc_color(c).len()) == enc_color(c),
    ensures
        sp_color_at(s, pos) == Some((c, pos + enc_color(c).len())),
{
    match c {
        None => {
            assert(s[pos] == s.subrange(pos, pos + 2)[0]);
            assert(s[pos + 1] == s.subrange(pos, pos + 2)[1]);
        },
        Some(v) => {
            lemma_subrange_concat(s, pos, seq!['c'], enc_num_sp(v as nat));
            assert(s[pos] == s.subrange(pos, pos + 1)[0]);
            assert(s[pos] == 'c');
            lemma_num_sp_rt(v as nat, s, pos + 1);
        },
    }
}

/// Reading a written string finds the string.
proof fn lemma_str_rt(w: Seq<char>, s: Seq<char>, pos: int)
    requires
        wf_str(w),
        0 <= pos,
        pos + enc_str(w).len() <= s.len(),
        s.subrange(pos, pos + enc_str(w).len()) == enc_str(w),
    ensures
        sp_str_at(s, pos) == Some((w, pos + enc_str(w).len())),
{
    let ds = dec_digits(w.len());
    lemma_dec_digits_val(w.len());
    lemma_u64_digits_len(w.len());
    assert(enc_str(w) =~= ds + (seq![':'] + w));
    lemma_subrange_concat(s, pos, ds, seq![':'] + w);
    let dlen = ds.len() as int;
    lemma_subrange_concat(s, pos + dlen, seq![':'], w);
    assert forall|i: int| pos <= i < pos + dlen implies is_digit_char(#[trigger] s[i]) by {
        assert(s[i] == s.subrange(pos, pos + dlen)[i - pos]);
    }
    assert(s[pos + dlen] == s.subrange(pos + dlen, pos + dlen + 1)[0]);
    assert(s[pos + dlen] == ':');
    assert(!is_digit_char(':'));
    lemma_digit_run_exact(s, pos, dlen);
    assert(digits_val(s.subrange(pos, pos + dlen)) == w.len());
    assert(s.subrange(pos + dlen + 1, pos + dlen + 1 + w.len()) == w);
}

/// Reading a written loop span finds it.
proof fn lemma_loopopt_rt(l: Option<LoopView>, s: Seq<char>, pos: int)
    requires
        match l {
            Some(lv) => wf_loop(lv),
            None => true,
        },
        0 <= pos,
        pos + enc_loopopt(l).len() <= s.len(),
        s.subrange(pos, pos + enc_loopopt(l).len()) == enc_loopopt(l),
    ensures
        sp_loopopt_at(s, pos) == Some((l, pos + enc_loopopt(l).len())),
{
    match l {
        Some(lv) => {
            assert(enc_loopopt(l) =~= seq!['L'] + (enc_str(lv.start) + enc_str(lv.end)));
            lemma_subrange_concat(s, pos, seq!['L'], enc_str(lv.start) + enc_str(lv.end));
            assert(s[pos] == s.subrange(pos, pos + 1)[0]);
            assert(s[pos] == 'L');
            lemma_subrange_concat(s, pos + 1, enc_str(lv.start), enc_str(lv.end));
            lemma_str_rt(lv.start, s, pos + 1);
            lemma_str_rt(lv.end, s, pos + 1 + enc_str(lv.start).len());
        },
        None => {
            assert(s[pos] == s.subrange(pos, pos + 1)[0]);
            assert(s[pos] == 'x');
        },
    }
}

/// Reading a written clip finds the clip.
proof fn lemma_clip_rt(c: ClipView, s: Seq<char>, pos: int)
    requires
        wf_clip(c),
        0 <= pos,
        pos + enc_clip(c).len() <= s.len(),
        s.subrange(pos, pos + enc_clip(c).len()) == enc_clip(c),
    ensures
        sp_clip_at(s, pos) == Some((c, pos + enc_clip(c).len())),
{
    let e2 = enc_str(c.name);
    let e3 = enc_str(c.start);
    let e4 = enc_str(c.end);
    let e5 = enc_loopopt(c.loop_span);
    assert(enc_clip(c) =~= seq!['c'] + (e2 + (e3 + (e4 + (e5 + seq!['\n'])))));
    lemma_subrange_concat(s, pos, seq!['c'], e2 + (e3 + (e4 + (e5 + seq!['\n']))));
    lemma_char_rt(s, pos, 'c');
    let p1 = pos + 1;
    lemma_subrange_concat(s, p1, e2, e3 + (e4 + (e5 + seq!['\n'])));
    lemma_str_rt(c.name, s, p1);
    let p2 = p1 + e2.len();
    lemma_subrange_concat(s, p2, e3, e4 + (e5 + seq!['\n']));
    lemma_str_rt(c.start, s, p2);
    let p3 = p2 + e3.len();
    lemma_subrange_concat(s, p3, e4, e5 + seq!['\n']);
    lemma_str_rt(c.end, s, p3);
    let p4 = p3 + e4.len();
    lemma_subrange_concat(s, p4, e5, seq!['\n']);
    lemma_loopopt_rt(c.loop_span, s, p4);
    let p5 = p4 + e5.len();
    lemma_char_rt(s, p5, '\n');
}

/// Reading a written clip list finds the clips.
proof fn lemma_clips_rt(cs: Seq<ClipView>, s: Seq<char>, pos: int)
    requires
        forall|i: int| 0 <= i < cs.len() ==> wf_clip(#[trigger] cs[i]),
        0 <= pos,
        pos + enc_clips(cs).len() <= s.len(),
        s.subrange(pos, pos + enc_clips(cs).len()) == enc_clips(cs),
    ensures
        sp_clips_at(s, pos, cs.len()) == Some((cs, pos + enc_clips(cs).len())),
    decreases cs.len(),
{
    if cs.len() == 0 {
        assert(sp_clips_at(s, pos, 0) == Some((Seq::<ClipView>::empty(), pos)));
        assert(cs =~= Seq::<ClipView>::empty());
    } else {
        let rest = cs.drop_first();
        lemma_subrange_concat(s, pos, enc_clip(cs[0]), enc_clips(rest));
        lemma_clip_rt(cs[0], s, pos);
        let p1 = pos + enc_clip(cs[0]).len();
        lemma_clips_rt(rest, s, p1);
        assert(seq![cs[0]] + rest =~= cs);
    }
}

/// Reading a written group finds the group.
proof fn lemma_group_rt(g: GroupView, s: Seq<char>, pos: int)
    requires
        wf_group(g),
        0 <= pos,
        pos + enc_group(g).len() <= s.len(),
        s.subrange(pos, pos + enc_group(g).len()) == enc_group(g),
    ensures
        sp_group_at(s, pos) == Some((g, pos + enc_group(g).len())),
{
    let e2 = enc_num_sp(g.id as nat);
    let e3 = enc_color(g.color);
    let e4 = enc_str(g.name);
    assert(enc_group(g) =~= seq!['g'] + (e2 + (e3 + (e4 + seq!['\n']))));
    lemma_subrange_concat(s, pos, seq!['g'], e2 + (e3 + (e4 + seq!['\n'])));
    lemma_char_rt(s, pos, 'g');
    let p1 = pos + 1;
    lemma_subrange_concat(s, p1, e2, e3 + (e4 + seq!['\n']));
    lemma_num_sp_rt(g.id as nat, s, p1);
    let p2 = p1 + e2.len();
    lemma_subrange_concat(s, p2, e3, e4 + seq!['\n']);
    lemma_color_rt(g.color, s, p2);
    let p3 = p2 + e3.len();
    lemma_subrange_concat(s, p3, e4, seq!['\n']);
    lemma_str_rt(g.name, s, p3);
    let p4 = p3 + e4.len();
    lemma_char_rt(s, p4, '\n');
}

/// Reading a written group list finds the groups.
proof fn lemma_groups_rt(gs: Seq<GroupView>, s: Seq<char>, pos: int)
    requires
        forall|i: int| 0 <= i < gs.len() ==> wf_group(#[trigger] gs[i]),
        0 <= pos,
        pos + enc_groups(gs).len() <= s.len(),
        s.subrange(pos, pos + enc_groups(gs).len()) == enc_groups(gs),
    ensures
        sp_groups_at(s, pos, gs.len()) == Some((gs, pos + enc_groups(gs).len())),
    decreases gs.len(),
{
    if gs.len() == 0 {
        assert(gs =~= Seq::<GroupView>::empty());
    } else {
        let rest = gs.drop_first();
        lemma_subrange_concat(s, pos, enc_group(gs[0]), enc_groups(rest));
        lemma_group_rt(gs[0], s, pos);
        let p1 = pos + enc_group(gs[0]).len();
        lemma_groups_rt(rest, s, p1);
        assert(seq![gs[0]] + rest =~= gs);
    }
}

/// Reading a written track finds the track and its clips.
proof fn lemma_track_rt(t: TrackView, s: Seq<char>, pos: int)
    requires
        wf_track(t),
        0 <= pos,
        pos + enc_track(t).len() <= s.len(),
        s.subrange(pos, pos + enc_track(t).len()) == enc_track(t),
    ensures
        sp_track_at(s, pos) == Some((t, pos + enc_track(t).len())),
{
    let e2 = enc_i32_sp(t.group_id);
    let e3 = enc_color(t.color);
    let e4 = enc_num_sp(t.clips.len());
    let e5 = enc_str(t.name);
    let e7 = enc_clips(t.clips);
    assert(enc_track(t) =~= seq!['t'] + (e2 + (e3 + (e4 + (e5 + (seq!['\n'] + e7))))));
    lemma_subrange_concat(s, pos, seq!['t'], e2 + (e3 + (e4 + (e5 + (seq!['\n'] + e7)))));
    lemma_char_rt(s, pos, 't');
    let p1 = pos + 1;
    lemma_subrange_concat(s, p1, e2, e3 + (e4 + (e5 + (seq!['\n'] + e7))));
    lemma_i32_sp_rt(t.group_id, s, p1);
    let p2 = p1 + e2.len();
    lemma_subrange_concat(s, p2, e3, e4 + (e5 + (seq!['\n'] + e7)));
    lemma_color_rt(t.color, s, p2);
    let p3 = p2 + e3.len();
    lemma_subrange_concat(s, p3, e4, e5 + (seq!['\n'] + e7));
    lemma_num_sp_rt(t.clips.len(), s, p3);
    let p4 = p3 + e4.len();
    lemma_subrange_concat(s, p4, e5, seq!['\n'] + e7);
    lemma_str_rt(t.name, s, p4);
    let p5 = p4 + e5.len();
    lemma_subrange_concat(s, p5, seq!['\n'], e7);
    lemma_char_rt(s, p5, '\n');
    let p6 = p5 + 1;
    lemma_clips_rt(t.clips, s, p6);
}

/// Reading a written track list finds the tracks.
proof fn lemma_tracks_rt(ts: Seq<TrackView>, s: Seq<char>, pos: int)
    requires
        forall|i: int| 0 <= i < ts.len() ==> wf_track(#[trigger] ts[i]),
        0 <= pos,
        pos + enc_tracks(ts).len() <= s.len(),
        s.subrange(pos, pos + enc_tracks(ts).len()) == enc_tracks(ts),
    ensures
        sp_tracks_at(s, pos, ts.len()) == Some((ts, pos + enc_tracks(ts).len())),
    decreases ts.len(),
{
    if ts.len() == 0 {
        assert(ts =~= Seq::<TrackView>::empty());
    } else {
        let rest = ts.drop_first();
        lemma_subrange_concat(s, pos, enc_track(ts[0]), enc_tracks(rest));
        lemma_track_rt(ts[0], s, pos);
        let p1 = pos + enc_track(ts[0]).len();
        lemma_tracks_rt(rest, s, p1);
        assert(seq![ts[0]] + rest =~= ts);
    }
}

/// Law: writing any well-formed record and reading it back yields the
/// record unchanged.  Every model held in executable vectors and strings
/// is well formed, so the cache never changes what it stores.
/// The eleven pieces of a record stand in the written text one after the
/// other, each at its own offset.
#[verifier::rlimit(100)]
proof fn lemma_record_pieces(a: AlsView)
    ensures
        ({
            let s = enc_record(a);
            let x2 = enc_str(a.name);
            let x5 = enc_num_sp(a.groups.len());
            let x7 = enc_groups(a.groups);
            let x9 = enc_num_sp(a.tracks.len());
            let x11 = enc_tracks(a.tracks);
            let p2: int = 1 + x2.len() as int;
            let p5: int = p2 + 2;
            let p6: int = p5 + x5.len() as int + 1;
            let p7: int = p6 + x7.len() as int;
            let p9: int = p7 + 1 + x9.len() as int;
            let p10: int = p9 + 1;
            &&& s.len() == p10 + x11.len()
            &&& s.subrange(0, 1) == seq!['A']
            &&& s.subrange(1, p2) == x2
            &&& s.subrange(p2, p2 + 1) == seq!['\n']
            &&& s.subrange(p2 + 1, p5) == seq!['G']
            &&& s.subrange(p5, p5 + x5.len() as int) == x5
            &&& s.subrange(p6 - 1, p6) == seq!['\n']
            &&& s.subrange(p6, p7) == x7
            &&& s.subrange(p7, p7 + 1) == seq!['T']
            &&& s.subrange(p7 + 1, p9) == x9
            &&& s.subrange(p9, p10) == seq!['\n']
            &&& s.subrange(p10, p10 + x11.len() as int) == x11
        }),
{
    let s = enc_record(a);
    let x2 = enc_str(a.name);
    let x5 = enc_num_sp(a.groups.len());
    let x7 = enc_groups(a.groups);
    let x9 = enc_num_sp(a.tracks.len());
    let x11 = enc_tracks(a.tracks);
    let t1 = seq!['A'];
    let t2 = t1 + x2;
    let t3 = t2 + seq!['\n'];
    let t4 = t3 + seq!['G'];
    let t5 = t4 + x5;
    let t6 = t5 + seq!['\n'];
    let t7 = t6 + x7;
    let t8 = t7 + seq!['T'];
    let t9 = t8 + x9;
    let t10 = t9 + seq!['\n'];
    assert(s.subrange(0, s.len() as int) =~= s);
    lemma_subrange_concat(s, 0, t10, x11);
    lemma_subrange_concat(s, 0, t9, seq!['\n']);
    lemma_subrange_concat(s, 0, t8, x9);
    lemma_subrange_concat(s, 0, t7, seq!['T']);
    lemma_subrange_concat(s, 0, t6, x7);
    lemma_subrange_concat(s, 0, t5, seq!['\n']);
    lemma_subrange_concat(s, 0, t4, x5);
    lemma_subrange_concat(s, 0, t3, seq!['G']);
    lemma_subrange_concat(s, 0, t2, seq!['\n']);
    lemma_subrange_concat(s, 0, t1, x2);
}

/// Law: writing any well-formed record and reading it back yields the
/// record unchanged.  Every model held in executable vectors and strings
/// is well formed, so the cache never changes what it stores.
#[verifier::rlimit(100)]
pub proof fn lemma_record_roundtrip(a: AlsView)
    requires
        wf_als(a),
    ensures
        sp_record(enc_record(a)) == Some(a),
{
    reveal(sp_record);
    let s = enc_record(a);
    let x2 = enc_str(a.name);
    let x5 = enc_num_sp(a.groups.len());
    let x7 = enc_groups(a.groups);
    let x9 = enc_num_sp(a.tracks.len());
    let x11 = enc_tracks(a.tracks);
    let p2: int = 1 + x2.len() as int;
    let p5: int = p2 + 2;
    let p6: int = p5 + x5.len() as int + 1;
    let p7: int = p6 + x7.len() as int;
    let p9: int = p7 + 1 + x9.len() as int;
    let p10: int = p9 + 1;
    lemma_record_pieces(a);
    lemma_char_rt(s, 0, 'A');
    lemma_str_rt(a.name, s, 1);
    lemma_char_rt(s, p2, '\n');
    lemma_char_rt(s, p2 + 1, 'G');
    lemma_num_sp_rt(a.groups.len(), s, p5);
    lemma_char_rt(s, p6 - 1, '\n');
    lemma_groups_rt(a.groups, s, p6);
    lemma_char_rt(s, p7, 'T');
    lemma_num_sp_rt(a.tracks.len(), s, p7 + 1);
    lemma_char_rt(s, p9, '\n');
    lemma_tracks_rt(a.tracks, s, p10);
}

/// Reads one exact character; mirrors [`sp_char_at`].
fn dec_char(s: &str, pos: usize, c: char) -> (r: Option<usize>)
    ensures
        match sp_char_at(s@, pos as int, c) {
            None => r is None,
            Some(e) => r matches Some(p) && p as int == e,
        },
{
    let len = s.unicode_len();
    if pos < len && s.get_char(pos) == c {
        Some(pos + 1)
    } else {
        None
    }
}

/// Reads a number and its closing space; mirrors [`sp_num_sp_at`].
fn dec_num_sp(s: &str, pos: usize) -> (r: Option<(u128, usize)>)
    ensures
        match sp_num_sp_at(s@, pos as int) {
            None => r is None,
            Some((n, e)) => r matches Some(p) && p.0 as nat == n && p.1 as int == e,
        },
{
    let len = s.unicode_len();
    match parse_num_at(s, pos) {
        None => None,
        Some((v, e)) => {
            if e < len && s.get_char(e) == ' ' {
                Some((v, e + 1))
            } else {
                None
            }
        },
    }
}

/// Reads a `u32` and its closing space; mirrors [`sp_u32_sp_at`].
fn dec_u32_sp(s: &str, pos: usize) -> (r: Option<(u32, usize)>)
    ensures
        match sp_u32_sp_at(s@, pos as int) {
            None => r is None,
            Some((v, e)) => r matches Some(p) && p.0 == v && p.1 as int == e,
        },
{
    match dec_num_sp(s, pos) {
        None => None,
        Some((v, e)) => {
            if v <= u32::MAX as u128 {
                Some((v as u32, e))
            } else {
                None
            }
        },
    }
}

/// Reads an `i32` and its closing space; mirrors [`sp_i32_sp_at`].
fn dec_i32_sp(s: &str, pos: usize) -> (r: Option<(i32, usize)>)
    ensures
        match sp_i32_sp_at(s@, pos as int) {
            None => r is None,
            Some((v, e)) => r matches Some(p) && p.0 == v && p.1 as int == e,
        },
{
    let len = s.unicode_len();
    if pos < len && s.get_char(pos) == '-' {
        match dec_num_sp(s, pos + 1) {
            None => None,
            Some((v, e)) => {
                if v <= 0x8000_0000u128 {
                    Some(((0i64 - v as i64) as i32, e))
                } else {
                    None
                }
            },
        }
    } else {
        match dec_num_sp(s, pos) {
            None => None,
            Some((v, e)) => {
                if v <= i32::MAX as u128 {
                    Some((v as i32, e))
                } else {
                    None
                }
            },
        }
    }
}

/// Reads an optional palette index; mirrors [`sp_color_at`].
fn dec_color(s: &str, pos: usize) -> (r: Option<(Option<u32>, usize)>)
    ensures
        match sp_color_at(s@, pos as int) {
            None => r is None,
            Some((v, e)) => r matches Some(p) && p.0 == v && p.1 as int == e,
        },
{
    let len = s.unicode_len();
    if pos < len && s.get_char(pos) == 'n' {
        if pos + 1 < len && s.get_char(pos + 1) == ' ' {
            Some((None, pos + 2))
        } else {
            None
        }
    } else if pos < len && s.get_char(pos) == 'c' {
        match dec_u32_sp(s, pos + 1) {
            None => None,
            Some((v, e)) => Some((Some(v), e)),
        }
    } else {
        None
    }
}

/// Reads a length-prefixed string; mirrors [`sp_str_at`].
fn dec_str(s: &str, pos: usize) -> (r: Option<(String, usize)>)
    ensures
        match sp_str_at(s@, pos as int) {
            None => r is None,
            Some((w, e)) => r matches Some(p) && p.0@ == w && p.1 as int == e,
        },
{
    let len = s.unicode_len();
    match parse_num_at(s, pos) {
        None => None,
        Some((v, e)) => {
            if e < len && s.get_char(e) == ':' && v <= (len - e - 1) as u128 {
                let l = v as usize;
                let w = s.substring_char(e + 1, e + 1 + l).to_owned();
                Some((w, e + 1 + l))
            } else {
                None
            }
        },
    }
}

/// Reads an optional loop span; mirrors [`sp_loopopt_at`].
fn dec_loopopt(s: &str, pos: usize) -> (r: Option<(Option<Loop>, usize)>)
    ensures
        match sp_loopopt_at(s@, pos as int) {
            None => r is None,
            Some((l, e)) => r matches Some(p) && p.1 as int == e && match (p.0, l) {
                (Some(pl), Some(lv)) => pl@ == lv,
                (None, None) => true,
                _ => false,
            },
        },
{
    let len = s.unicode_len();
    if pos < len && s.get_char(pos) == 'L' {
        match dec_str(s, pos + 1) {
            None => None,
            Some((a, e1)) => match dec_str(s, e1) {
                None => None,
                Some((b, e2)) => Some((Some(Loop { start: a, end: b }), e2)),
            },
        }
    } else if pos < len && s.get_char(pos) == 'x' {
        Some((None, pos + 1))
    } else {
        None
    }
}

/// Reads one clip; mirrors [`sp_clip_at`].
fn dec_clip(s: &str, pos: usize) -> (r: Option<(Clip, usize)>)
    ensures
        match sp_clip_at(s@, pos as int) {
            None => r is None,
            Some((c, e)) => r matches Some(p) && p.0@ == c && p.1 as int == e,
        },
{
    let p1 = match dec_char(s, pos, 'c') {
        Some(p) => p,
        None => {
            return None;
        },
    };
    let (name, p2) = match dec_str(s, p1) {
        Some(p) => p,
        None => {
            return None;
        },
    };
    let (start, p3) = match dec_str(s, p2) {
        Some(p) => p,
        None => {
            return None;
        },
    };
    let (end, p4) = match dec_str(s, p3) {
        Some(p) => p,
        None => {
            return None;
        },
    };
    let (loop_span, p5) = match dec_loopopt(s, p4) {
        Some(p) => p,
        None => {
            return None;
        },
    };
    let p6 = match dec_char(s, p5, '\n') {
        Some(p) => p,
        None => {
            return None;
        },
    };
    Some((Clip { name, start, end, loop_span }, p6))
}

/// Reads `cnt` clips; mirrors [`sp_clips_at`].
fn dec_clips(s: &str, pos: usize, cnt: u128) -> (r: Option<(Vec<Clip>, usize)>)
    ensures
        match sp_clips_at(s@, pos as int, cnt as nat) {
            None => r is None,
            Some((cs, e)) => r matches Some(p) && p.0@.map_values(|c: Clip| c@) == cs && p.1
                as int == e,
        },
{
    let mut acc: Vec<Clip> = Vec::new();
    let mut cur: usize = pos;
    let mut k: u128 = 0;
    proof {
        if let Some((cs, e)) = sp_clips_at(s@, pos as int, cnt as nat) {
            assert(acc@.map_values(|c: Clip| c@) + cs =~= cs);
        }
    }
    while k < cnt
        invariant
            k <= cnt,
            sp_clips_at(s@, pos as int, cnt as nat) == match sp_clips_at(
                s@,
                cur as int,
                (cnt - k) as nat,
            ) {
                Some((cs, e)) => Some((acc@.map_values(|c: Clip| c@) + cs, e)),
                None => None::<(Seq<ClipView>, int)>,
            },
        decreases cnt - k,
    {
        match dec_clip(s, cur) {
            None => {
                return None;
            },
            Some((c, e)) => {
                let ghost old_accv = acc@.map_values(|c: Clip| c@);
                acc.push(c);
                proof {
                    let accv = acc@.map_values(|c: Clip| c@);
                    assert(accv =~= old_accv + seq![c@]);
                    if let Some((cs, e2)) = sp_clips_at(s@, e as int, (cnt - k - 1) as nat) {
                        assert(old_accv + (seq![c@] + cs) =~= accv + cs);
                    }
                }
                cur = e;
                k = k + 1;
            },
        }
    }
    proof {
        let accv = acc@.map_values(|c: Clip| c@);
        assert(accv + Seq::<ClipView>::empty() =~= accv);
    }
    Some((acc, cur))
}

/// Reads one group; mirrors [`sp_group_at`].
fn dec_group(s: &str, pos: usize) -> (r: Option<(Group, usize)>)
    ensures
        match sp_group_at(s@, pos as int) {
            None => r is None,
            Some((g, e)) => r matches Some(p) && p.0@ == g && p.1 as int == e,
        },
{
    let p1 = match dec_char(s, pos, 'g') {
        Some(p) => p,
        None => {
            return None;
        },
    };
    let (id, p2) = match dec_u32_sp(s, p1) {
        Some(p) => p,
        None => {
            return None;
        },
    };
    let (color, p3) = match dec_color(s, p2) {
        Some(p) => p,
        None => {
            return None;
        },
    };
    let (name, p4) = match dec_str(s, p3) {
        Some(p) => p,
        None => {
            return None;
        },
    };
    let p5 = match dec_char(s, p4, '\n') {
        Some(p) => p,
        None => {
            return None;
        },
    };
    Some((Group { id, name, color }, p5))
}

/// Reads `cnt` groups; mirrors [`sp_groups_at`].
fn dec_groups(s: &str, pos: usize, cnt: u128) -> (r: Option<(Vec<Group>, usize)>)
    ensures
        match sp_groups_at(s@, pos as int, cnt as nat) {
            None => r is None,
            Some((gs, e)) => r matches Some(p) && p.0@.map_values(|g: Group| g@) == gs && p.1
                as int == e,
        },
{
    let mut acc: Vec<Group> = Vec::new();
    let mut cur: usize = pos;
    let mut k: u128 = 0;
    proof {
        if let Some((gs, e)) = sp_groups_at(s@, pos as int, cnt as nat) {
            assert(acc@.map_values(|g: Group| g@) + gs =~= gs);
        }
    }
    while k < cnt
        invariant
            k <= cnt,
            sp_groups_at(s@, pos as int, cnt as nat) == match sp_groups_at(
                s@,
                cur as int,
                (cnt - k) as nat,
            ) {
                Some((gs, e)) => Some((acc@.map_values(|g: Group| g@) + gs, e)),
                None => None::<(Seq<GroupView>, int)>,
            },
        decreases cnt - k,
    {
        match dec_group(s, cur) {
            None => {
                return None;
            },
            Some((g, e)) => {
                let ghost old_accv = acc@.map_values(|g: Group| g@);
                acc.push(g);
                proof {
                    let accv = acc@.map_values(|g: Group| g@);
                    assert(accv =~= old_accv + seq![g@]);
                    if let Some((gs, e2)) = sp_groups_at(s@, e as int, (cnt - k - 1) as nat) {
                        assert(old_accv + (seq![g@] + gs) =~= accv + gs);
                    }
                }
                cur = e;
                k = k + 1;
            },
        }
    }
    proof {
        let accv = acc@.map_values(|g: Group| g@);
        assert(accv + Seq::<GroupView>::empty() =~= accv);
    }
    Some((acc, cur))
}

/// Reads one track and its clips; mirrors [`sp_track_at`].
fn dec_track(s: &str, pos: usize) -> (r: Option<(Track, usize)>)
    ensures
        match sp_track_at(s@, pos as int) {
            None => r is None,
            Some((t, e)) => r matches Some(p) && p.0@ == t && p.1 as int == e,
        },
{
    let p1 = match dec_char(s, pos, 't') {
        Some(p) => p,
        None => {
            return None;
        },
    };
    let (group_id, p2) = match dec_i32_sp(s, p1) {
        Some(p) => p,
        None => {
            return None;
        },
    };
    let (color, p3) = match dec_color(s, p2) {
        Some(p) => p,
        None => {
            return None;
        },
    };
    let (cnt, p4) = match dec_num_sp(s, p3) {
        Some(p) => p,
        None => {
            return None;
        },
    };
    let (name, p5) = match dec_str(s, p4) {
        Some(p) => p,
        None => {
            return None;
        },
    };
    let p6 = match dec_char(s, p5, '\n') {
        Some(p) => p,
        None => {
            return None;
        },
    };
    let (clips, p7) = match dec_clips(s, p6, cnt) {
        Some(p) => p,
        None => {
            return None;
        },
    };
    Some((Track { group_id, name, color, clips }, p7))
}

/// Reads `cnt` tracks; mirrors [`sp_tracks_at`].
fn dec_tracks(s: &str, pos: usize, cnt: u128) -> (r: Option<(Vec<Track>, usize)>)
    ensures
        match sp_tracks_at(s@, pos as int, cnt as nat) {
            None => r is None,
            Some((ts, e)) => r matches Some(p) && p.0@.map_values(|t: Track| t@) == ts && p.1
                as int == e,
        },
{
    let mut acc: Vec<Track> = Vec::new();
    let mut cur: usize = pos;
    let mut k: u128 = 0;
    proof {
        if let Some((ts, e)) = sp_tracks_at(s@, pos as int, cnt as nat) {
            assert(acc@.map_values(|t: Track| t@) + ts =~= ts);
        }
    }
    while k < cnt
        invariant
            k <= cnt,
            sp_tracks_at(s@, pos as int, cnt as nat) == match sp_tracks_at(
                s@,
                cur as int,
                (cnt - k) as nat,
            ) {
                Some((ts, e)) => Some((acc@.map_values(|t: Track| t@) + ts, e)),
                None => None::<(Seq<TrackView>, int)>,
            },
        decreases cnt - k,
    {
        match dec_track(s, cur) {
            None => {
                return None;
            },
            Some((t, e)) => {
                let ghost old_accv = acc@.map_values(|t: Track| t@);
                acc.push(t);
                proof {
                    let accv = acc@.map_values(|t: Track| t@);
                    assert(accv =~= old_accv + seq![t@]);
                    if let Some((ts, e2)) = sp_tracks_at(s@, e as int, (cnt - k - 1) as nat) {
                        assert(old_accv + (seq![t@] + ts) =~= accv + ts);
                    }
                }
                cur = e;
                k = k + 1;
            },
        }
    }
    proof {
        let accv = acc@.map_values(|t: Track| t@);
        assert(accv + Seq::<TrackView>::empty() =~= accv);
    }
    Some((acc, cur))
}

/// Reads back one whole record; mirrors [`sp_record`].
pub fn decode_record(s: &str) -> (r: Option<AlsData>)
    ensures
        match sp_record(s@) {
            None => r is None,
            Some(v) => r matches Some(a) && a@ == v,
        },
{
    proof {
        reveal(sp_record);
    }
    let len = s.unicode_len();
    let p1 = match dec_char(s, 0, 'A') {
        Some(p) => p,
        None => {
            return None;
        },
    };
    let (name, p2) = match dec_str(s, p1) {
        Some(p) => p,
        None => {
            return None;
        },
    };
    let p3 = match dec_char(s, p2, '\n') {
        Some(p) => p,
        None => {
            return None;
        },
    };
    let p4 = match dec_char(s, p3, 'G') {
        Some(p) => p,
        None => {
            return None;
        },
    };
    let (gcnt, p5) = match dec_num_sp(s, p4) {
        Some(p) => p,
        None => {
            return None;
        },
    };
    let p6 = match dec_char(s, p5, '\n') {
        Some(p) => p,
        None => {
            return None;
        },
    };
    let (groups, p7) = match dec_groups(s, p6, gcnt) {
        Some(p) => p,
        None => {
            return None;
        },
    };
    let p8 = match dec_char(s, p7, 'T') {
        Some(p) => p,
        None => {
            return None;
        },
    };
    let (tcnt, p9) = match dec_num_sp(s, p8) {
        Some(p) => p,
        None => {
            return None;
        },
    };
    let p10 = match dec_char(s, p9, '\n') {
        Some(p) => p,
        None => {
            return None;
        },
    };
    let (tracks, p11) = match dec_tracks(s, p10, tcnt) {
        Some(p) => p,
        None => {
            return None;
        },
    };
    if p11 != len {
        return None;
    }
    Some(AlsData { name, groups, tracks })
}

/// Appends a number and its closing space.
fn push_num_sp(n: u64, out: &mut String)
    ensures
        final(out)@ == old(out)@ + enc_num_sp(n as nat),
{
    push_dec_u64(n, out);
    out.append(" ");
    proof {
        reveal_strlit(" ");
        assert(" "@ =~= seq![' ']);
        assert(out@ =~= old(out)@ + enc_num_sp(n as nat));
    }
}

/// Appends a signed number and its closing space.
fn push_i32_sp(v: i32, out: &mut String)
    ensures
        final(out)@ == old(out)@ + enc_i32_sp(v),
{
    if v < 0 {
        out.append("-");
        proof {
            reveal_strlit("-");
            assert("-"@ =~= seq!['-']);
        }
        let m: u64 = (0i64 - v as i64) as u64;
        push_num_sp(m, out);
        proof {
            assert(out@ =~= old(out)@ + enc_i32_sp(v));
        }
    } else {
        push_num_sp(v as u64, out);
    }
}

/// Appends an optional palette index.
fn push_color(c: &Option<u32>, out: &mut String)
    ensures
        final(out)@ == old(out)@ + enc_color(*c),
{
    match c {
        None => {
            out.append("n ");
            proof {
                reveal_strlit("n ");
                assert("n "@ =~= seq!['n', ' ']);
            }
        },
        Some(v) => {
            out.append("c");
            proof {
                reveal_strlit("c");
                assert("c"@ =~= seq!['c']);
            }
            push_num_sp(*v as u64, out);
            proof {
                assert(out@ =~= old(out)@ + enc_color(*c));
            }
        },
    }
}

/// Appends a length-prefixed string.
fn push_str_enc(w: &str, out: &mut String)
    ensures
        final(out)@ == old(out)@ + enc_str(w@),
        wf_str(w@),
{
    let len = w.unicode_len();
    push_dec_u64(len as u64, out);
    out.append(":");
    out.append(w);
    proof {
        reveal_strlit(":");
        assert(":"@ =~= seq![':']);
        assert(out@ =~= old(out)@ + enc_str(w@));
    }
}

/// Appends one clip.
fn push_clip(c: &Clip, out: &mut String)
    ensures
        final(out)@ == old(out)@ + enc_clip(c@),
        wf_clip(c@),
{
    out.append("c");
    proof {
        reveal_strlit("c");
        assert("c"@ =~= seq!['c']);
    }
    push_str_enc(c.name.as_str(), out);
    push_str_enc(c.start.as_str(), out);
    push_str_enc(c.end.as_str(), out);
    match &c.loop_span {
        Some(l) => {
            out.append("L");
            proof {
                reveal_strlit("L");
                assert("L"@ =~= seq!['L']);
            }
            push_str_enc(l.start.as_str(), out);
            push_str_enc(l.end.as_str(), out);
        },
        None => {
            out.append("x");
            proof {
                reveal_strlit("x");
                assert("x"@ =~= seq!['x']);
            }
        },
    }
    out.append("\n");
    proof {
        reveal_strlit("\n");
        assert("\n"@ =~= seq!['\n']);
        assert(out@ =~= old(out)@ + enc_clip(c@));
    }
}

/// Appending one more item extends a list encoding at its end.
pub proof fn lemma_enc_clips_snoc(cs: Seq<ClipView>)
    requires
        cs.len() > 0,
    ensures
        enc_clips(cs) == enc_clips(cs.drop_last()) + enc_clip(cs.last()),
    decreases cs.len(),
{
    if cs.len() == 1 {
        assert(cs.drop_first() =~= Seq::<ClipView>::empty());
        assert(cs.drop_last() =~= Seq::<ClipView>::empty());
        assert(enc_clips(cs.drop_first()) =~= Seq::<char>::empty());
        assert(enc_clips(cs) =~= enc_clip(cs[0]) + enc_clips(cs.drop_first()));
        assert(enc_clips(cs) =~= enc_clips(cs.drop_last()) + enc_clip(cs.last()));
    } else {
        lemma_enc_clips_snoc(cs.drop_first());
        assert(cs.drop_first().drop_last() =~= cs.drop_last().drop_first());
        assert(cs.drop_first().last() == cs.last());
        assert(cs.drop_last()[0] == cs[0]);
        assert(enc_clips(cs.drop_last()) == enc_clip(cs[0]) + enc_clips(
            cs.drop_last().drop_first(),
        ));
        assert(enc_clips(cs) =~= enc_clips(cs.drop_last()) + enc_clip(cs.last()));
    }
}

/// Appending one more item extends a list encoding at its end.
pub proof fn lemma_enc_groups_snoc(gs: Seq<GroupView>)
    requires
        gs.len() > 0,
    ensures
        enc_groups(gs) == enc_groups(gs.drop_last()) + enc_group(gs.last()),
    decreases gs.len(),
{
    if gs.len() == 1 {
        assert(gs.drop_first() =~= Seq::<GroupView>::empty());
        assert(gs.drop_last() =~= Seq::<GroupView>::empty());
        assert(enc_groups(gs) =~= enc_groups(gs.drop_last()) + enc_group(gs.last()));
    } else {
        lemma_enc_groups_snoc(gs.drop_first());
        assert(gs.drop_first().drop_last() =~= gs.drop_last().drop_first());
        assert(gs.drop_first().last() == gs.last());
        assert(gs.drop_last()[0] == gs[0]);
        assert(enc_groups(gs.drop_last()) == enc_group(gs[0]) + enc_groups(
            gs.drop_last().drop_first(),
        ));
        assert(enc_groups(gs) =~= enc_groups(gs.drop_last()) + enc_group(gs.last()));
    }
}

/// Appending one more item extends a list encoding at its end.
pub proof fn lemma_enc_tracks_snoc(ts: Seq<TrackView>)
    requires
        ts.len() > 0,
    ensures
        enc_tracks(ts) == enc_tracks(ts.drop_last()) + enc_track(ts.last()),
    decreases ts.len(),
{
    if ts.len() == 1 {
        assert(ts.drop_first() =~= Seq::<TrackView>::empty());
        assert(ts.drop_last() =~= Seq::<TrackView>::empty());
        assert(enc_tracks(ts) =~= enc_tracks(ts.drop_last()) + enc_track(ts.last()));
    } else {
        lemma_enc_tracks_snoc(ts.drop_first());
        assert(ts.drop_first().drop_last() =~= ts.drop_last().drop_first());
        assert(ts.drop_first().last() == ts.last());
        assert(ts.drop_last()[0] == ts[0]);
        assert(enc_tracks(ts.drop_last()) == enc_track(ts[0]) + enc_tracks(
            ts.drop_last().drop_first(),
        ));
        assert(enc_tracks(ts) =~= enc_tracks(ts.drop_last()) + enc_track(ts.last()));
    }
}

/// Appends one track and its clips.
fn push_track(t: &Track, out: &mut String)
    ensures
        final(out)@ == old(out)@ + enc_track(t@),
        wf_track(t@),
{
    out.append("t");
    proof {
        reveal_strlit("t");
        assert("t"@ =~= seq!['t']);
    }
    push_i32_sp(t.group_id, out);
    push_color(&t.color, out);
    let nclips = t.clips.len();
    push_num_sp(nclips as u64, out);
    push_str_enc(t.name.as_str(), out);
    out.append("\n");
    proof {
        reveal_strlit("\n");
        assert("\n"@ =~= seq!['\n']);
    }
    let ghost base = out@;
    let ghost cv = t@.clips;
    let mut k: usize = 0;
    proof {
        assert(cv.take(0) =~= Seq::<ClipView>::empty());
        assert(out@ =~= base + enc_clips(cv.take(0)));
    }
    while k < nclips
        invariant
            k <= nclips,
            nclips == t.clips@.len(),
            cv == t@.clips,
            cv.len() == nclips,
            out@ == base + enc_clips(cv.take(k as int)),
            forall|i: int| 0 <= i < k ==> wf_clip(#[trigger] cv[i]),
        decreases nclips - k,
    {
        proof {
            assert(cv[k as int] == t.clips@[k as int]@);
        }
        push_clip(&t.clips[k], out);
        proof {
            let taken = cv.take(k + 1);
            assert(taken.drop_last() =~= cv.take(k as int));
            assert(taken.last() == cv[k as int]);
            lemma_enc_clips_snoc(taken);
            assert(out@ =~= base + enc_clips(taken));
        }
        k = k + 1;
    }
    proof {
        assert(cv.take(nclips as int) =~= cv);
        assert(out@ =~= old(out)@ + enc_track(t@));
    }
}

/// Appends one group.
fn push_group(g: &Group, out: &mut String)
    ensures
        final(out)@ == old(out)@ + enc_group(g@),
        wf_group(g@),
{
    out.append("g");
    proof {
        reveal_strlit("g");
        assert("g"@ =~= seq!['g']);
    }
    push_num_sp(g.id as u64, out);
    push_color(&g.color, out);
    push_str_enc(g.name.as_str(), out);
    out.append("\n");
    proof {
        reveal_strlit("\n");
        assert("\n"@ =~= seq!['\n']);
        assert(out@ =~= old(out)@ + enc_group(g@));
    }
}

/// Writes one record; any model held in executable vectors and strings is
/// well formed, so the result is exactly its encoding.
pub fn encode_record(a: &AlsData) -> (r: String)
    ensures
        r@ == enc_record(a@),
        wf_als(a@),
{
    let mut out = String::new();
    out.append("A");
    proof {
        reveal_strlit("A");
        assert("A"@ =~= seq!['A']);
    }
    push_str_enc(a.name.as_str(), &mut out);
    out.append("\nG");
    proof {
        reveal_strlit("\nG");
        assert("\nG"@ =~= seq!['\n', 'G']);
    }
    let ngroups = a.groups.len();
    push_num_sp(ngroups as u64, &mut out);
    out.append("\n");
    proof {
        reveal_strlit("\n");
        assert("\n"@ =~= seq!['\n']);
    }
    let ghost gv = a@.groups;
    let ghost base_g = out@;
    let mut k: usize = 0;
    proof {
        assert(gv.take(0) =~= Seq::<GroupView>::empty());
        assert(out@ =~= base_g + enc_groups(gv.take(0)));
    }
    while k < ngroups
        invariant
            k <= ngroups,
            ngroups == a.groups@.len(),
            gv == a@.groups,
            gv.len() == ngroups,
            out@ == base_g + enc_groups(gv.take(k as int)),
            forall|i: int| 0 <= i < k ==> wf_group(#[trigger] gv[i]),
        decreases ngroups - k,
    {
        proof {
            assert(gv[k as int] == a.groups@[k as int]@);
        }
        push_group(&a.groups[k], &mut out);
        proof {
            let taken = gv.take(k + 1);
            assert(taken.drop_last() =~= gv.take(k as int));
            assert(taken.last() == gv[k as int]);
            lemma_enc_groups_snoc(taken);
            assert(out@ =~= base_g + enc_groups(taken));
        }
        k = k + 1;
    }
    proof {
        assert(gv.take(ngroups as int) =~= gv);
    }
    out.append("T");
    proof {
        reveal_strlit("T");
        assert("T"@ =~= seq!['T']);
    }
    let ntracks = a.tracks.len();
    push_num_sp(ntracks as u64, &mut out);
    out.append("\n");
    proof {
        reveal_strlit("\n");
        assert("\n"@ =~= seq!['\n']);
    }
    let ghost tv = a@.tracks;
    let ghost base_t = out@;
    let mut k2: usize = 0;
    proof {
        assert(tv.take(0) =~= Seq::<TrackView>::empty());
        assert(out@ =~= base_t + enc_tracks(tv.take(0)));
    }
    while k2 < ntracks
        invariant
            k2 <= ntracks,
            ntracks == a.tracks@.len(),
            tv == a@.tracks,
            tv.len() == ntracks,
            out@ == base_t + enc_tracks(tv.take(k2 as int)),
            forall|i: int| 0 <= i < k2 ==> wf_track(#[trigger] tv[i]),
        decreases ntracks - k2,
    {
        proof {
            assert(tv[k2 as int] == a.tracks@[k2 as int]@);
        }
        push_track(&a.tracks[k2], &mut out);
        proof {
            let taken = tv.take(k2 + 1);
            assert(taken.drop_last() =~= tv.take(k2 as int));
            assert(taken.last() == tv[k2 as int]);
            lemma_enc_tracks_snoc(taken);
            assert(out@ =~= base_t + enc_tracks(taken));
        }
        k2 = k2 + 1;
    }
    proof {
        assert(tv.take(ntracks as int) =~= tv);
        assert(out@ =~= enc_record(a@));
    }
    out
}

} // verus!
