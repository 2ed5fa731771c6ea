//! Tests of the document parser: chained lookups, sentinel defaults, the
//! mandatory loop child, and document-order preservation.

use palsa::parse::als::AlsData;
use palsa::parse::{parse_als, ParseError};

fn doc(body: &str) -> String {
    format!("<Ableton>{}</Ableton>", body)
}

fn track(name: &str, gid: &str, clips: &str) -> String {
    format!(
        "<MidiTrack>{}<Name><EffectiveName Value=\"{}\"/></Name>{}</MidiTrack>",
        gid, name, clips
    )
}

fn clip(name: &str, start: &str, end: &str, with_loop: bool) -> String {
    let loop_part = if with_loop {
        "<Loop><LoopStart Value=\"0\"/><LoopEnd Value=\"4\"/></Loop>"
    } else {
        ""
    };
    format!(
        "<MidiClip><Name Value=\"{}\"/>{}{}{}</MidiClip>",
        name, start, end, loop_part
    )
}

#[test]
fn parses_two_tracks_in_document_order() {
    let xml = doc(&format!(
        "{}{}",
        track("First", "", ""),
        track("Second", "", "")
    ));
    let a = AlsData::parse("song".to_string(), xml).unwrap();
    assert_eq!(a.name, "song");
    assert_eq!(a.tracks.len(), 2);
    assert_eq!(a.tracks[0].name, "First");
    assert_eq!(a.tracks[1].name, "Second");
    assert!(a.groups.is_empty());
}

#[test]
fn mixed_track_kinds_keep_document_order() {
    let xml = doc(
        "<AudioTrack><Name><EffectiveName Value=\"a\"/></Name></AudioTrack>\
         <ReturnTrack><Name><EffectiveName Value=\"r\"/></Name></ReturnTrack>\
         <MidiTrack><Name><EffectiveName Value=\"m\"/></Name></MidiTrack>",
    );
    let a = AlsData::parse("song".to_string(), xml).unwrap();
    let names: Vec<&str> = a.tracks.iter().map(|t| t.name.as_str()).collect();
    assert_eq!(names, vec!["a", "r", "m"]);
}

#[test]
fn clips_keep_document_order_within_track() {
    let clips = format!(
        "{}{}",
        clip("c1", "<CurrentStart Value=\"1\"/>", "", true),
        clip("c2", "<CurrentStart Value=\"2\"/>", "", true)
    );
    let xml = doc(&track("t", "", &clips));
    let a = AlsData::parse("song".to_string(), xml).unwrap();
    assert_eq!(a.tracks.len(), 1);
    let t = &a.tracks[0];
    assert_eq!(t.clips.len(), 2);
    assert_eq!(t.clips[0].name, "c1");
    assert_eq!(t.clips[0].start, "1");
    assert_eq!(t.clips[1].name, "c2");
    assert_eq!(t.clips[1].start, "2");
}

#[test]
fn clip_without_bounds_gets_sentinel() {
    let xml = doc(&track("t", "", &clip("c", "", "", true)));
    let a = AlsData::parse("song".to_string(), xml).unwrap();
    let c = &a.tracks[0].clips[0];
    assert_eq!(c.start, "-1");
    assert_eq!(c.end, "-1");
    assert_eq!(c.start.parse::<f32>().unwrap(), -1.0);
    assert_eq!(c.end.parse::<f32>().unwrap(), -1.0);
}

#[test]
fn clip_with_unparseable_bound_gets_sentinel() {
    let xml = doc(&track(
        "t",
        "",
        &clip("c", "<CurrentStart Value=\"abc\"/>", "<CurrentEnd Value=\"7.5\"/>", true),
    ));
    let a = AlsData::parse("song".to_string(), xml).unwrap();
    let c = &a.tracks[0].clips[0];
    assert_eq!(c.start, "-1");
    assert_eq!(c.end, "7.5");
    assert_eq!(c.end.parse::<f32>().unwrap(), 7.5);
}

#[test]
fn track_without_group_attribute_gets_sentinel() {
    let xml = doc(&track("t", "", ""));
    let a = AlsData::parse("song".to_string(), xml).unwrap();
    assert_eq!(a.tracks[0].group_id, -1);
    assert_eq!(a.tracks[0].color, None);
}

#[test]
fn track_group_id_is_read_through_lookup() {
    let xml = doc(&track(
        "t",
        "<TrackGroupId Value=\"17\"/>",
        "",
    ));
    let a = AlsData::parse("song".to_string(), xml).unwrap();
    assert_eq!(a.tracks[0].group_id, 17);
}

#[test]
fn negative_group_id_parses() {
    let xml = doc(&track("t", "<TrackGroupId Value=\"-1\"/>", ""));
    let a = AlsData::parse("song".to_string(), xml).unwrap();
    assert_eq!(a.tracks[0].group_id, -1);
}

#[test]
fn clip_without_loop_fails_the_file() {
    let xml = doc(&track("t", "", &clip("c", "", "", false)));
    let r = AlsData::parse("song".to_string(), xml);
    assert_eq!(
        r,
        Err(ParseError::MissingTag {
            path: vec!["Loop".to_string()]
        })
    );
}

#[test]
fn loop_with_unparseable_bound_fails_the_file() {
    let xml = doc(&track(
        "t",
        "",
        "<MidiClip><Name Value=\"c\"/><Loop><LoopStart Value=\"zero\"/><LoopEnd Value=\"4\"/></Loop></MidiClip>",
    ));
    let r = AlsData::parse("song".to_string(), xml);
    assert_eq!(
        r,
        Err(ParseError::BadNumber {
            path: vec!["LoopStart".to_string()]
        })
    );
}

#[test]
fn loop_bounds_are_kept() {
    let xml = doc(&track("t", "", &clip("c", "", "", true)));
    let a = AlsData::parse("song".to_string(), xml).unwrap();
    let l = a.tracks[0].clips[0].loop_span.as_ref().unwrap();
    assert_eq!(l.start, "0");
    assert_eq!(l.end, "4");
    assert_eq!(l.start.parse::<f64>().unwrap(), 0.0);
    assert_eq!(l.end.parse::<f64>().unwrap(), 4.0);
}

#[test]
fn missing_name_chain_fails_the_file() {
    let xml = doc("<MidiTrack><Name/></MidiTrack>");
    let r = AlsData::parse("song".to_string(), xml);
    assert_eq!(
        r,
        Err(ParseError::MissingTag {
            path: vec!["Name".to_string(), "EffectiveName".to_string()]
        })
    );
}

#[test]
fn missing_value_attribute_fails_the_file() {
    let xml = doc("<MidiTrack><Name><EffectiveName/></Name></MidiTrack>");
    let r = AlsData::parse("song".to_string(), xml);
    assert_eq!(
        r,
        Err(ParseError::MissingAttr {
            path: vec![
                "Name".to_string(),
                "EffectiveName".to_string(),
                "Value".to_string()
            ]
        })
    );
}

#[test]
fn group_parses_with_id_and_name() {
    let xml = doc(
        "<GroupTrack Id=\"3\"><Name><EffectiveName Value=\"Drums\"/></Name></GroupTrack>",
    );
    let a = AlsData::parse("song".to_string(), xml).unwrap();
    assert_eq!(a.groups.len(), 1);
    assert_eq!(a.groups[0].id, 3);
    assert_eq!(a.groups[0].name, "Drums");
    assert_eq!(a.groups[0].color, None);
}

#[test]
fn group_with_bad_id_fails_the_file() {
    let xml = doc(
        "<GroupTrack Id=\"abc\"><Name><EffectiveName Value=\"g\"/></Name></GroupTrack>",
    );
    let r = AlsData::parse("song".to_string(), xml);
    assert_eq!(
        r,
        Err(ParseError::BadNumber {
            path: vec!["Id".to_string()]
        })
    );
}

#[test]
fn group_without_id_fails_the_file() {
    let xml = doc("<GroupTrack><Name><EffectiveName Value=\"g\"/></Name></GroupTrack>");
    let r = AlsData::parse("song".to_string(), xml);
    assert_eq!(
        r,
        Err(ParseError::MissingAttr {
            path: vec!["Id".to_string()]
        })
    );
}

#[test]
fn garbage_text_is_not_xml() {
    let r = AlsData::parse("song".to_string(), "not xml at all <".to_string());
    assert_eq!(r, Err(ParseError::NotXml));
}

#[test]
fn parse_als_yields_tracks_only() {
    let xml = doc(&format!(
        "{}{}",
        track("First", "", ""),
        "<GroupTrack Id=\"1\"><Name><EffectiveName Value=\"g\"/></Name></GroupTrack>"
    ));
    let tracks = parse_als(xml).unwrap();
    assert_eq!(tracks.len(), 1);
    assert_eq!(tracks[0].name, "First");
}

#[test]
fn parse_error_messages_name_the_path() {
    let e = ParseError::MissingTag {
        path: vec!["Name".to_string(), "EffectiveName".to_string()],
    };
    assert_eq!(e.message(), "missing tag Name/EffectiveName");
    let e = ParseError::MissingAttr {
        path: vec!["Id".to_string()],
    };
    assert_eq!(e.message(), "missing attribute Id");
    let e = ParseError::BadNumber {
        path: vec!["LoopEnd".to_string()],
    };
    assert_eq!(e.message(), "bad number at LoopEnd");
    assert_eq!(ParseError::NotXml.message(), "not a well-formed document");
}

#[test]
fn init_colors_fills_the_palette_with_purple() {
    let colors = palsa::init_colors();
    assert_eq!(colors.len(), 70);
    assert!(colors.iter().all(|c| c == "800080"));
}
