//! Tests of the extractor, the parallel per-project parse with failure
//! aggregation, the planner, and the whole orchestrated run.

use std::io::Write;

use palsa::cache::CacheStore;
use palsa::extract::{extract, ExtractError};
use palsa::palsa::{file_stem, has_als_ext, plan_project, run_palsa, ProjectInput};
use palsa::parallel::{parallel_parse_dir, AlsFile, FileContent};
use palsa::parse::als::Project;

fn gzip(text: &str) -> Vec<u8> {
    let mut encoder =
        flate2::write::GzEncoder::new(Vec::new(), flate2::Compression::default());
    encoder.write_all(text.as_bytes()).unwrap();
    encoder.finish().unwrap()
}

fn valid_xml() -> String {
    "<Ableton>\
     <MidiTrack><Name><EffectiveName Value=\"Lead\"/></Name>\
     <MidiClip><Name Value=\"intro\"/>\
     <Loop><LoopStart Value=\"0\"/><LoopEnd Value=\"4\"/></Loop></MidiClip>\
     </MidiTrack>\
     <AudioTrack><Name><EffectiveName Value=\"Vox\"/></Name></AudioTrack>\
     </Ableton>"
        .to_string()
}

#[test]
fn extract_inflates_what_was_deflated() {
    let bytes = gzip("hello container");
    assert_ne!(bytes, b"hello container");
    assert_eq!(extract(&bytes).unwrap(), "hello container");
}

#[test]
fn extract_rejects_corrupt_bytes() {
    let bytes = vec![1u8, 2, 3, 4, 5];
    assert_eq!(extract(&bytes), Err(ExtractError::Decode));
}

#[test]
fn extract_rejects_a_non_text_payload() {
    // Valid gzip framing around bytes that are not text.
    let mut encoder =
        flate2::write::GzEncoder::new(Vec::new(), flate2::Compression::default());
    encoder.write_all(&[0xffu8, 0xfe, 0x00, 0x80]).unwrap();
    let bytes = encoder.finish().unwrap();
    assert_eq!(extract(&bytes), Err(ExtractError::Decode));
}

#[test]
fn parallel_parse_keeps_file_order() {
    let files = vec![
        AlsFile {
            name: "A".to_string(),
            content: FileContent::Bytes(gzip(&valid_xml())),
        },
        AlsFile {
            name: "B".to_string(),
            content: FileContent::Bytes(gzip(&valid_xml())),
        },
    ];
    let data = parallel_parse_dir("Song", &files).unwrap();
    assert_eq!(data.len(), 2);
    assert_eq!(data[0].name, "A");
    assert_eq!(data[1].name, "B");
    assert_eq!(data[0].tracks.len(), 2);
    assert_eq!(data[0].tracks[0].name, "Lead");
    assert_eq!(data[0].tracks[1].name, "Vox");
}

#[test]
fn corrupt_files_are_each_named_in_the_project_failure() {
    let files = vec![
        AlsFile {
            name: "good".to_string(),
            content: FileContent::Bytes(gzip(&valid_xml())),
        },
        AlsFile {
            name: "bad1".to_string(),
            content: FileContent::Bytes(vec![0u8, 1, 2]),
        },
        AlsFile {
            name: "bad2".to_string(),
            content: FileContent::Bytes(vec![9u8, 9]),
        },
    ];
    let err = parallel_parse_dir("Song", &files).unwrap_err();
    assert_eq!(
        err,
        "Song: bad1: not a gzip text container, bad2: not a gzip text container"
    );
}

#[test]
fn unreadable_file_fault_is_carried_through() {
    let files = vec![AlsFile {
        name: "gone".to_string(),
        content: FileContent::Unreadable("permission denied".to_string()),
    }];
    let err = parallel_parse_dir("Song", &files).unwrap_err();
    assert_eq!(err, "Song: gone: permission denied");
}

#[test]
fn planner_filters_extension_and_cached_files() {
    let mut store = CacheStore::new();
    let xml = valid_xml();
    let parsed = palsa::parse::als::AlsData::parse("A".to_string(), xml).unwrap();
    store.put("Song", &parsed);
    let names = vec![
        "A.als".to_string(),
        "B.als".to_string(),
        "notes.txt".to_string(),
    ];
    let planned = plan_project("Song", &names, &store);
    assert_eq!(planned, vec!["B.als".to_string()]);
}

#[test]
fn file_name_helpers_split_the_extension() {
    assert!(has_als_ext("A.als"));
    assert!(!has_als_ext("A.txt"));
    assert!(!has_als_ext("als"));
    assert_eq!(file_stem("My Song.als"), "My Song");
}

#[test]
fn end_to_end_scenario() {
    // First run: Song holds a valid file A and a corrupt file B.
    let mut store = CacheStore::new();
    let a_bytes = gzip(&valid_xml());
    let inputs = vec![ProjectInput {
        name: "Song".to_string(),
        files: vec![
            AlsFile {
                name: "A".to_string(),
                content: FileContent::Bytes(a_bytes.clone()),
            },
            AlsFile {
                name: "B".to_string(),
                content: FileContent::Bytes(b"corrupt".to_vec()),
            },
        ],
    }];
    let err = run_palsa(&inputs, &mut store).unwrap_err();
    assert!(err.contains("B"));
    assert!(!err.contains("A:"));
    assert_eq!(err, "Song: B: not a gzip text container");
    assert!(store.entries.is_empty());

    // Second run: B was removed; the run succeeds and fills the cache.
    let inputs = vec![ProjectInput {
        name: "Song".to_string(),
        files: vec![AlsFile {
            name: "A".to_string(),
            content: FileContent::Bytes(a_bytes),
        }],
    }];
    let projects = run_palsa(&inputs, &mut store).unwrap();
    assert_eq!(projects.len(), 1);
    assert_eq!(projects[0].name, "Song");
    let als = projects[0].als_data.as_ref().unwrap();
    assert_eq!(als.len(), 1);
    assert_eq!(als[0].name, "A");
    assert_eq!(als[0].tracks.len(), 2);
    assert_eq!(store.entries.len(), 1);
    assert_eq!(store.entries[0].project, "Song");
    assert_eq!(store.entries[0].file, "A");

    // Third run: everything is cached, so nothing is planned or parsed,
    // and the same model comes back from the cache alone.
    let planned = plan_project("Song", &vec!["A.als".to_string()], &store);
    assert!(planned.is_empty());
    let inputs = vec![ProjectInput {
        name: "Song".to_string(),
        files: vec![],
    }];
    let again = run_palsa(&inputs, &mut store).unwrap();
    assert_eq!(again, projects);
    assert_eq!(store.entries.len(), 1);
}

#[test]
fn empty_run_succeeds_with_nothing() {
    let mut store = CacheStore::new();
    let projects = run_palsa(&vec![], &mut store).unwrap();
    assert!(projects.is_empty());
    assert!(store.entries.is_empty());
}

#[test]
fn project_with_no_files_yields_an_empty_record_list() {
    let mut store = CacheStore::new();
    let inputs = vec![ProjectInput {
        name: "Song".to_string(),
        files: vec![],
    }];
    let projects = run_palsa(&inputs, &mut store).unwrap();
    // No file was parsed, so nothing was stored and nothing comes back.
    assert!(projects.is_empty());
    assert!(store.entries.is_empty());
}

#[test]
fn run_with_two_projects_names_each_failing_project() {
    let mut store = CacheStore::new();
    let inputs = vec![
        ProjectInput {
            name: "First".to_string(),
            files: vec![AlsFile {
                name: "x".to_string(),
                content: FileContent::Bytes(vec![0u8]),
            }],
        },
        ProjectInput {
            name: "Second".to_string(),
            files: vec![AlsFile {
                name: "y".to_string(),
                content: FileContent::Bytes(vec![0u8]),
            }],
        },
    ];
    let err = run_palsa(&inputs, &mut store).unwrap_err();
    assert_eq!(
        err,
        "First: x: not a gzip text container, Second: y: not a gzip text container"
    );
}

#[test]
fn successful_run_survives_a_reload_round_trip() {
    let mut store = CacheStore::new();
    let inputs = vec![ProjectInput {
        name: "Song".to_string(),
        files: vec![AlsFile {
            name: "A".to_string(),
            content: FileContent::Bytes(gzip(&valid_xml())),
        }],
    }];
    let first = run_palsa(&inputs, &mut store).unwrap();
    let reloaded: Vec<Project> = palsa::cache::retrieve(&store).unwrap();
    assert_eq!(first, reloaded);
}
