//! Tests of the cache store: the record codec round trip, the
//! skip-if-present policy, and retrieval grouping.

use palsa::cache::{cache, retrieve, CacheEntry, CacheError, CacheStore};
use palsa::codec::{decode_record, encode_record};
use palsa::parse::als::{AlsData, Project};
use palsa::parse::clip::{Clip, Loop};
use palsa::parse::group::Group;
use palsa::parse::track::Track;

fn sample_als(name: &str) -> AlsData {
    AlsData {
        name: name.to_string(),
        groups: vec![Group {
            id: 3,
            name: "Drums".to_string(),
            color: None,
        }],
        tracks: vec![
            Track {
                group_id: -1,
                name: "Lead".to_string(),
                color: Some(7),
                clips: vec![Clip {
                    name: "intro".to_string(),
                    start: "0".to_string(),
                    end: "4".to_string(),
                    loop_span: Some(Loop {
                        start: "0".to_string(),
                        end: "4".to_string(),
                    }),
                }],
            },
            Track {
                group_id: 3,
                name: "Bass".to_string(),
                color: None,
                clips: vec![],
            },
        ],
    }
}

#[test]
fn record_roundtrip_keeps_the_model() {
    let a = sample_als("A");
    let text = encode_record(&a);
    let back = decode_record(text.as_str()).unwrap();
    assert_eq!(back, a);
}

#[test]
fn record_roundtrip_keeps_awkward_names() {
    let mut a = sample_als("we ird: name/with\nnewline");
    a.tracks[0].name = "42:looks like a length".to_string();
    let text = encode_record(&a);
    let back = decode_record(text.as_str()).unwrap();
    assert_eq!(back, a);
}

#[test]
fn empty_model_roundtrips() {
    let a = AlsData {
        name: String::new(),
        groups: vec![],
        tracks: vec![],
    };
    let text = encode_record(&a);
    let back = decode_record(text.as_str()).unwrap();
    assert_eq!(back, a);
}

#[test]
fn extreme_numbers_roundtrip() {
    let a = AlsData {
        name: "edge".to_string(),
        groups: vec![Group {
            id: u32::MAX,
            name: String::new(),
            color: Some(u32::MAX),
        }],
        tracks: vec![Track {
            group_id: i32::MIN,
            name: "t".to_string(),
            color: Some(0),
            clips: vec![Clip {
                name: String::new(),
                start: "-1".to_string(),
                end: "-1".to_string(),
                loop_span: None,
            }],
        }],
    };
    let text = encode_record(&a);
    assert_eq!(decode_record(text.as_str()).unwrap(), a);
}

#[test]
fn garbage_record_does_not_decode() {
    assert_eq!(decode_record("definitely not a record"), None);
    assert_eq!(decode_record(""), None);
}

#[test]
fn truncated_record_does_not_decode() {
    let text = encode_record(&sample_als("A"));
    let cut = &text[..text.len() - 1];
    assert_eq!(decode_record(cut), None);
}

#[test]
fn put_then_retrieve_yields_an_equal_value() {
    let a = sample_als("A");
    let mut store = CacheStore::new();
    store.put("Song", &a);
    let projects = retrieve(&store).unwrap();
    assert_eq!(
        projects,
        vec![Project {
            name: "Song".to_string(),
            als_data: Some(vec![a]),
        }]
    );
}

#[test]
fn second_put_of_same_identity_is_a_noop() {
    let a = sample_als("A");
    let mut store = CacheStore::new();
    store.put("Song", &a);
    assert_eq!(store.entries.len(), 1);
    let first = store.entries[0].clone();
    // Even a different record under the same identity is skipped: the
    // check is presence only, never content.
    let mut b = sample_als("A");
    b.tracks.clear();
    store.put("Song", &b);
    assert_eq!(store.entries.len(), 1);
    assert_eq!(store.entries[0], first);
}

#[test]
fn cache_stores_every_project_and_skips_present_records() {
    let a = sample_als("A");
    let b = sample_als("B");
    let projects = vec![
        Project {
            name: "One".to_string(),
            als_data: Some(vec![a.clone(), b.clone()]),
        },
        Project {
            name: "Two".to_string(),
            als_data: Some(vec![a.clone()]),
        },
        Project {
            name: "Empty".to_string(),
            als_data: None,
        },
    ];
    let mut store = CacheStore::new();
    cache(&mut store, &projects);
    assert_eq!(store.entries.len(), 3);
    // A second pass writes nothing new.
    cache(&mut store, &projects);
    assert_eq!(store.entries.len(), 3);
    let retrieved = retrieve(&store).unwrap();
    assert_eq!(retrieved.len(), 2);
    assert_eq!(retrieved[0].name, "One");
    assert_eq!(retrieved[0].als_data, Some(vec![a.clone(), b]));
    assert_eq!(retrieved[1].name, "Two");
    assert_eq!(retrieved[1].als_data, Some(vec![a]));
}

#[test]
fn malformed_record_aborts_retrieval() {
    let mut store = CacheStore::new();
    store.put("Song", &sample_als("A"));
    store.entries.push(CacheEntry {
        project: "Song".to_string(),
        file: "B".to_string(),
        text: "broken".to_string(),
    });
    let r = retrieve(&store);
    assert_eq!(
        r,
        Err(CacheError::Malformed {
            project: "Song".to_string(),
            file: "B".to_string(),
        })
    );
    assert_eq!(
        r.unwrap_err().message(),
        "malformed cache record Song/B"
    );
}
