use focular::metadata::{ContentType, Metadata, Status};
use focular::searcher::SearchIndex;

fn record(hash: &str, name: &str, tags: Option<Vec<&str>>, notes: Option<&str>) -> Metadata {
    Metadata {
        hash: hash.to_string(),
        name: name.to_string(),
        path: format!("/media/{}", name),
        content_type: ContentType::Other,
        status: Status::Valid,
        timestamp_created: 1000,
        timestamp_modified: 1000,
        extension: None,
        tags: tags.map(|ts| ts.into_iter().map(|t| t.to_string()).collect()),
        notes: notes.map(|n| n.to_string()),
        width: None,
        height: None,
        duration: None,
    }
}

#[test]
fn exact_prefix_match_is_found() {
    let mut index = SearchIndex::new();
    let r = record("h1", "Sunset Beach", None, None);
    index.index_metadata(&vec![r]).unwrap();
    let hits = index.search("sunset", 30);
    assert_eq!(hits, vec!["h1".to_string()]);
}

#[test]
fn fuzzy_match_is_found_in_later_pass() {
    let mut index = SearchIndex::new();
    let r = record("h1", "Sunset Beach", None, None);
    index.index_metadata(&vec![r]).unwrap();
    let hits = index.search("sunsett", 30);
    assert_eq!(hits, vec!["h1".to_string()]);
}

#[test]
fn unrelated_query_finds_nothing() {
    let mut index = SearchIndex::new();
    let r = record("h1", "Sunset Beach", None, None);
    index.index_metadata(&vec![r]).unwrap();
    let hits = index.search("mountain lake", 30);
    assert!(hits.is_empty());
}

#[test]
fn deleted_record_never_found() {
    let mut index = SearchIndex::new();
    let r = record("h1", "Sunset Beach", None, None);
    index.index_metadata(&vec![r]).unwrap();
    assert_eq!(index.search("sunset", 30), vec!["h1".to_string()]);
    index.delete_metadata(&vec!["h1".to_string()]).unwrap();
    assert!(index.search("sunset", 30).is_empty());
    assert!(index.search("sunsett", 30).is_empty());
}

#[test]
fn update_replaces_tags() {
    let mut index = SearchIndex::new();
    let r = record("h1", "holiday", Some(vec!["ocean"]), None);
    index.index_metadata(&vec![r]).unwrap();
    assert_eq!(index.search("ocean", 30), vec!["h1".to_string()]);

    let r2 = record("h1", "holiday", Some(vec!["forest"]), None);
    index.update_metadata(&r2).unwrap();
    assert!(index.search("ocean", 30).is_empty());
    assert_eq!(index.search("forest", 30), vec!["h1".to_string()]);
}

#[test]
fn whitespace_normalization_gives_identical_results() {
    let mut index = SearchIndex::new();
    index.index_metadata(&vec![
        record("h1", "Sunset Beach", None, None),
        record("h2", "beach house", None, None),
        record("h3", "sunset drive", None, None),
    ])
    .unwrap();
    let a = index.search("  sunset   beach ", 30);
    let b = index.search("sunset beach", 30);
    assert_eq!(a, b);
    assert!(!a.is_empty());
}

#[test]
fn matches_are_deduplicated_across_passes() {
    let mut index = SearchIndex::new();
    // "sunset" matches at tolerance 0, so it would also match at 1 and 2.
    let r = record("h1", "sunset", None, None);
    index.index_metadata(&vec![r]).unwrap();
    let hits = index.search("sunset", 30);
    assert_eq!(hits.len(), 1);
}

#[test]
fn exact_matches_rank_before_fuzzy_ones() {
    let mut index = SearchIndex::new();
    // "sunsex" only matches "sunset" at tolerance 1; it is indexed first
    // but must come after the exact match.
    index.index_metadata(&vec![
        record("h_fuzzy", "sunsex", None, None),
        record("h_exact", "sunset", None, None),
    ])
    .unwrap();
    let hits = index.search("sunset", 30);
    assert_eq!(hits, vec!["h_exact".to_string(), "h_fuzzy".to_string()]);
}

#[test]
fn results_are_capped_at_the_limit() {
    let mut index = SearchIndex::new();
    let mut batch = Vec::new();
    for i in 0..35 {
        batch.push(record(&format!("h{}", i), "sunset", None, None));
    }
    index.index_metadata(&batch).unwrap();
    let hits = index.search("sunset", 30);
    assert_eq!(hits.len(), 30);
}

#[test]
fn notes_and_tags_are_searchable() {
    let mut index = SearchIndex::new();
    let r = record("h1", "img_0001", Some(vec!["vacation"]), Some("taken at the harbor"));
    index.index_metadata(&vec![r]).unwrap();
    assert_eq!(index.search("vacation", 30), vec!["h1".to_string()]);
    assert_eq!(index.search("harbor", 30), vec!["h1".to_string()]);
}

#[test]
fn matching_is_case_insensitive() {
    let mut index = SearchIndex::new();
    let r = record("h1", "Sunset Beach", None, None);
    index.index_metadata(&vec![r]).unwrap();
    assert_eq!(index.search("SUNSET", 30), vec!["h1".to_string()]);
}

#[test]
fn empty_query_finds_nothing() {
    let mut index = SearchIndex::new();
    let r = record("h1", "Sunset Beach", None, None);
    index.index_metadata(&vec![r]).unwrap();
    assert!(index.search("", 30).is_empty());
    assert!(index.search("   ", 30).is_empty());
}

#[test]
fn reindexing_a_fingerprint_keeps_one_document() {
    let mut index = SearchIndex::new();
    index.index_metadata(&vec![record("h1", "sunset", None, None)]).unwrap();
    index.index_metadata(&vec![record("h1", "sunset", None, None)]).unwrap();
    let hits = index.search("sunset", 30);
    assert_eq!(hits, vec!["h1".to_string()]);
}
