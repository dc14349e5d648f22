use kb_search::engine::{IndexError, SearchIndex};
use kb_search::models::{File, Rank, Tag};

fn file(id: &str, ws: &str, updated: &str) -> File {
    File {
        id: id.to_string(),
        workspace_id: ws.to_string(),
        file_type: "document".to_string(),
        title: format!("title of {}", id),
        content: None,
        file_path: None,
        file_size: None,
        mime_type: None,
        created_at: "2024-01-01T00:00:00Z".to_string(),
        updated_at: updated.to_string(),
    }
}

fn tag(id: &str, name: &str) -> Tag {
    Tag {
        id: id.to_string(),
        name: name.to_string(),
        color: None,
        created_at: "2024-01-01T00:00:00Z".to_string(),
    }
}

/// Workspace W holds A(tags x, y), B(tags x), C(tags y, z).
fn example_index() -> SearchIndex {
    let mut idx = SearchIndex::new();
    assert!(idx.insert_file(file("A", "W", "2024-01-05T00:00:00Z")));
    assert!(idx.insert_file(file("B", "W", "2024-01-04T00:00:00Z")));
    assert!(idx.insert_file(file("C", "W", "2024-01-03T00:00:00Z")));
    assert!(idx.insert_tag(tag("t-x", "x")));
    assert!(idx.insert_tag(tag("t-y", "y")));
    assert!(idx.insert_tag(tag("t-z", "z")));
    idx.add_tag("A", "t-x").unwrap();
    idx.add_tag("A", "t-y").unwrap();
    idx.add_tag("B", "t-x").unwrap();
    idx.add_tag("C", "t-y").unwrap();
    idx.add_tag("C", "t-z").unwrap();
    idx
}

#[test]
fn match_all_returns_exact_coverage() {
    let idx = example_index();
    let r = idx.search_by_tags(
        Some("W".to_string()),
        vec!["x".to_string(), "y".to_string()],
        true,
    );
    assert_eq!(r.len(), 1);
    assert_eq!(r[0].id, "A");
    assert_eq!(r[0].rank, Rank::TagMatch);
}

#[test]
fn match_any_returns_any_overlap_by_recency() {
    let idx = example_index();
    let r = idx.search_by_tags(
        Some("W".to_string()),
        vec!["x".to_string(), "y".to_string()],
        false,
    );
    let ids: Vec<&str> = r.iter().map(|x| x.id.as_str()).collect();
    assert_eq!(ids, vec!["A", "B", "C"]);
}

#[test]
fn empty_tag_list_returns_nothing() {
    let idx = example_index();
    assert!(idx.search_by_tags(Some("W".to_string()), vec![], true).is_empty());
    assert!(idx.search_by_tags(Some("W".to_string()), vec![], false).is_empty());
    assert!(idx.search_by_tags(None, vec![], false).is_empty());
}

#[test]
fn unknown_names_match_nothing_under_any() {
    let idx = example_index();
    let r = idx.search_by_tags(None, vec!["nope".to_string()], false);
    assert!(r.is_empty());
}

#[test]
fn workspace_filter_excludes_other_workspaces() {
    let mut idx = example_index();
    assert!(idx.insert_file(file("D", "V", "2024-01-06T00:00:00Z")));
    idx.add_tag("D", "t-x").unwrap();
    let r = idx.search_by_tags(Some("W".to_string()), vec!["x".to_string()], false);
    let ids: Vec<&str> = r.iter().map(|x| x.id.as_str()).collect();
    assert_eq!(ids, vec!["A", "B"]);
    let all = idx.search_by_tags(None, vec!["x".to_string()], false);
    assert_eq!(all.len(), 3);
}

#[test]
fn find_similar_ranks_by_overlap_then_recency() {
    let idx = example_index();
    let r = idx.find_similar("A", 10);
    let ids: Vec<&str> = r.iter().map(|x| x.id.as_str()).collect();
    assert_eq!(ids, vec!["B", "C"]);
    assert_eq!(r[0].rank, Rank::Overlap(1));
    assert_eq!(r[1].rank, Rank::Overlap(1));
}

#[test]
fn find_similar_never_returns_reference_or_zero_overlap() {
    let mut idx = example_index();
    assert!(idx.insert_file(file("E", "W", "2024-01-07T00:00:00Z")));
    // E has no tags at all, so it can never appear
    let r = idx.find_similar("A", 10);
    for row in &r {
        assert_ne!(row.id, "A");
        assert_ne!(row.id, "E");
        assert!(matches!(row.rank, Rank::Overlap(n) if n > 0));
    }
}

#[test]
fn find_similar_truncates_to_limit_keeping_best() {
    let mut idx = example_index();
    // make C share two tags with A so it outranks B
    idx.add_tag("C", "t-x").unwrap();
    let r = idx.find_similar("A", 1);
    assert_eq!(r.len(), 1);
    assert_eq!(r[0].id, "C");
    assert_eq!(r[0].rank, Rank::Overlap(2));
}

#[test]
fn find_similar_negative_limit_keeps_everything() {
    let idx = example_index();
    let r = idx.find_similar("A", -1);
    assert_eq!(r.len(), 2);
}

#[test]
fn projection_is_space_joined_sorted_names() {
    let idx = example_index();
    // A carries x and y; the projection is canonical: sorted by name
    assert_eq!(idx.entries[0].file.id, "A");
    assert_eq!(idx.entries[0].tags_text, "x y");
    assert_eq!(idx.entries[1].tags_text, "x");
    assert_eq!(idx.entries[2].tags_text, "y z");
}

#[test]
fn adding_twice_leaves_projection_identical() {
    let once = example_index();
    let mut twice = example_index();
    // every association of A again, in a different order
    twice.add_tag("A", "t-y").unwrap();
    twice.add_tag("A", "t-x").unwrap();
    assert_eq!(once.entries[0].tags_text, twice.entries[0].tags_text);
    assert_eq!(once.links.len(), twice.links.len());
}

#[test]
fn remove_tag_resyncs_projection() {
    let mut idx = example_index();
    idx.remove_tag("A", "t-x");
    assert_eq!(idx.entries[0].tags_text, "y");
    // removing an absent pair changes nothing
    idx.remove_tag("A", "t-x");
    assert_eq!(idx.entries[0].tags_text, "y");
}

#[test]
fn add_tag_reports_missing_references() {
    let mut idx = example_index();
    assert_eq!(idx.add_tag("nope", "t-x"), Err(IndexError::NotFound));
    assert_eq!(idx.add_tag("A", "t-nope"), Err(IndexError::NotFound));
    assert_eq!(idx.add_tag("A", "t-z"), Ok(()));
}

#[test]
fn get_tags_sorted_by_name() {
    let mut idx = SearchIndex::new();
    assert!(idx.insert_file(file("F", "W", "2024-01-01T00:00:00Z")));
    assert!(idx.insert_tag(tag("t1", "zeta")));
    assert!(idx.insert_tag(tag("t2", "alpha")));
    assert!(idx.insert_tag(tag("t3", "mid")));
    idx.add_tag("F", "t1").unwrap();
    idx.add_tag("F", "t2").unwrap();
    idx.add_tag("F", "t3").unwrap();
    let ts = idx.get_tags("F");
    let names: Vec<&str> = ts.iter().map(|t| t.name.as_str()).collect();
    assert_eq!(names, vec!["alpha", "mid", "zeta"]);
    assert_eq!(idx.entries[0].tags_text, "alpha mid zeta");
}

#[test]
fn duplicate_inserts_are_refused() {
    let mut idx = SearchIndex::new();
    assert!(idx.insert_file(file("A", "W", "2024-01-01T00:00:00Z")));
    assert!(!idx.insert_file(file("A", "V", "2024-01-02T00:00:00Z")));
    assert!(idx.insert_tag(tag("t1", "x")));
    assert!(!idx.insert_tag(tag("t1", "other")));
    assert!(!idx.insert_tag(tag("t9", "x")));
}
