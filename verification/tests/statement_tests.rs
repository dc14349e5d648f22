use kb_search::models::{SearchQuery, UpdateFile, UpdateWorkspace};
use kb_search::statement::{
    search_statement, similar_statement, tag_search_statement, update_file_statement,
    update_workspace_statement,
};

const SEARCH_BASE: &str = "SELECT f.id, f.workspace_id, f.file_type, f.title, f.content, f.file_path, f.created_at, f.updated_at, fts.rank AS rank FROM files f INNER JOIN files_fts fts ON f.id = fts.file_id WHERE files_fts MATCH ?";

#[test]
fn search_statement_bare_query() {
    let q = SearchQuery {
        query: "notes".to_string(),
        workspace_id: None,
        file_type: None,
        tags: None,
        limit: None,
    };
    let st = search_statement(&q);
    assert_eq!(st.sql, format!("{} ORDER BY rank DESC LIMIT ?", SEARCH_BASE));
    assert_eq!(st.params, vec!["\"notes\"*".to_string(), "50".to_string()]);
}

#[test]
fn search_statement_full_filters_align_params_with_placeholders() {
    let q = SearchQuery {
        query: "hello world".to_string(),
        workspace_id: Some("w1".to_string()),
        file_type: Some("document".to_string()),
        tags: Some(vec!["a".to_string(), "b".to_string()]),
        limit: Some(10),
    };
    let st = search_statement(&q);
    let expected = format!(
        "{} AND f.workspace_id = ? AND f.file_type = ? AND f.id IN (SELECT ft.file_id FROM file_tags ft INNER JOIN tags t ON ft.tag_id = t.id WHERE t.name IN (?,?) GROUP BY ft.file_id HAVING COUNT(DISTINCT t.id) = 2) ORDER BY rank DESC LIMIT ?",
        SEARCH_BASE
    );
    assert_eq!(st.sql, expected);
    assert_eq!(
        st.params,
        vec![
            "\"hello\"* OR \"world\"*".to_string(),
            "w1".to_string(),
            "document".to_string(),
            "a".to_string(),
            "b".to_string(),
            "10".to_string(),
        ]
    );
    // the number of placeholders equals the number of bound parameters
    let holes = st.sql.matches('?').count();
    assert_eq!(holes, st.params.len());
}

#[test]
fn search_statement_empty_query_binds_wildcard() {
    let q = SearchQuery {
        query: "  ".to_string(),
        workspace_id: None,
        file_type: None,
        tags: Some(vec![]),
        limit: Some(-7),
    };
    let st = search_statement(&q);
    assert_eq!(st.sql, format!("{} ORDER BY rank DESC LIMIT ?", SEARCH_BASE));
    assert_eq!(st.params, vec!["*".to_string(), "-7".to_string()]);
}

#[test]
fn tag_search_statement_empty_names_is_no_statement() {
    assert!(tag_search_statement(&None, &vec![], true).is_none());
    assert!(tag_search_statement(&None, &vec![], false).is_none());
}

#[test]
fn tag_search_statement_match_any() {
    let st = tag_search_statement(&None, &vec!["x".to_string(), "y".to_string()], false).unwrap();
    assert_eq!(
        st.sql,
        "SELECT f.id, f.workspace_id, f.file_type, f.title, f.content, f.file_path, f.created_at, f.updated_at, 0.0 AS rank FROM files f INNER JOIN file_tags ft ON f.id = ft.file_id INNER JOIN tags t ON ft.tag_id = t.id WHERE t.name IN (?,?) GROUP BY f.id ORDER BY f.updated_at DESC"
    );
    assert_eq!(st.params, vec!["x".to_string(), "y".to_string()]);
}

#[test]
fn tag_search_statement_match_all_with_workspace() {
    let st = tag_search_statement(
        &Some("w9".to_string()),
        &vec!["x".to_string(), "y".to_string(), "z".to_string()],
        true,
    )
    .unwrap();
    assert_eq!(
        st.sql,
        "SELECT f.id, f.workspace_id, f.file_type, f.title, f.content, f.file_path, f.created_at, f.updated_at, 0.0 AS rank FROM files f INNER JOIN file_tags ft ON f.id = ft.file_id INNER JOIN tags t ON ft.tag_id = t.id WHERE t.name IN (?,?,?) AND f.workspace_id = ? GROUP BY f.id HAVING COUNT(DISTINCT t.id) = 3 ORDER BY f.updated_at DESC"
    );
    assert_eq!(
        st.params,
        vec!["x".to_string(), "y".to_string(), "z".to_string(), "w9".to_string()]
    );
}

#[test]
fn similar_statement_binds_reference_twice_then_limit() {
    let st = similar_statement("file-1", 5);
    assert_eq!(
        st.sql,
        "SELECT DISTINCT f.id, f.workspace_id, f.file_type, f.title, f.content, f.file_path, f.created_at, f.updated_at, COUNT(DISTINCT ft2.tag_id) AS rank FROM files f INNER JOIN file_tags ft2 ON f.id = ft2.file_id WHERE ft2.tag_id IN (SELECT tag_id FROM file_tags WHERE file_id = ?) AND f.id != ? GROUP BY f.id ORDER BY rank DESC, f.updated_at DESC LIMIT ?"
    );
    assert_eq!(
        st.params,
        vec!["file-1".to_string(), "file-1".to_string(), "5".to_string()]
    );
}

#[test]
fn update_file_statement_emits_only_present_fields_in_order() {
    let u = UpdateFile {
        title: Some("new title".to_string()),
        content: None,
        file_path: None,
        file_size: Some(1234),
        mime_type: None,
    };
    let st = update_file_statement("f1", &u, "2024-02-02T00:00:00Z");
    assert_eq!(
        st.sql,
        "UPDATE files SET updated_at = ?, title = ?, file_size = ? WHERE id = ? RETURNING *"
    );
    assert_eq!(
        st.params,
        vec![
            "2024-02-02T00:00:00Z".to_string(),
            "new title".to_string(),
            "1234".to_string(),
            "f1".to_string(),
        ]
    );
}

#[test]
fn update_workspace_statement_all_fields() {
    let u = UpdateWorkspace {
        name: Some("n".to_string()),
        description: Some("d".to_string()),
    };
    let st = update_workspace_statement("w1", &u, "now");
    assert_eq!(
        st.sql,
        "UPDATE workspaces SET updated_at = ?, name = ?, description = ? WHERE id = ? RETURNING *"
    );
    assert_eq!(
        st.params,
        vec!["now".to_string(), "n".to_string(), "d".to_string(), "w1".to_string()]
    );
}

#[test]
fn update_workspace_statement_no_fields() {
    let u = UpdateWorkspace { name: None, description: None };
    let st = update_workspace_statement("w1", &u, "now");
    assert_eq!(st.sql, "UPDATE workspaces SET updated_at = ? WHERE id = ? RETURNING *");
    assert_eq!(st.params, vec!["now".to_string(), "w1".to_string()]);
}
