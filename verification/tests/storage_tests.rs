use kb_search::media::{get_image_dimensions, plan_upload, stored_media_name, MediaError};
use kb_search::numfmt::{i64_to_dec, u64_to_dec, usize_to_dec};
use kb_search::storage::{CreateDocumentRequest, Document, Storage, UpdateDocumentRequest};
use kb_search::trusted::fresh_id;
use base64::Engine;

fn doc(id: &str, title: &str, updated: &str, tags: Vec<&str>) -> Document {
    Document {
        id: id.to_string(),
        title: title.to_string(),
        content: "{}".to_string(),
        created_at: "2024-01-01T00:00:00Z".to_string(),
        updated_at: updated.to_string(),
        tags: tags.into_iter().map(|t| t.to_string()).collect(),
    }
}

fn store_with(docs: Vec<Document>) -> Storage {
    let base = Storage::empty();
    Storage::load(docs, base.get_settings()).unwrap()
}

#[test]
fn load_refuses_duplicate_identities() {
    let base = Storage::empty();
    let r = Storage::load(
        vec![doc("d1", "a", "2024-01-01T00:00:00Z", vec![]), doc("d1", "b", "2024-01-02T00:00:00Z", vec![])],
        base.get_settings(),
    );
    assert!(r.is_none());
}

#[test]
fn get_all_documents_most_recent_first() {
    let s = store_with(vec![
        doc("d1", "old", "2024-01-01T00:00:00Z", vec![]),
        doc("d2", "new", "2024-01-03T00:00:00Z", vec![]),
        doc("d3", "mid", "2024-01-02T00:00:00Z", vec![]),
    ]);
    let all = s.get_all_documents();
    let ids: Vec<&str> = all.iter().map(|d| d.id.as_str()).collect();
    assert_eq!(ids, vec!["d2", "d3", "d1"]);
}

#[test]
fn search_documents_is_case_folded() {
    let s = store_with(vec![
        doc("d1", "Meeting Notes", "2024-01-02T00:00:00Z", vec![]),
        doc("d2", "groceries", "2024-01-03T00:00:00Z", vec![]),
    ]);
    let hits = s.search_documents("MEETING");
    assert_eq!(hits.len(), 1);
    assert_eq!(hits[0].id, "d1");
    let hits2 = s.search_documents("notes");
    assert_eq!(hits2.len(), 1);
}

#[test]
fn search_documents_covers_tags_and_orders_by_recency() {
    let s = store_with(vec![
        doc("d1", "alpha", "2024-01-01T00:00:00Z", vec!["kitchen"]),
        doc("d2", "beta", "2024-01-03T00:00:00Z", vec!["Kitchen-Sink"]),
        doc("d3", "gamma", "2024-01-02T00:00:00Z", vec!["garden"]),
    ]);
    let hits = s.search_documents("kitchen");
    let ids: Vec<&str> = hits.iter().map(|d| d.id.as_str()).collect();
    assert_eq!(ids, vec!["d2", "d1"]);
}

#[test]
fn create_document_defaults() {
    let mut s = Storage::empty();
    let d = s.create_document(CreateDocumentRequest { title: None });
    assert_eq!(d.title, "未命名文档");
    assert_eq!(d.content, "[{\"type\":\"p\",\"children\":[{\"text\":\"\"}]}]");
    assert_eq!(d.id.len(), 36);
    assert_eq!(d.created_at, d.updated_at);
    assert!(!d.created_at.is_empty());
    assert!(d.tags.is_empty());
    assert!(s.get_document(&d.id).is_some());
    let d2 = s.create_document(CreateDocumentRequest { title: Some("mine".to_string()) });
    assert_eq!(d2.title, "mine");
    assert_ne!(d.id, d2.id);
    assert_eq!(s.get_all_documents().len(), 2);
}

#[test]
fn update_document_changes_present_fields_only() {
    let mut s = store_with(vec![doc("d1", "before", "2024-01-01T00:00:00Z", vec!["a"])]);
    let r = s
        .update_document(
            "d1",
            UpdateDocumentRequest {
                title: Some("after".to_string()),
                content: None,
                tags: Some(vec!["b".to_string(), "c".to_string()]),
            },
        )
        .unwrap();
    assert_eq!(r.title, "after");
    assert_eq!(r.content, "{}");
    assert_eq!(r.tags, vec!["b".to_string(), "c".to_string()]);
    assert_eq!(r.created_at, "2024-01-01T00:00:00Z");
    assert!(s.update_document("missing", UpdateDocumentRequest { title: None, content: None, tags: None }).is_none());
}

#[test]
fn delete_document_removes_exactly_one() {
    let mut s = store_with(vec![
        doc("d1", "a", "2024-01-01T00:00:00Z", vec![]),
        doc("d2", "b", "2024-01-02T00:00:00Z", vec![]),
    ]);
    assert!(s.delete_document("d1"));
    assert!(!s.delete_document("d1"));
    assert!(s.get_document("d1").is_none());
    assert!(s.get_document("d2").is_some());
}

#[test]
fn settings_round_trip() {
    let mut s = Storage::empty();
    let mut cfg = s.get_settings();
    assert_eq!(cfg.theme, "system");
    assert!(cfg.auto_save);
    assert_eq!(cfg.auto_save_interval, 30);
    assert!(cfg.default_provider.is_none());
    cfg.theme = "dark".to_string();
    cfg.auto_save_interval = 60;
    s.update_settings(cfg);
    let cfg2 = s.get_settings();
    assert_eq!(cfg2.theme, "dark");
    assert_eq!(cfg2.auto_save_interval, 60);
}

#[test]
fn decimal_formatting_exact() {
    assert_eq!(u64_to_dec(0), "0");
    assert_eq!(u64_to_dec(42), "42");
    assert_eq!(u64_to_dec(18446744073709551615), "18446744073709551615");
    assert_eq!(usize_to_dec(50), "50");
    assert_eq!(i64_to_dec(-1), "-1");
    assert_eq!(i64_to_dec(0), "0");
    assert_eq!(i64_to_dec(i64::MIN), "-9223372036854775808");
    assert_eq!(i64_to_dec(i64::MAX), "9223372036854775807");
}

#[test]
fn png_header_dimensions() {
    let mut data = vec![0u8; 24];
    data[0] = 0x89;
    data[1] = 0x50;
    data[2] = 0x4e;
    data[3] = 0x47;
    data[16..20].copy_from_slice(&[0, 0, 1, 0]);
    data[20..24].copy_from_slice(&[0, 0, 0, 192]);
    assert_eq!(get_image_dimensions(&data), Some((Some(256), Some(192))));
}

#[test]
fn jpeg_sof_dimensions() {
    let mut data = vec![0u8; 24];
    data[0] = 0xff;
    data[1] = 0xd8;
    data[2] = 0xff;
    data[3] = 0xc0;
    // segment length, then sample precision, then height and width
    data[4] = 0x00;
    data[5] = 0x11;
    data[7] = 0x00;
    data[8] = 0x04;
    data[9] = 0x00;
    data[10] = 0x06;
    assert_eq!(get_image_dimensions(&data), Some((Some(6), Some(4))));
}

#[test]
fn short_or_unknown_data_has_no_dimensions() {
    assert_eq!(get_image_dimensions(&[0u8; 10]), None);
    assert_eq!(get_image_dimensions(&[7u8; 64]), None);
}

#[test]
fn stored_media_name_uses_last_extension() {
    assert_eq!(stored_media_name("id1", "photo.png"), "id1.png");
    assert_eq!(stored_media_name("id1", "archive.tar.gz"), "id1.gz");
    assert_eq!(stored_media_name("id1", "noext"), "id1.noext");
    assert_eq!(stored_media_name("id1", "trailing."), "id1.");
}

#[test]
fn plan_upload_decodes_and_measures() {
    let plan = plan_upload("m1", "blob.bin", "application/octet-stream", "AQID").unwrap();
    assert_eq!(plan.bytes, vec![1u8, 2, 3]);
    assert_eq!(plan.file_size, 3);
    assert_eq!(plan.stored_name, "m1.bin");
    assert!(plan.width.is_none());
    assert!(plan.height.is_none());
}

#[test]
fn plan_upload_rejects_bad_base64() {
    let r = plan_upload("m1", "a.bin", "application/octet-stream", "!!not base64!!");
    assert!(matches!(r, Err(MediaError::InvalidPayload)));
}

#[test]
fn plan_upload_sniffs_image_dimensions() {
    let mut data = vec![0u8; 24];
    data[0] = 0x89;
    data[1] = 0x50;
    data[2] = 0x4e;
    data[3] = 0x47;
    data[16..20].copy_from_slice(&[0, 0, 0, 2]);
    data[20..24].copy_from_slice(&[0, 0, 0, 3]);
    // standard base64 of the 24 header bytes
    let payload = base64::engine::general_purpose::STANDARD.encode(&data);
    let plan = plan_upload("m2", "tiny.png", "image/png", &payload).unwrap();
    assert_eq!(plan.width, Some(2));
    assert_eq!(plan.height, Some(3));
    assert_eq!(plan.stored_name, "m2.png");
    assert_eq!(plan.file_size, 24);
}

#[test]
fn fresh_ids_are_hyphenated_and_distinct() {
    let a = fresh_id();
    let b = fresh_id();
    assert_eq!(a.len(), 36);
    assert_eq!(b.len(), 36);
    assert_ne!(a, b);
    assert_eq!(a.chars().filter(|c| *c == '-').count(), 4);
}
