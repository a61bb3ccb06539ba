use noteforest::codec::{encode_note, note_file_name, parse_markdown_content};
use noteforest::manager::NoteManager;
use noteforest::types::{
    CreateNoteRequest, ListNotesParams, NoteError, NoteFile, UpdateNoteRequest,
};

const T1: &str = "2024-01-01T10:00:00+00:00";
const T2: &str = "2024-01-02T10:00:00+00:00";
const T3: &str = "2024-01-03T10:00:00+00:00";

fn persist(files: &mut Vec<NoteFile>, note: &noteforest::types::Note) {
    let name = note_file_name(note.id);
    let text = encode_note(note);
    files.retain(|f| f.name != name);
    files.push(NoteFile { name, text });
}

fn create_req(title: &str, content: &str, tags: Option<Vec<&str>>) -> CreateNoteRequest {
    CreateNoteRequest {
        title: title.to_string(),
        content: content.to_string(),
        tag_names: tags.map(|v| v.into_iter().map(|s| s.to_string()).collect()),
    }
}

#[test]
fn round_trip_plain_note() {
    let files: Vec<NoteFile> = Vec::new();
    let mut m = NoteManager::new(&files).unwrap();
    let resp = m.create_note_at(
        &files,
        create_req("Groceries", "milk, eggs", Some(vec!["errands", "home"])),
        T1,
    );
    let text = encode_note(&resp.note);
    let (fm, body) = parse_markdown_content(&text).unwrap();
    assert_eq!(fm.id, resp.note.id);
    assert_eq!(fm.title, "Groceries");
    assert_eq!(fm.tags, vec!["errands".to_string(), "home".to_string()]);
    assert_eq!(fm.created_at, T1);
    assert_eq!(fm.updated_at, T1);
    assert_eq!(body, "milk, eggs");
    let note = m.frontmatter_to_note(fm, body);
    assert_eq!(note.id, resp.note.id);
    assert_eq!(note.title, resp.note.title);
    assert_eq!(note.content, resp.note.content);
    assert_eq!(note.created_at, resp.note.created_at);
    assert_eq!(note.updated_at, resp.note.updated_at);
    let names: Vec<&str> = note.tags.iter().map(|t| t.name.as_str()).collect();
    assert_eq!(names, vec!["errands", "home"]);
}

#[test]
fn round_trip_hostile_strings() {
    let files: Vec<NoteFile> = Vec::new();
    let mut m = NoteManager::new(&files).unwrap();
    let title = "a---b \"quoted\" back\\slash\nnewline\rreturn";
    let content = "body with --- dashes\nand \"quotes\" and \\ too";
    let resp = m.create_note_at(
        &files,
        create_req(title, content, Some(vec!["we--ird\"tag", "---"])),
        T1,
    );
    let text = encode_note(&resp.note);
    let (fm, body) = parse_markdown_content(&text).unwrap();
    assert_eq!(fm.title, title);
    assert_eq!(body, content);
    assert_eq!(fm.tags, vec!["we--ird\"tag".to_string(), "---".to_string()]);
}

#[test]
fn round_trip_empty_fields() {
    let files: Vec<NoteFile> = Vec::new();
    let mut m = NoteManager::new(&files).unwrap();
    let resp = m.create_note_at(&files, create_req("", "", None), T1);
    let text = encode_note(&resp.note);
    let (fm, body) = parse_markdown_content(&text).unwrap();
    assert_eq!(fm.title, "");
    assert_eq!(body, "");
    assert!(fm.tags.is_empty());
}

#[test]
fn next_id_is_one_past_max() {
    let files = vec![
        NoteFile { name: "2.md".to_string(), text: String::new() },
        NoteFile { name: "5.md".to_string(), text: String::new() },
        NoteFile { name: "9.md".to_string(), text: String::new() },
    ];
    let m = NoteManager::new(&files).unwrap();
    assert_eq!(m.get_next_note_id(&files), 10);
    let empty: Vec<NoteFile> = Vec::new();
    assert_eq!(m.get_next_note_id(&empty), 1);
    let odd = vec![
        NoteFile { name: "notes.txt".to_string(), text: String::new() },
        NoteFile { name: "7.md".to_string(), text: String::new() },
    ];
    assert_eq!(m.get_next_note_id(&odd), 8);
}

#[test]
fn tag_id_stable_within_session() {
    let files: Vec<NoteFile> = Vec::new();
    let mut m = NoteManager::new(&files).unwrap();
    let a = m.create_note_at(&files, create_req("one", "x", Some(vec!["work"])), T1);
    let b = m.create_note_at(&files, create_req("two", "y", Some(vec!["play", "work"])), T2);
    assert_eq!(a.note.tags[0].name, "work");
    assert_eq!(b.note.tags[1].name, "work");
    assert_eq!(a.note.tags[0].id, b.note.tags[1].id);
    assert_eq!(a.note.tags[0].id, 1);
    assert_eq!(b.note.tags[0].id, 2);
}

#[test]
fn partial_update_keeps_other_fields() {
    let mut files: Vec<NoteFile> = Vec::new();
    let mut m = NoteManager::new(&files).unwrap();
    let created = m.create_note_at(
        &files,
        create_req("old title", "old content", Some(vec!["a", "b"])),
        T1,
    );
    persist(&mut files, &created.note);
    let id = created.note.id;
    let text = files.iter().find(|f| f.name == note_file_name(id)).map(|f| f.text.clone());
    let data = UpdateNoteRequest {
        title: Some("new".to_string()),
        content: None,
        tag_names: None,
    };
    let updated = m.update_note_at(id, text.as_ref(), data, T2).unwrap();
    assert_eq!(updated.note.title, "new");
    assert_eq!(updated.note.content, "old content");
    let names: Vec<&str> = updated.note.tags.iter().map(|t| t.name.as_str()).collect();
    assert_eq!(names, vec!["a", "b"]);
    assert_eq!(updated.note.created_at, T1);
    assert_eq!(updated.note.updated_at, T2);
}

#[test]
fn tag_replacement_uses_original_created_at() {
    let mut files: Vec<NoteFile> = Vec::new();
    let mut m = NoteManager::new(&files).unwrap();
    let created = m.create_note_at(&files, create_req("n", "c", Some(vec!["a", "b"])), T1);
    persist(&mut files, &created.note);
    let id = created.note.id;
    let text = files.iter().find(|f| f.name == note_file_name(id)).map(|f| f.text.clone());
    let data = UpdateNoteRequest {
        title: None,
        content: None,
        tag_names: Some(vec!["x".to_string()]),
    };
    let updated = m.update_note_at(id, text.as_ref(), data, T3).unwrap();
    assert_eq!(updated.note.tags.len(), 1);
    assert_eq!(updated.note.tags[0].name, "x");
    assert_eq!(updated.note.tags[0].created_at, T1);
    assert_eq!(updated.note.updated_at, T3);
}

#[test]
fn missing_id_fails_with_not_found() {
    let files: Vec<NoteFile> = Vec::new();
    let mut m = NoteManager::new(&files).unwrap();
    assert!(matches!(
        m.get_note_by_id(42, None),
        Err(NoteError::NotFound(42))
    ));
    let data = UpdateNoteRequest::default();
    assert!(matches!(
        m.update_note_at(42, None, data, T1),
        Err(NoteError::NotFound(42))
    ));
    assert!(matches!(m.delete_note(42, false), Err(NoteError::NotFound(42))));
}

#[test]
fn deletion_is_final_and_ids_not_reused_below_max() {
    let mut files: Vec<NoteFile> = Vec::new();
    let mut m = NoteManager::new(&files).unwrap();
    let a = m.create_note_at(&files, create_req("a", "", None), T1);
    persist(&mut files, &a.note);
    let b = m.create_note_at(&files, create_req("b", "", None), T1);
    persist(&mut files, &b.note);
    assert_eq!(a.note.id, 1);
    assert_eq!(b.note.id, 2);
    // Delete the non-maximal note: the surrounding process removes the file.
    let r = m.delete_note(1, true).unwrap();
    assert!(r.success);
    files.retain(|f| f.name != note_file_name(1));
    assert!(matches!(
        m.get_note_by_id(1, None),
        Err(NoteError::NotFound(1))
    ));
    // Its id is not handed out again while a larger one is on disk.
    let c = m.create_note_at(&files, create_req("c", "", None), T2);
    assert_eq!(c.note.id, 3);
}

#[test]
fn filter_and_paginate() {
    let mut files: Vec<NoteFile> = Vec::new();
    let mut m = NoteManager::new(&files).unwrap();
    // Ten notes; the titles of four hold "alpha".
    for i in 0..10 {
        let title = if i % 3 == 0 {
            format!("alpha {}", i)
        } else {
            format!("beta {}", i)
        };
        // Distinct update times so the order is deterministic.
        let ts = format!("2024-01-01T10:{:02}:00+00:00", i);
        let created = m.create_note_at(&files, create_req(&title, "text", None), &ts);
        persist(&mut files, &created.note);
    }
    let params = ListNotesParams {
        search: Some("alpha".to_string()),
        tag_ids: None,
        limit: Some(2),
        offset: Some(1),
    };
    let resp = m.list_notes(&files, params).unwrap();
    assert_eq!(resp.total, 4);
    assert_eq!(resp.notes.len(), 2);
    // Newest first is 9, 6, 3, 0; the offset skips "alpha 9".
    assert_eq!(resp.notes[0].title, "alpha 6");
    assert_eq!(resp.notes[1].title, "alpha 3");
}

#[test]
fn search_is_case_folded() {
    let mut files: Vec<NoteFile> = Vec::new();
    let mut m = NoteManager::new(&files).unwrap();
    let created = m.create_note_at(&files, create_req("alpha notes", "x", None), T1);
    persist(&mut files, &created.note);
    let params = ListNotesParams {
        search: Some("ALPHA".to_string()),
        tag_ids: None,
        limit: None,
        offset: None,
    };
    let resp = m.list_notes(&files, params).unwrap();
    assert_eq!(resp.total, 1);
    assert_eq!(resp.notes[0].title, "alpha notes");
}

#[test]
fn list_filters_by_tag_ids() {
    let mut files: Vec<NoteFile> = Vec::new();
    let mut m = NoteManager::new(&files).unwrap();
    let a = m.create_note_at(&files, create_req("a", "", Some(vec!["work"])), T1);
    persist(&mut files, &a.note);
    let b = m.create_note_at(&files, create_req("b", "", Some(vec!["play"])), T2);
    persist(&mut files, &b.note);
    let work_id = a.note.tags[0].id;
    let params = ListNotesParams {
        search: None,
        tag_ids: Some(vec![work_id]),
        limit: None,
        offset: None,
    };
    let resp = m.list_notes(&files, params).unwrap();
    assert_eq!(resp.total, 1);
    assert_eq!(resp.notes[0].title, "a");
    // An empty id list filters nothing.
    let params = ListNotesParams {
        search: None,
        tag_ids: Some(Vec::new()),
        limit: None,
        offset: None,
    };
    assert_eq!(m.list_notes(&files, params).unwrap().total, 2);
}

#[test]
fn list_skips_undecodable_files() {
    let mut files: Vec<NoteFile> = Vec::new();
    let mut m = NoteManager::new(&files).unwrap();
    let a = m.create_note_at(&files, create_req("good", "", None), T1);
    persist(&mut files, &a.note);
    files.push(NoteFile { name: "junk.md".to_string(), text: "no frontmatter".to_string() });
    files.push(NoteFile { name: "7.md".to_string(), text: "---\nbroken\n---\n\nx".to_string() });
    let resp = m.list_notes(&files, ListNotesParams::default()).unwrap();
    assert_eq!(resp.total, 1);
    assert_eq!(resp.notes[0].title, "good");
}

#[test]
fn decode_error_kinds() {
    assert!(matches!(
        parse_markdown_content("plain text"),
        Err(NoteError::InvalidFrontmatter)
    ));
    assert!(matches!(
        parse_markdown_content("--- only one delimiter"),
        Err(NoteError::InvalidFrontmatter)
    ));
    assert!(matches!(
        parse_markdown_content("---\nnot: \"metadata\"\n---\n\nbody"),
        Err(NoteError::Metadata)
    ));
}

#[test]
fn registry_rebuilt_from_disk_in_scan_order() {
    let mut files: Vec<NoteFile> = Vec::new();
    let mut m = NoteManager::new(&files).unwrap();
    let a = m.create_note_at(&files, create_req("a", "", Some(vec!["zeta", "alpha"])), T1);
    persist(&mut files, &a.note);
    let b = m.create_note_at(&files, create_req("b", "", Some(vec!["alpha", "mid"])), T2);
    persist(&mut files, &b.note);
    // A fresh manager rebuilds ids from the files, in snapshot order.
    let m2 = NoteManager::new(&files).unwrap();
    let tags = m2.list_tags_at(T3).tags;
    let pairs: Vec<(u32, &str)> = tags.iter().map(|t| (t.id, t.name.as_str())).collect();
    assert_eq!(pairs, vec![(1, "zeta"), (2, "alpha"), (3, "mid")]);
    assert!(tags.iter().all(|t| t.created_at == T3));
}

#[test]
fn get_note_reads_back_persisted_note() {
    let mut files: Vec<NoteFile> = Vec::new();
    let mut m = NoteManager::new(&files).unwrap();
    let created = m.create_note_at(&files, create_req("t", "body text", Some(vec!["q"])), T1);
    persist(&mut files, &created.note);
    let id = created.note.id;
    let text = files.iter().find(|f| f.name == note_file_name(id)).map(|f| f.text.clone());
    let got = m.get_note_by_id(id, text.as_ref()).unwrap();
    assert_eq!(got.note.id, id);
    assert_eq!(got.note.title, "t");
    assert_eq!(got.note.content, "body text");
    assert_eq!(got.note.tags.len(), 1);
    assert_eq!(got.note.tags[0].name, "q");
    assert_eq!(got.note.tags[0].id, 1);
}

#[test]
fn file_name_is_id_and_extension() {
    assert_eq!(note_file_name(0), "0.md");
    assert_eq!(note_file_name(907), "907.md");
    assert_eq!(note_file_name(u32::MAX - 1), "4294967294.md");
}

#[test]
fn clocked_operations_stamp_a_single_instant() {
    let mut files: Vec<NoteFile> = Vec::new();
    let mut m = NoteManager::new(&files).unwrap();
    let created = m
        .create_note(&files, create_req("t", "c", Some(vec!["k"])))
        .unwrap();
    assert_eq!(created.note.created_at, created.note.updated_at);
    assert_eq!(created.note.tags[0].created_at, created.note.created_at);
    persist(&mut files, &created.note);
    let tags = m.list_tags().unwrap().tags;
    assert_eq!(tags.len(), 1);
    assert_eq!(tags[0].name, "k");
    assert_eq!(tags[0].id, 1);
}

#[test]
fn decodes_plain_scalar_and_block_list_metadata() {
    // The block style a YAML serializer writes: plain scalars and a block
    // list with unquoted items.
    let text = "---\nid: 7\ntitle: T\ntags:\n- a\n- b\ncreatedAt: '2024-01-01T00:00:00+00:00'\nupdatedAt: '2024-01-02T00:00:00+00:00'\n---\n\nBody";
    let (fm, body) = parse_markdown_content(text).unwrap();
    assert_eq!(fm.id, 7);
    assert_eq!(fm.title, "T");
    assert_eq!(fm.tags, vec!["a".to_string(), "b".to_string()]);
    assert_eq!(fm.created_at, "2024-01-01T00:00:00+00:00");
    assert_eq!(fm.updated_at, "2024-01-02T00:00:00+00:00");
    assert_eq!(body, "Body");
}

#[test]
fn decodes_flow_list_metadata() {
    let text = "---\nid: 7\ntitle: T\ntags: [a, b]\ncreatedAt: '2024-01-01T00:00:00+00:00'\nupdatedAt: '2024-01-02T00:00:00+00:00'\n---\nBody";
    let (fm, body) = parse_markdown_content(text).unwrap();
    assert_eq!(fm.id, 7);
    assert_eq!(fm.title, "T");
    assert_eq!(fm.tags, vec!["a".to_string(), "b".to_string()]);
    assert_eq!(body, "Body");
    // Quoted flow items and extra spaces are read the same way.
    let text = "---\nid: 8\ntitle: 'U'\ntags: [ 'x' , y ]\ncreatedAt: c\nupdatedAt: u\n---\n\n";
    let (fm, _) = parse_markdown_content(text).unwrap();
    assert_eq!(fm.id, 8);
    assert_eq!(fm.tags, vec!["x".to_string(), "y".to_string()]);
}

#[test]
fn decodes_double_quoted_scalars() {
    let text = "---\nid: 9\ntitle: \"line\\nbreak\"\ntags: []\ncreatedAt: 'c'\nupdatedAt: 'u'\n---\n\nx";
    let (fm, body) = parse_markdown_content(text).unwrap();
    assert_eq!(fm.title, "line\nbreak");
    assert!(fm.tags.is_empty());
    assert_eq!(body, "x");
}

#[test]
fn encoded_shape_is_the_yaml_subset() {
    let files: Vec<NoteFile> = Vec::new();
    let mut m = NoteManager::new(&files).unwrap();
    let resp = m.create_note_at(&files, create_req("T", "Body", Some(vec!["a"])), T1);
    let text = encode_note(&resp.note);
    assert_eq!(
        text,
        "---\nid: 1\ntitle: 'T'\ntags:\n- 'a'\ncreatedAt: '2024-01-01T10:00:00+00:00'\nupdatedAt: '2024-01-01T10:00:00+00:00'\n---\n\nBody"
    );
    let empty_tags = m.create_note_at(&files, create_req("it's", "", None), T1);
    let text = encode_note(&empty_tags.note);
    assert_eq!(
        text,
        "---\nid: 1\ntitle: 'it''s'\ntags: []\ncreatedAt: '2024-01-01T10:00:00+00:00'\nupdatedAt: '2024-01-01T10:00:00+00:00'\n---\n\n"
    );
}
