use pubspec_lsp::document::{is_pubspec_uri, lsp_position, Document, DocumentStore};
use pubspec_lsp::lsp::Position;

#[test]
fn lsp_position_ascii() {
    assert_eq!(lsp_position("abc\ndef", 2, 2), Position::new(1, 1));
}

#[test]
fn lsp_position_non_bmp() {
    // '😀' is one char but two UTF-16 code units.
    assert_eq!(lsp_position("😀abc", 1, 3), Position::new(0, 3));
}

#[test]
fn lsp_position_out_of_bounds_line() {
    assert_eq!(lsp_position("abc", 9, 1), Position::new(8, 0));
}

#[test]
fn pubspec_uris_are_accepted() {
    assert!(is_pubspec_uri("file:///app/pubspec.yaml"));
    assert!(is_pubspec_uri(
        "file:///app/packages/core/pubspec_overrides.yaml"
    ));
    assert!(is_pubspec_uri("file:///C:/app/pubspec.yaml"));
}

#[test]
fn other_yaml_uris_are_rejected() {
    assert!(!is_pubspec_uri("file:///app/analysis_options.yaml"));
    assert!(!is_pubspec_uri("file:///app/.github/workflows/ci.yml"));
    assert!(!is_pubspec_uri("file:///app/my_pubspec.yaml"));
    assert!(!is_pubspec_uri("file:///app/pubspec.yaml.bak"));
}

#[test]
fn lsp_position_column_past_line_end_clamps() {
    assert_eq!(lsp_position("ab\ncd", 1, 10), Position::new(0, 2));
}

#[test]
fn lsp_position_line_zero_is_first_line() {
    assert_eq!(lsp_position("abc", 0, 0), Position::new(0, 0));
}

#[test]
fn lsp_position_crlf_line_endings() {
    // The '\r' before '\n' is not part of the line.
    assert_eq!(lsp_position("ab\r\ncd", 1, 5), Position::new(0, 2));
    assert_eq!(lsp_position("ab\r\ncd", 2, 2), Position::new(1, 1));
}

#[test]
fn bare_file_name_is_accepted() {
    assert!(is_pubspec_uri("pubspec.yaml"));
    assert!(!is_pubspec_uri(""));
}

#[test]
fn document_parses_its_model() {
    let doc = Document::new("dependencies:\n  http: ^1.0.0\n".to_string(), 3);
    assert_eq!(doc.version, 3);
    assert_eq!(doc.model.expect("parses").sections.len(), 1);
    let broken = Document::new("dependencies: [http, \n".to_string(), 1);
    assert!(broken.model.is_none());
}

#[test]
fn store_gives_back_what_was_written() {
    let mut store = DocumentStore::default();
    let uri = "file:///app/pubspec.yaml";
    assert!(store.get(uri).is_none());
    store.upsert(uri, "dependencies:\n  http: ^1.0.0\n".to_string(), 1);
    let doc = store.get(uri).expect("stored");
    assert_eq!(doc.text, "dependencies:\n  http: ^1.0.0\n");
    assert_eq!(doc.version, 1);
    let model = doc.model.expect("parsed");
    assert_eq!(model.sections.len(), 1);
    assert_eq!(model.sections[0].entries[0].name, "http");
}

#[test]
fn store_upsert_replaces_and_keeps_other_uris() {
    let mut store = DocumentStore::default();
    let a = "file:///a/pubspec.yaml";
    let b = "file:///b/pubspec.yaml";
    store.upsert(a, "name: a\n".to_string(), 1);
    store.upsert(b, "name: b\n".to_string(), 1);
    store.upsert(a, "dependencies: [\n".to_string(), 2);
    let doc_a = store.get(a).expect("a");
    assert_eq!(doc_a.version, 2);
    assert!(doc_a.model.is_none());
    let doc_b = store.get(b).expect("b");
    assert_eq!(doc_b.text, "name: b\n");
    assert_eq!(doc_b.version, 1);
}

#[test]
fn store_remove_forgets_only_that_uri() {
    let mut store = DocumentStore::default();
    let a = "file:///a/pubspec.yaml";
    let b = "file:///b/pubspec.yaml";
    store.upsert(a, "name: a\n".to_string(), 1);
    store.upsert(b, "name: b\n".to_string(), 1);
    store.remove(a);
    assert!(store.get(a).is_none());
    assert!(store.get(b).is_some());
    store.remove(a);
    assert!(store.get(a).is_none());
}

#[test]
fn only_the_last_segment_decides() {
    for prefix in ["file:///app", "file:///C:/a/b", "", "x"] {
        for name in ["pubspec.yaml", "pubspec_overrides.yaml", "deps.yaml", "pubspec.yml"] {
            let uri = format!("{prefix}/{name}");
            assert_eq!(is_pubspec_uri(&uri), is_pubspec_uri(name));
            assert_eq!(
                is_pubspec_uri(name),
                name == "pubspec.yaml" || name == "pubspec_overrides.yaml"
            );
        }
    }
}
