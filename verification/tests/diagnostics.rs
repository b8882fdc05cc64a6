use pubspec_lsp::diagnostics::{
    document_diagnostics, entry_diagnostics, hosted_checks, sort_diagnostics, uses_caret, Diagnostic,
    DiagnosticSeverity, SOURCE,
};
use pubspec_lsp::document::Document;
use pubspec_lsp::lsp::{Position, Range};
use pubspec_lsp::pubdev::{PackageInfo, VersionEntry};
use pubspec_lsp::pubspec::{DepEntry, PubspecModel};

fn package(name: &str, latest: &str, discontinued: bool) -> PackageInfo {
    PackageInfo {
        name: name.to_string(),
        description: Some(format!("The {name} package.")),
        latest: latest.to_string(),
        versions: vec![
            VersionEntry { version: "0.9.0".into(), retracted: false },
            VersionEntry { version: latest.into(), retracted: false },
        ],
        is_discontinued: discontinued,
        replaced_by: if discontinued { Some("shiny_new".to_string()) } else { None },
    }
}

fn entry(model: &PubspecModel, name: &str) -> DepEntry {
    model
        .sections
        .iter()
        .flat_map(|s| s.entries.iter())
        .find(|e| e.name == name)
        .expect("entry")
        .clone()
}

/// The diagnostics of a document, with `lookup` answering the package
/// metadata requests (`None` for an unknown package or no network).
fn compute(doc: &Document, lookup: &dyn Fn(&str) -> Option<PackageInfo>) -> Vec<Diagnostic> {
    let Some(model) = doc.model.as_ref() else {
        return Vec::new();
    };
    let infos: Vec<Option<PackageInfo>> = hosted_checks(model)
        .into_iter()
        .map(|(i, j, _)| lookup(&model.sections[i].entries[j].name))
        .collect();
    document_diagnostics(model, &infos)
}

fn document(text: &str) -> Document {
    Document::new(text.to_string(), 1)
}

fn pub_dev(name: &str) -> Option<PackageInfo> {
    match name {
        "http" => Some(package("http", "1.6.0", false)),
        "pedantic" => Some(package("pedantic", "1.11.1", true)),
        _ => None,
    }
}

#[test]
fn outdated_and_discontinued_diagnostics() {
    let doc = document("name: demo\ndependencies:\n  http: ^0.13.0\n  pedantic: ^0.9.0\n");
    let diags = compute(&doc, &pub_dev);
    assert_eq!(diags.len(), 3, "diags: {diags:#?}");
    // Line 2: http outdated (hint on the constraint).
    assert_eq!(diags[0].severity, Some(DiagnosticSeverity::Hint));
    assert_eq!(diags[0].message, "Newer version available: 1.6.0");
    assert_eq!(diags[0].range.start.line, 2);
    let data = diags[0].data.as_ref().unwrap();
    assert_eq!(data.latest.as_deref(), Some("1.6.0"));
    assert_eq!(data.caret, Some(true));
    // Line 3: pedantic discontinued (warning on the name) + outdated hint.
    assert_eq!(diags[1].severity, Some(DiagnosticSeverity::Warning));
    assert!(diags[1].message.contains("discontinued"));
    assert!(diags[1].message.contains("shiny_new"));
    assert_eq!(diags[1].message, "Package 'pedantic' is discontinued, replaced by 'shiny_new'");
    assert_eq!(diags[2].severity, Some(DiagnosticSeverity::Hint));
    assert_eq!(diags[2].source.as_deref(), Some(SOURCE));
}

#[test]
fn bare_constraint_reports_no_caret() {
    let diags = compute(&document("dependencies:\n  http: 1.5.0\n"), &pub_dev);
    assert_eq!(diags.len(), 1);
    let data = diags[0].data.as_ref().unwrap();
    assert_eq!(data.latest.as_deref(), Some("1.6.0"));
    assert_eq!(data.caret, Some(false));
}

#[test]
fn up_to_date_unknown_and_nonhosted_produce_nothing() {
    let doc = document(
        "dependencies:\n  http: ^1.6.0\n  no_such_pkg: ^1.0.0\n  flutter:\n    sdk: flutter\n",
    );
    let diags = compute(&doc, &pub_dev);
    assert!(diags.is_empty(), "diags: {diags:#?}");
}

#[test]
fn offline_is_silent() {
    let doc = document("dependencies:\n  http: ^0.13.0\n");
    let diags = compute(&doc, &|_| None);
    assert!(diags.is_empty());
}

#[test]
fn overrides_skip_outdated_but_keep_discontinued() {
    let doc = document("dependency_overrides:\n  http: ^0.13.0\n  pedantic: ^1.0.0\n");
    let diags = compute(&doc, &pub_dev);
    assert_eq!(diags.len(), 1, "diags: {diags:#?}");
    assert_eq!(diags[0].severity, Some(DiagnosticSeverity::Warning));
    assert!(diags[0].message.contains("discontinued"));
}

#[test]
fn broken_yaml_produces_nothing() {
    let doc = document("dependencies: [http, \n");
    assert!(doc.model.is_none());
    assert!(compute(&doc, &pub_dev).is_empty());
}

#[test]
fn hosted_checks_skip_non_hosted_entries() {
    let model = PubspecModel::parse(
        "dependencies:\n  flutter:\n    sdk: flutter\n  http: any\ndependency_overrides:\n  a:\n    path: ../a\n  b: ^1.0.0\n",
    )
    .unwrap();
    assert_eq!(hosted_checks(&model), vec![(0, 1, true), (1, 1, false)]);
}

#[test]
fn outdated_hint_falls_back_to_the_name_range() {
    let model = PubspecModel::parse("dependencies:\n  http: '0.1.0'\n").unwrap();
    let e = entry(&model, "http");
    let diags = entry_diagnostics(&e, &package("http", "1.6.0", false), true);
    assert_eq!(diags.len(), 1);
    assert_eq!(diags[0].range.start, Position::new(1, 8));
    let no_range = DepEntry {
        name: "x".into(),
        name_range: Range::new(Position::new(7, 2), Position::new(7, 3)),
        source: pubspec_lsp::pubspec::DepSource::Hosted {
            constraint: Some("0.1.0".into()),
            constraint_range: None,
        },
    };
    let diags = entry_diagnostics(&no_range, &package("x", "1.0.0", false), true);
    assert_eq!(diags[0].range, no_range.name_range);
}

#[test]
fn discontinued_without_replacement() {
    let model = PubspecModel::parse("dependencies:\n  old: ^1.0.0\n").unwrap();
    let mut info = package("old", "1.0.0", true);
    info.replaced_by = None;
    let diags = entry_diagnostics(&entry(&model, "old"), &info, true);
    assert_eq!(diags.len(), 1);
    assert_eq!(diags[0].message, "Package 'old' is discontinued");
}

#[test]
fn uses_caret_ignores_spaces_and_quotes() {
    assert!(uses_caret(Some("^1.0.0")));
    assert!(uses_caret(Some(" \"^1.0.0\" ")));
    assert!(uses_caret(Some("' ^1.0.0'")));
    assert!(!uses_caret(Some("1.0.0")));
    assert!(!uses_caret(Some(">=1.0.0")));
    assert!(!uses_caret(None));
}

#[test]
fn sort_is_by_start_position_and_stable() {
    let d = |line: u32, character: u32, message: &str| Diagnostic {
        range: Range::new(Position::new(line, character), Position::new(line, character + 1)),
        severity: None,
        source: None,
        message: message.to_string(),
        data: None,
    };
    let sorted = sort_diagnostics(vec![d(3, 1, "a"), d(1, 5, "b"), d(3, 1, "c"), d(1, 2, "d")]);
    let order: Vec<&str> = sorted.iter().map(|x| x.message.as_str()).collect();
    assert_eq!(order, vec!["d", "b", "a", "c"]);
}

#[test]
fn checks_without_metadata_report_nothing() {
    let model =
        PubspecModel::parse("dependencies:\n  http: ^0.13.0\n  pedantic: ^0.9.0\n").unwrap();
    // Only the first check got an answer; the second lookup is missing.
    let diags = document_diagnostics(&model, &[Some(package("http", "1.6.0", false))]);
    assert_eq!(diags.len(), 1);
    assert_eq!(diags[0].message, "Newer version available: 1.6.0");
    let diags = document_diagnostics(&model, &[None, Some(package("pedantic", "1.11.1", true))]);
    assert_eq!(diags.len(), 2);
    assert_eq!(diags[0].severity, Some(DiagnosticSeverity::Warning));
    assert!(document_diagnostics(&model, &[]).is_empty());
}
