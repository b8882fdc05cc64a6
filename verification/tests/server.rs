use pubspec_lsp::actions::CodeActionKind;
use pubspec_lsp::diagnostics::{Diagnostic, UpdateData, SOURCE};
use pubspec_lsp::lsp::Range;
use pubspec_lsp::server::code_actions;

fn outdated(latest: &str) -> Diagnostic {
    Diagnostic {
        range: Range::default(),
        severity: None,
        source: Some(SOURCE.to_string()),
        message: String::new(),
        data: Some(UpdateData { latest: Some(latest.to_string()), caret: Some(true) }),
    }
}

#[test]
fn sort_action_is_offered_for_an_unsorted_section() {
    let text = "name: demo\ndependencies:\n  zeta: ^1.0.0\n  alpha: ^1.0.0\n";
    let actions = code_actions("file:///tmp/app/pubspec.yaml", &[], &[], Some(text), 2);
    assert_eq!(actions.len(), 1);
    assert_eq!(actions[0].title, "Sort dependencies alphabetically");
    assert_eq!(actions[0].kind, Some(CodeActionKind::RefactorRewrite));
}

#[test]
fn quickfix_update_all_and_sort_in_order() {
    let text = "dependencies:\n  zeta: ^1.0.0\n  alpha: ^1.0.0\n";
    let mut foreign = outdated("9.9.9");
    foreign.source = None;
    let context = vec![outdated("1.6.0"), foreign];
    let published = vec![outdated("1.6.0"), outdated("2.0.0")];
    let actions = code_actions("file:///p/pubspec.yaml", &context, &published, Some(text), 1);
    let titles: Vec<&str> = actions.iter().map(|a| a.title.as_str()).collect();
    assert_eq!(
        titles,
        vec![
            "Update to ^1.6.0",
            "Update all dependencies to latest (2)",
            "Sort dependencies alphabetically"
        ]
    );
}

#[test]
fn nothing_without_document_or_diagnostics() {
    assert!(code_actions("file:///p/pubspec.yaml", &[], &[], None, 0).is_empty());
}

use pubspec_lsp::server::Generations;

#[test]
fn only_the_latest_run_is_current() {
    let mut generations = Generations::new();
    let uri = "file:///p/pubspec.yaml";
    assert_eq!(generations.current(uri), 0);
    let first = generations.bump(uri);
    assert_eq!(first, 1);
    assert!(generations.is_current(uri, first));
    let other = generations.bump("file:///q/pubspec.yaml");
    assert_eq!(other, 1);
    assert!(generations.is_current(uri, first));
    let second = generations.bump(uri);
    assert_eq!(second, 2);
    assert!(!generations.is_current(uri, first));
    assert!(generations.is_current(uri, second));
    generations.forget(uri);
    assert!(!generations.is_current(uri, second));
    assert_eq!(generations.current(uri), 0);
}

use pubspec_lsp::document::DocumentStore;

/// The server is attached to every YAML file, so it stays silent on
/// anything that isn't a pubspec: such a document is not taken, and no
/// action is offered for it.
#[test]
fn ignores_non_pubspec_yaml_files() {
    let unsorted = "name: demo\ndependencies:\n  zeta: ^1.0.0\n  alpha: ^1.0.0\n";
    let mut store = DocumentStore::default();
    let sort_actions = |store: &mut DocumentStore, uri: &str| {
        store.accept(uri, unsorted.to_string(), 1);
        let doc = store.get(uri);
        code_actions(uri, &[], &[], doc.as_ref().map(|d| d.text.as_str()), 2)
    };

    // Control: the same text in a pubspec does offer the sort action.
    let pubspec = sort_actions(&mut store, "file:///tmp/app/pubspec.yaml");
    assert_eq!(pubspec[0].title, "Sort dependencies alphabetically");

    let other = sort_actions(&mut store, "file:///tmp/app/deps.yaml");
    assert!(other.is_empty());
    assert!(store.get("file:///tmp/app/deps.yaml").is_none());
}

#[test]
fn empty_document_offers_no_sort() {
    assert!(code_actions("file:///p/pubspec.yaml", &[], &[], Some(""), 0).is_empty());
}
