use pubspec_lsp::completions::{filter_names, name_items, version_items, CompletionItemKind};
use pubspec_lsp::lsp::{Position, Range};
use pubspec_lsp::pubdev::{PackageInfo, VersionEntry};

fn info() -> PackageInfo {
    PackageInfo {
        name: "http".into(),
        description: None,
        latest: "1.6.0".into(),
        versions: ["0.13.6", "1.5.0", "1.6.0-beta", "1.6.0"]
            .into_iter()
            .map(|v| VersionEntry {
                version: v.into(),
                retracted: v == "1.6.0-beta",
            })
            .collect(),
        is_discontinued: false,
        replaced_by: None,
    }
}

#[test]
fn filter_names_prefix_before_substring() {
    let names: Vec<String> = ["http", "dio", "http_parser", "chopper_http"]
        .into_iter()
        .map(String::from)
        .collect();
    assert_eq!(
        filter_names(&names, "http"),
        vec!["http", "http_parser", "chopper_http"]
    );
    // Empty prefix: everything, popularity order.
    assert_eq!(filter_names(&names, "").len(), 4);
}

#[test]
fn version_items_latest_first_skips_retracted() {
    let items = version_items(&info(), "", Range::default(), false);
    let labels: Vec<&str> = items.iter().map(|i| i.label.as_str()).collect();
    assert_eq!(labels, vec!["^1.6.0", "^1.5.0", "^0.13.6"]);
    assert_eq!(items[0].preselect, Some(true));
    assert_eq!(items[0].sort_text.as_deref(), Some("00000"));
}

#[test]
fn version_items_respect_typed_caret_and_space() {
    let items = version_items(&info(), "^1", Range::default(), false);
    assert_eq!(items[0].text_edit.new_text, "1.6.0"); // caret already typed

    let items = version_items(&info(), "", Range::default(), true);
    assert_eq!(items[0].text_edit.new_text, " ^1.6.0"); // no space after colon yet
}

#[test]
fn filter_names_lowercases_the_prefix_and_caps_at_fifty() {
    let names: Vec<String> = (0..80).map(|i| format!("pkg_{i}")).collect();
    let found = filter_names(&names, "PKG");
    assert_eq!(found.len(), 50);
    assert_eq!(found[0], "pkg_0");
    assert_eq!(found[49], "pkg_49");
    let none = filter_names(&names, "zzz");
    assert!(none.is_empty());
}

#[test]
fn version_items_list_at_most_twenty() {
    let mut many = info();
    many.versions = (0..30)
        .map(|i| VersionEntry {
            version: format!("0.{i}.0"),
            retracted: false,
        })
        .collect();
    let items = version_items(&many, "", Range::default(), false);
    assert_eq!(items.len(), 20);
    assert_eq!(items[1].label, "^0.29.0");
    assert_eq!(items[19].label, "^0.11.0");
    assert_eq!(items[19].sort_text.as_deref(), Some("00019"));
    assert_eq!(items[1].preselect, None);
    assert_eq!(items[0].label_description.as_deref(), Some("latest"));
    assert_eq!(items[1].label_description, None);
    assert_eq!(items[0].kind, Some(CompletionItemKind::Value));
}

#[test]
fn name_items_append_colon_when_needed() {
    let range = Range::new(Position::new(3, 2), Position::new(3, 6));
    let names = vec!["http", "dio"];
    let items = name_items(&names, range, true);
    assert_eq!(items.len(), 2);
    assert_eq!(items[0].label, "http");
    assert_eq!(items[0].text_edit.new_text, "http: ");
    assert_eq!(items[0].text_edit.range, range);
    assert_eq!(items[1].sort_text.as_deref(), Some("00001"));
    assert_eq!(items[1].filter_text.as_deref(), Some("dio"));
    assert_eq!(items[1].kind, Some(CompletionItemKind::Module));
    let plain = name_items(&names, range, false);
    assert_eq!(plain[1].text_edit.new_text, "dio");
}
