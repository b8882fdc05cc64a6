use pubspec_lsp::hover::{hover_content, hover_target};
use pubspec_lsp::lsp::{Position, Range};
use pubspec_lsp::pubdev::{description_from, PackageInfo};
use pubspec_lsp::pubspec::PubspecModel;

fn info(discontinued: bool, replaced_by: Option<&str>, description: Option<&str>) -> PackageInfo {
    PackageInfo {
        name: "http".into(),
        description: description.map(String::from),
        latest: "1.6.0".into(),
        versions: Vec::new(),
        is_discontinued: discontinued,
        replaced_by: replaced_by.map(String::from),
    }
}

#[test]
fn markdown_of_a_package() {
    let range = Range::new(Position::new(2, 2), Position::new(2, 6));
    let h = hover_content(&info(false, None, Some("A composable HTTP library.")), range);
    assert_eq!(
        h.markdown,
        "**http** — A composable HTTP library.\n\nLatest: `1.6.0` · [pub.dev](https://pub.dev/packages/http)"
    );
    assert_eq!(h.range, Some(range));
}

#[test]
fn markdown_of_a_discontinued_package() {
    let h = hover_content(&info(true, Some("dio"), None), Range::default());
    assert_eq!(
        h.markdown,
        "**http**\n\nLatest: `1.6.0` · [pub.dev](https://pub.dev/packages/http)\n\n⚠️ **Discontinued** — replaced by [dio](https://pub.dev/packages/dio)"
    );
    let h = hover_content(&info(true, None, None), Range::default());
    assert!(h.markdown.ends_with("⚠️ **Discontinued**"));
}

#[test]
fn hover_targets_include_sdk_git_and_path_dependencies() {
    let text = "dependencies:\n  flutter:\n    sdk: flutter\n  http: ^1.0.0\n  local:\n    path: ../local\n";
    let model = PubspecModel::parse(text).unwrap();
    assert_eq!(hover_target(&model, Position::new(1, 3)).unwrap().name, "flutter");
    assert_eq!(hover_target(&model, Position::new(3, 3)).unwrap().name, "http");
    assert_eq!(hover_target(&model, Position::new(4, 3)).unwrap().name, "local");
    assert!(hover_target(&model, Position::new(3, 10)).is_none());
}

#[test]
fn pub_dev_url_and_description() {
    assert_eq!(info(false, None, None).pub_dev_url(), "https://pub.dev/packages/http");
    assert_eq!(description_from(Some("  A library.  ")), Some("A library.".to_string()));
    assert_eq!(description_from(Some("   ")), None);
    assert_eq!(description_from(None), None);
}

#[test]
fn hover_target_skips_entries_of_unknown_shape() {
    let text = "dependencies:\n  odd:\n    - a\n";
    let model = PubspecModel::parse(text).unwrap();
    assert!(hover_target(&model, Position::new(1, 3)).is_none());
}
