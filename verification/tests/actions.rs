use pubspec_lsp::actions::{
    update_action, update_all_action, CodeAction, CodeActionKind,
};
use pubspec_lsp::diagnostics::{Diagnostic, UpdateData, SOURCE};
use pubspec_lsp::lsp::{Position, Range, TextEdit};
use pubspec_lsp::sort_section::sort_section_edit;

fn diagnostic(latest: Option<&str>, caret: Option<bool>) -> Diagnostic {
    Diagnostic {
        range: Range::default(),
        severity: None,
        source: Some(SOURCE.into()),
        message: String::new(),
        data: Some(UpdateData {
            latest: latest.map(String::from),
            caret,
        }),
    }
}

fn uri() -> String {
    "file:///pubspec.yaml".to_string()
}

fn action_edit_text(action: &CodeAction) -> String {
    action.edit.as_ref().unwrap().edits[0].new_text.clone()
}

#[test]
fn update_action_keeps_caret_when_original_had_one() {
    let action = update_action(&uri(), &diagnostic(Some("1.6.0"), Some(true))).unwrap();
    assert_eq!(action.title, "Update to ^1.6.0");
    assert_eq!(action_edit_text(&action), "^1.6.0");
}

#[test]
fn update_action_omits_caret_when_original_had_none() {
    let action = update_action(&uri(), &diagnostic(Some("1.6.0"), Some(false))).unwrap();
    assert_eq!(action.title, "Update to 1.6.0");
    assert_eq!(action_edit_text(&action), "1.6.0");
}

#[test]
fn update_action_defaults_to_caret_when_flag_absent() {
    let action = update_action(&uri(), &diagnostic(Some("1.6.0"), None)).unwrap();
    assert_eq!(action_edit_text(&action), "^1.6.0");
}

#[test]
fn update_action_needs_latest() {
    assert!(update_action(&uri(), &diagnostic(None, Some(true))).is_none());
    let mut no_data = diagnostic(Some("1.0.0"), None);
    no_data.data = None;
    assert!(update_action(&uri(), &no_data).is_none());
}

#[test]
fn update_action_is_a_preferred_quickfix_for_its_diagnostic() {
    let mut d = diagnostic(Some("2.0.0"), Some(true));
    d.range = Range::new(Position::new(3, 8), Position::new(3, 14));
    d.message = "Newer version available: 2.0.0".to_string();
    let action = update_action(&uri(), &d).unwrap();
    assert_eq!(action.kind, Some(CodeActionKind::QuickFix));
    assert_eq!(action.is_preferred, Some(true));
    let diags = action.diagnostics.unwrap();
    assert_eq!(diags.len(), 1);
    assert_eq!(diags[0].message, "Newer version available: 2.0.0");
    let edit = action.edit.unwrap();
    assert_eq!(edit.uri, "file:///pubspec.yaml");
    assert_eq!(edit.edits[0].range, d.range);
}

#[test]
fn update_all_needs_two_updates_of_this_server() {
    let one = vec![diagnostic(Some("1.6.0"), Some(true))];
    assert!(update_all_action(&uri(), &one).is_none());

    let mut foreign = diagnostic(Some("3.0.0"), Some(true));
    foreign.source = Some("dart".to_string());
    let mut two = vec![
        diagnostic(Some("1.6.0"), Some(true)),
        foreign,
        diagnostic(Some("2.0.0"), Some(false)),
    ];
    let action = update_all_action(&uri(), &two).unwrap();
    assert_eq!(action.title, "Update all dependencies to latest (2)");
    assert_eq!(action.kind, Some(CodeActionKind::Source));
    let edits = action.edit.unwrap().edits;
    assert_eq!(edits.len(), 2);
    assert_eq!(edits[0].new_text, "^1.6.0");
    assert_eq!(edits[1].new_text, "2.0.0");

    two[2].data = None;
    assert!(update_all_action(&uri(), &two).is_none());
}

fn apply(text: &str, edit: &TextEdit) -> String {
    let lines: Vec<&str> = text.lines().collect();
    let mut out: Vec<String> = lines[..edit.range.start.line as usize]
        .iter()
        .map(|l| l.to_string())
        .collect();
    out.push(edit.new_text.clone());
    out.extend(
        lines[(edit.range.end.line as usize + 1)..]
            .iter()
            .map(|l| l.to_string()),
    );
    out.join("\n") + if text.ends_with('\n') { "\n" } else { "" }
}

#[test]
fn sorts_simple_section() {
    let text = "dependencies:\n  zeta: ^1.0.0\n  alpha: ^2.0.0\n";
    let edit = sort_section_edit(text, 1).expect("edit");
    assert_eq!(
        apply(text, &edit),
        "dependencies:\n  alpha: ^2.0.0\n  zeta: ^1.0.0\n"
    );
}

#[test]
fn already_sorted_returns_none() {
    let text = "dependencies:\n  alpha: ^2.0.0\n  zeta: ^1.0.0\n";
    assert!(sort_section_edit(text, 1).is_none());
}

#[test]
fn comments_travel_with_entries_and_blocks_stay_intact() {
    let text = "\
dependencies:
  # networking
  zeta:
    git:
      url: https://example.com/zeta

  alpha: ^2.0.0
name_after: x
";
    let edit = sort_section_edit(text, 2).expect("edit");
    let expected = "\
dependencies:
  alpha: ^2.0.0
  # networking
  zeta:
    git:
      url: https://example.com/zeta

name_after: x
";
    assert_eq!(apply(text, &edit), expected);
}

#[test]
fn only_the_cursor_section_is_sorted() {
    let text = "\
dependencies:
  zeta: ^1.0.0
  alpha: ^2.0.0
dev_dependencies:
  beta: ^1.0.0
  alpha: ^1.0.0
";
    // Cursor in dev_dependencies (line 4).
    let edit = sort_section_edit(text, 4).expect("edit");
    let applied = apply(text, &edit);
    assert!(applied.contains("dependencies:\n  zeta: ^1.0.0\n  alpha: ^2.0.0\n"));
    assert!(applied.contains("dev_dependencies:\n  alpha: ^1.0.0\n  beta: ^1.0.0\n"));
}

#[test]
fn cursor_outside_sections_returns_none() {
    let text = "name: app\ndependencies:\n  zeta: ^1\n  alpha: ^2\n";
    assert!(sort_section_edit(text, 0).is_none());
}

#[test]
fn single_entry_returns_none() {
    let text = "dependencies:\n  alpha: ^2.0.0\n";
    assert!(sort_section_edit(text, 1).is_none());
}

#[test]
fn sort_edit_range_covers_the_body() {
    let text = "dependencies:\n  zeta: ^1.0.0\n  alpha: ^2.0.0\nflutter:\n";
    let edit = sort_section_edit(text, 0).expect("cursor on the header");
    assert_eq!(edit.range, Range::new(Position::new(1, 0), Position::new(2, 15)));
    assert_eq!(edit.new_text, "  alpha: ^2.0.0\n  zeta: ^1.0.0");
}

#[test]
fn sort_ignores_case_and_keeps_equal_keys_in_order() {
    let text = "dependencies:\n  Beta: any\n  alpha: any\n  beta: any\n";
    let edit = sort_section_edit(text, 1).expect("edit");
    assert_eq!(edit.new_text, "  alpha: any\n  Beta: any\n  beta: any");
}

#[test]
fn malformed_body_returns_none() {
    let text = "dependencies:\n    nested_first: 1\n  zeta: any\n  alpha: any\n";
    assert!(sort_section_edit(text, 1).is_none());
}

#[test]
fn cursor_below_the_section_returns_none() {
    // Cursor far past the last line still governs the last section, but
    // lies beyond its body.
    let text = "dependencies:\n  zeta: any\n  alpha: any\n";
    assert!(sort_section_edit(text, 10).is_none());
    assert!(sort_section_edit(text, 3).is_some());
}

#[test]
fn trailing_comments_stay_at_the_end() {
    let text = "dependencies:\n  zeta: any\n  alpha: any\n  # trailing\n";
    let edit = sort_section_edit(text, 1).expect("edit");
    assert_eq!(edit.new_text, "  alpha: any\n  zeta: any\n  # trailing");
}

#[test]
fn empty_text_has_no_section_to_sort() {
    assert!(sort_section_edit("", 0).is_none());
    assert!(sort_section_edit("", 7).is_none());
}

#[test]
fn entry_key_lines_have_one_to_three_spaces_of_indent() {
    let key = |l: &str| pubspec_lsp::sort_section::is_entry_key_line(&l.chars().collect::<Vec<char>>());
    assert!(key("  http: ^1.0.0"));
    assert!(key("   a:"));
    assert!(key(" b:"));
    assert!(!key("    git:"));
    assert!(!key("http:"));
    assert!(!key("  # c:"));
    assert!(!key("  http"));
    assert!(!key("  my-pkg: 1"));
    assert!(!key(" \thttp: 1"));
    assert!(!key("\thttp: 1"));
}

#[test]
fn sorting_the_applied_edit_again_offers_nothing() {
    let text = "\
name: app
dependencies:
  zeta: ^1.0.0
  # about alpha
  alpha:
    path: ../alpha

  mid: any
dev_dependencies:
  test: any
";
    for cursor in [2, 4, 7] {
        let edit = sort_section_edit(text, cursor).expect("edit");
        let applied = apply(text, &edit);
        assert!(sort_section_edit(&applied, cursor).is_none(), "cursor {cursor}: {applied}");
    }
}
