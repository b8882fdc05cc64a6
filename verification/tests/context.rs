use pubspec_lsp::context::{completion_context, CompletionContext};
use pubspec_lsp::lsp::{Position, Range};

const DOC: &str = "\
name: my_app
dependencies:
  http: ^1.2.0
  coll
  provider:
  my_git_dep:
    git:
      url: https://example.com/repo
dev_dependencies:
  test: any
";

fn ctx(line: u32, character: u32) -> Option<CompletionContext> {
    completion_context(DOC, Position::new(line, character))
}

#[test]
fn package_name_partial_token() {
    // "  coll" with cursor at end
    match ctx(3, 6) {
        Some(CompletionContext::PackageName {
            prefix,
            needs_colon,
            replace_range,
        }) => {
            assert_eq!(prefix, "coll");
            assert!(needs_colon);
            assert_eq!(
                replace_range,
                Range::new(Position::new(3, 2), Position::new(3, 6))
            );
        }
        other => panic!("unexpected: {other:?}"),
    }
}

#[test]
fn package_name_mid_token_keeps_full_replace_range() {
    // cursor after "co" in "  coll"
    match ctx(3, 4) {
        Some(CompletionContext::PackageName {
            prefix,
            replace_range,
            ..
        }) => {
            assert_eq!(prefix, "co");
            assert_eq!(replace_range.end.character, 6);
        }
        other => panic!("unexpected: {other:?}"),
    }
}

#[test]
fn package_name_with_existing_colon() {
    // cursor inside "http" on "  http: ^1.2.0"
    match ctx(2, 4) {
        Some(CompletionContext::PackageName {
            prefix,
            needs_colon,
            ..
        }) => {
            assert_eq!(prefix, "ht");
            assert!(!needs_colon);
        }
        other => panic!("unexpected: {other:?}"),
    }
}

#[test]
fn version_after_colon() {
    // "  http: ^1.2.0", cursor after "^1."
    match ctx(2, 11) {
        Some(CompletionContext::Version {
            package,
            prefix,
            replace_range,
            needs_space,
        }) => {
            assert_eq!(package, "http");
            assert_eq!(prefix, "^1.");
            assert_eq!(
                replace_range,
                Range::new(Position::new(2, 8), Position::new(2, 14))
            );
            assert!(!needs_space);
        }
        other => panic!("unexpected: {other:?}"),
    }
}

#[test]
fn version_on_empty_value() {
    // "  provider:" with cursor right after the colon
    match ctx(4, 11) {
        Some(CompletionContext::Version {
            package,
            prefix,
            needs_space,
            ..
        }) => {
            assert_eq!(package, "provider");
            assert_eq!(prefix, "");
            assert!(needs_space);
        }
        other => panic!("unexpected: {other:?}"),
    }
}

#[test]
fn dev_dependencies_section_works() {
    match ctx(9, 4) {
        Some(CompletionContext::PackageName { prefix, .. }) => assert_eq!(prefix, "te"),
        other => panic!("unexpected: {other:?}"),
    }
}

#[test]
fn no_completion_outside_sections() {
    assert_eq!(ctx(0, 3), None); // top-level "name: my_app"
}

#[test]
fn no_completion_in_nested_blocks() {
    assert_eq!(ctx(6, 6), None); // "    git:"
    assert_eq!(ctx(7, 10), None); // "      url: ..."
}

#[test]
fn no_completion_on_section_header_line() {
    assert_eq!(ctx(1, 5), None); // "dependencies:" itself is top-level
}

#[test]
fn no_completion_past_last_line_or_on_colon() {
    assert_eq!(ctx(40, 0), None);
    // "  http: ^1.2.0", cursor right after the colon with a space following.
    assert_eq!(ctx(2, 7), None);
}

#[test]
fn inline_comment_ends_the_value() {
    let text = "dependencies:\n  http: ^1.0.0   # pinned\n";
    match completion_context(text, Position::new(1, 10)) {
        Some(CompletionContext::Version { prefix, replace_range, .. }) => {
            assert_eq!(prefix, "^1");
            assert_eq!(replace_range, Range::new(Position::new(1, 8), Position::new(1, 14)));
        }
        other => panic!("unexpected: {other:?}"),
    }
    // Past the value, inside the comment: nothing.
    assert_eq!(completion_context(text, Position::new(1, 20)), None);
}

#[test]
fn comments_and_blank_lines_do_not_end_a_section() {
    let text = "dependencies:\n\n# comment\n  ht\n";
    match completion_context(text, Position::new(3, 4)) {
        Some(CompletionContext::PackageName { prefix, needs_colon, .. }) => {
            assert_eq!(prefix, "ht");
            assert!(needs_colon);
        }
        other => panic!("unexpected: {other:?}"),
    }
}
