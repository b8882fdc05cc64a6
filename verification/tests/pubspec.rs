use pubspec_lsp::lsp::Position;
use pubspec_lsp::pubspec::{DepEntry, DepSection, DepSource, PubspecModel, SectionKind};

const FIXTURE: &str = r#"name: my_app
description: A sample app.
environment:
  sdk: ">=3.0.0 <4.0.0"

dependencies:
  flutter:
    sdk: flutter
  http: ^1.2.0
  collection: "1.18.0"
  pinned_any:
  my_git_dep:
    git:
      url: https://github.com/a/b
      ref: main
  my_path_dep:
    path: ../local
  custom_hosted:
    hosted: https://my-mirror.dev
    version: ^2.0.0

dev_dependencies:
  test: any
"#;

fn model() -> PubspecModel {
    PubspecModel::parse(FIXTURE).expect("fixture parses")
}

fn section(kind: SectionKind) -> DepSection {
    model()
        .sections
        .into_iter()
        .find(|s| s.kind == kind)
        .expect("section present")
}

fn entry(name: &str) -> DepEntry {
    model()
        .sections
        .into_iter()
        .flat_map(|s| s.entries)
        .find(|e| e.name == name)
        .expect("entry present")
}

#[test]
fn finds_sections_and_entries() {
    let m = model();
    assert_eq!(m.sections.len(), 2);
    assert_eq!(section(SectionKind::Dependencies).entries.len(), 7);
    assert_eq!(section(SectionKind::DevDependencies).entries.len(), 1);
}

#[test]
fn classifies_sources() {
    assert!(matches!(entry("flutter").source, DepSource::Sdk(ref s) if s == "flutter"));
    assert!(matches!(entry("my_git_dep").source, DepSource::Git));
    assert!(matches!(entry("my_path_dep").source, DepSource::Path));
    assert!(matches!(
        entry("http").source,
        DepSource::Hosted { constraint: Some(ref c), .. } if c == "^1.2.0"
    ));
    assert!(matches!(
        entry("collection").source,
        DepSource::Hosted { constraint: Some(ref c), .. } if c == "1.18.0"
    ));
    assert!(matches!(
        entry("pinned_any").source,
        DepSource::Hosted {
            constraint: None,
            ..
        }
    ));
    assert!(matches!(
        entry("custom_hosted").source,
        DepSource::Hosted { constraint: Some(ref c), .. } if c == "^2.0.0"
    ));
}

#[test]
fn name_range_covers_key() {
    let http = entry("http");
    // "  http: ^1.2.0" is line 9 (index 8), key at columns 2..6.
    assert_eq!(http.name_range.start, Position::new(8, 2));
    assert_eq!(http.name_range.end, Position::new(8, 6));
}

#[test]
fn entry_at_hits_name_only() {
    let m = model();
    let (_, e) = m.entry_at(Position::new(8, 4)).expect("hit http");
    assert_eq!(e.name, "http");
    assert!(m.entry_at(Position::new(8, 10)).is_none()); // inside version
    assert!(m.entry_at(Position::new(0, 2)).is_none()); // top-level name:
}

#[test]
fn invalid_yaml_returns_none() {
    assert!(PubspecModel::parse("dependencies: [http, \n").is_none());
}

#[test]
fn non_mapping_root_returns_none() {
    assert!(PubspecModel::parse("- a\n- b\n").is_none());
}

#[test]
fn empty_sections_are_kept() {
    let m = PubspecModel::parse("dependencies:\n").expect("parses");
    assert_eq!(m.sections.len(), 1);
    assert!(m.sections[0].entries.is_empty());
}

#[test]
fn from_key_maps_the_three_sections() {
    assert_eq!(SectionKind::from_key("dependencies"), Some(SectionKind::Dependencies));
    assert_eq!(SectionKind::from_key("dev_dependencies"), Some(SectionKind::DevDependencies));
    assert_eq!(
        SectionKind::from_key("dependency_overrides"),
        Some(SectionKind::DependencyOverrides)
    );
    assert_eq!(SectionKind::from_key("environment"), None);
    assert_eq!(SectionKind::from_key("Dependencies"), None);
}

#[test]
fn constraint_range_covers_the_value() {
    match entry("http").source {
        DepSource::Hosted { constraint_range: Some(r), .. } => {
            assert_eq!(r.start, Position::new(8, 8));
            assert_eq!(r.end, Position::new(8, 14));
        }
        other => panic!("unexpected: {other:?}"),
    }
}

#[test]
fn sequence_values_are_unknown() {
    let m = PubspecModel::parse("dependencies:\n  weird:\n    - a\n").expect("parses");
    assert!(matches!(m.sections[0].entries[0].source, DepSource::Unknown));
}

#[test]
fn non_mapping_section_has_no_entries() {
    let m = PubspecModel::parse("dependencies: 3\ndev_dependencies:\n  a: any\n").expect("parses");
    assert_eq!(m.sections.len(), 2);
    assert!(m.sections[0].entries.is_empty());
    assert_eq!(m.sections[1].entries.len(), 1);
}

#[test]
fn entry_at_end_of_name_is_a_hit() {
    let m = model();
    let (section, e) = m.entry_at(Position::new(8, 6)).expect("end of key");
    assert_eq!(e.name, "http");
    assert_eq!(section.kind, SectionKind::Dependencies);
}
