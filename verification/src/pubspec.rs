//! The dependency sections of a pubspec, read from its YAML tree.
use vstd::prelude::*;

use marked_yaml::types::MarkedScalarNode;
use marked_yaml::Node;

use crate::document::{lsp_position, position_of};
use crate::lsp::{in_range, range_contains, Position, Range};
use crate::text::{chars_of, chars_eq, string_of, trim, trimmed, utf16_count, utf16_prefix_len};
use crate::yaml::{
    lookup, mapping_entries, mapping_get, node_as_mapping, node_as_scalar, parse_yaml,
    scalar_end, scalar_start, scalar_text, yaml_mapping, yaml_node, yaml_parse, yaml_scalar,
    YamlScalar, YamlTree,
};

verus! {

broadcast use {vstd::seq::group_seq_axioms, vstd::slice::group_slice_axioms};

/// The three dependency sections of a pubspec.
#[derive(Debug, Clone, Copy, PartialEq, Eq, Structural)]
pub enum SectionKind {
    Dependencies,
    DevDependencies,
    DependencyOverrides,
}

/// The section a top-level key opens, if any.
pub open spec fn section_of_key(key: Seq<char>) -> Option<SectionKind> {
    if key == "dependencies"@ {
        Some(SectionKind::Dependencies)
    } else if key == "dev_dependencies"@ {
        Some(SectionKind::DevDependencies)
    } else if key == "dependency_overrides"@ {
        Some(SectionKind::DependencyOverrides)
    } else {
        None
    }
}

impl SectionKind {
    /// The section a top-level key opens, if any.
    pub fn from_key(key: &str) -> (r: Option<SectionKind>)
        ensures
            r == section_of_key(key@),
    {
        let k = chars_of(key);
        let a = chars_of("dependencies");
        let b = chars_of("dev_dependencies");
        let c = chars_of("dependency_overrides");
        if chars_eq(k.as_slice(), a.as_slice()) {
            Some(SectionKind::Dependencies)
        } else if chars_eq(k.as_slice(), b.as_slice()) {
            Some(SectionKind::DevDependencies)
        } else if chars_eq(k.as_slice(), c.as_slice()) {
            Some(SectionKind::DependencyOverrides)
        } else {
            None
        }
    }
}

/// Where a dependency comes from.
#[derive(Debug, Clone)]
pub enum DepSource {
    /// A pub.dev-hosted dependency: `http: ^1.0.0`, `http:` or
    /// `http: { hosted: ..., version: ^1.0.0 }`.
    Hosted { constraint: Option<String>, constraint_range: Option<Range> },
    /// `flutter: { sdk: flutter }`
    Sdk(String),
    Git,
    Path,
    /// Anything unexpected (e.g. a sequence value) — excluded from all features.
    Unknown,
}

#[derive(Debug, Clone)]
pub struct DepEntry {
    pub name: String,
    /// Range of the package-name key, in LSP (UTF-16) coordinates.
    pub name_range: Range,
    pub source: DepSource,
}

#[derive(Debug, Clone)]
pub struct DepSection {
    pub kind: SectionKind,
    pub entries: Vec<DepEntry>,
}

#[derive(Debug, Clone)]
pub struct PubspecModel {
    pub sections: Vec<DepSection>,
}

// ---------------------------------------------------------------------------
// Models
// ---------------------------------------------------------------------------

pub enum SourceModel {
    Hosted { constraint: Option<Seq<char>>, constraint_range: Option<Range> },
    Sdk(Seq<char>),
    Git,
    Path,
    Unknown,
}

pub struct EntryModel {
    pub name: Seq<char>,
    pub name_range: Range,
    pub source: SourceModel,
}

pub struct SectionModel {
    pub kind: SectionKind,
    pub entries: Seq<EntryModel>,
}

pub open spec fn source_model(s: DepSource) -> SourceModel {
    match s {
        DepSource::Hosted { constraint, constraint_range } => SourceModel::Hosted {
            constraint: match constraint {
                Some(c) => Some(c@),
                None => None,
            },
            constraint_range,
        },
        DepSource::Sdk(s) => SourceModel::Sdk(s@),
        DepSource::Git => SourceModel::Git,
        DepSource::Path => SourceModel::Path,
        DepSource::Unknown => SourceModel::Unknown,
    }
}

pub open spec fn entry_model(e: DepEntry) -> EntryModel {
    EntryModel { name: e.name@, name_range: e.name_range, source: source_model(e.source) }
}

pub open spec fn entry_models(v: Seq<DepEntry>) -> Seq<EntryModel> {
    v.map_values(|e: DepEntry| entry_model(e))
}

pub open spec fn section_model(s: DepSection) -> SectionModel {
    SectionModel { kind: s.kind, entries: entry_models(s.entries@) }
}

pub open spec fn section_models(v: Seq<DepSection>) -> Seq<SectionModel> {
    v.map_values(|s: DepSection| section_model(s))
}

impl PubspecModel {
    pub open spec fn view(&self) -> Seq<SectionModel> {
        section_models(self.sections@)
    }
}

fn copy_source(s: &DepSource) -> (r: DepSource)
    ensures
        source_model(r) == source_model(*s),
{
    match s {
        DepSource::Hosted { constraint, constraint_range } => DepSource::Hosted {
            constraint: match constraint {
                Some(c) => Some(c.clone()),
                None => None,
            },
            constraint_range: *constraint_range,
        },
        DepSource::Sdk(x) => DepSource::Sdk(x.clone()),
        DepSource::Git => DepSource::Git,
        DepSource::Path => DepSource::Path,
        DepSource::Unknown => DepSource::Unknown,
    }
}

fn copy_section(s: &DepSection) -> (r: DepSection)
    ensures
        section_model(r) == section_model(*s),
{
    let mut entries: Vec<DepEntry> = Vec::new();
    let mut i: usize = 0;
    while i < s.entries.len()
        invariant
            i <= s.entries@.len(),
            entries@.len() == i,
            entry_models(entries@) == entry_models(s.entries@).take(i as int),
        decreases s.entries@.len() - i,
    {
        let e = &s.entries[i];
        let ghost before = entries@;
        let c = DepEntry { name: e.name.clone(), name_range: e.name_range, source: copy_source(&e.source) };
        assert(entry_model(c) == entry_model(s.entries@[i as int]));
        entries.push(c);
        assert(entries@ == before.push(c));
        assert(entry_models(entries@) =~= entry_models(s.entries@).take(i + 1)) by {
            assert forall|j: int| 0 <= j < i implies entry_models(entries@)[j] == entry_models(before)[j] by {
                assert(entries@[j] == before[j]);
            }
        }
        i = i + 1;
    }
    assert(entry_models(s.entries@).take(i as int) =~= entry_models(s.entries@));
    DepSection { kind: s.kind, entries }
}

impl PubspecModel {
    /// A copy of the model.
    pub fn duplicate(&self) -> (r: PubspecModel)
        ensures
            r.view() == self.view(),
    {
        let mut sections: Vec<DepSection> = Vec::new();
        let mut i: usize = 0;
        while i < self.sections.len()
            invariant
                i <= self.sections@.len(),
                sections@.len() == i,
                section_models(sections@) == section_models(self.sections@).take(i as int),
            decreases self.sections@.len() - i,
        {
            let ghost before = sections@;
            let c = copy_section(&self.sections[i]);
            sections.push(c);
            assert(section_models(sections@) =~= section_models(self.sections@).take(i + 1)) by {
                assert forall|j: int| 0 <= j < i implies section_models(sections@)[j] == section_models(before)[j] by {
                    assert(sections@[j] == before[j]);
                }
            }
            i = i + 1;
        }
        assert(section_models(self.sections@).take(i as int) =~= section_models(self.sections@));
        PubspecModel { sections }
    }
}

// ---------------------------------------------------------------------------
// Specification of parsing
// ---------------------------------------------------------------------------

/// LSP range of a scalar: from its start marker to its end marker, or, when
/// the parser recorded no end, to the start plus the scalar's UTF-16 length
/// (added in `u32`, wrapping). `None` without a start marker.
pub open spec fn scalar_range_of(text: Seq<char>, s: YamlScalar) -> Option<Range> {
    match s.start {
        None => None,
        Some((l, c)) => {
            let sp = position_of(text, l as int, c as int);
            let ep = match s.end {
                Some((l2, c2)) => position_of(text, l2 as int, c2 as int),
                None => Position {
                    line: sp.line,
                    character: (sp.character as int + (utf16_count(s.text) as u32) as int) as u32,
                },
            };
            Some(Range { start: sp, end: ep })
        },
    }
}

/// A hosted dependency from a version scalar: no constraint when the
/// scalar is blank, else its trimmed text and the scalar's range.
pub open spec fn hosted_from(text: Seq<char>, s: YamlScalar) -> SourceModel {
    let raw = trim(s.text);
    if raw.len() == 0 {
        SourceModel::Hosted { constraint: None, constraint_range: None }
    } else {
        SourceModel::Hosted { constraint: Some(raw), constraint_range: scalar_range_of(text, s) }
    }
}

/// The source of a dependency from its value node.
pub open spec fn classify_spec(text: Seq<char>, node: YamlTree) -> SourceModel {
    match node {
        YamlTree::Scalar(s) => hosted_from(text, s),
        YamlTree::Mapping(m) => match lookup(m, "sdk"@) {
            Some(YamlTree::Scalar(sdk)) => SourceModel::Sdk(sdk.text),
            _ => if lookup(m, "git"@) is Some {
                SourceModel::Git
            } else if lookup(m, "path"@) is Some {
                SourceModel::Path
            } else {
                match lookup(m, "version"@) {
                    Some(YamlTree::Scalar(v)) => hosted_from(text, v),
                    _ => SourceModel::Hosted { constraint: None, constraint_range: None },
                }
            },
        },
        YamlTree::Sequence => SourceModel::Unknown,
    }
}

/// The entries of a section: one per key with a start marker, in order.
pub open spec fn entries_of(text: Seq<char>, deps: Seq<(YamlScalar, YamlTree)>) -> Seq<EntryModel>
    decreases deps.len(),
{
    if deps.len() == 0 {
        Seq::empty()
    } else {
        let rest = entries_of(text, deps.drop_last());
        let (k, v) = deps.last();
        match scalar_range_of(text, k) {
            Some(r) => rest.push(
                EntryModel { name: k.text, name_range: r, source: classify_spec(text, v) },
            ),
            None => rest,
        }
    }
}

/// The entries of a section value: none unless it is a mapping.
pub open spec fn section_entries(text: Seq<char>, value: YamlTree) -> Seq<EntryModel> {
    match value {
        YamlTree::Mapping(deps) => entries_of(text, deps),
        _ => Seq::empty(),
    }
}

/// The dependency sections among the top-level entries, in order.
pub open spec fn sections_of(text: Seq<char>, top: Seq<(YamlScalar, YamlTree)>) -> Seq<SectionModel>
    decreases top.len(),
{
    if top.len() == 0 {
        Seq::empty()
    } else {
        let rest = sections_of(text, top.drop_last());
        let (k, v) = top.last();
        match section_of_key(k.text) {
            Some(kind) => rest.push(
                SectionModel { kind, entries: section_entries(text, v) },
            ),
            None => rest,
        }
    }
}

/// The model of a pubspec text: `None` when the YAML does not parse or its
/// root is not a mapping.
pub open spec fn parse_spec(text: Seq<char>) -> Option<Seq<SectionModel>> {
    match yaml_parse(text) {
        Some(YamlTree::Mapping(top)) => Some(sections_of(text, top)),
        _ => None,
    }
}

// ---------------------------------------------------------------------------
// Executable parsing
// ---------------------------------------------------------------------------

/// LSP range of a scalar node. Falls back to start + scalar length when the
/// parser did not record an end marker.
fn scalar_range(text: &str, node: &MarkedScalarNode) -> (r: Option<Range>)
    ensures
        r == scalar_range_of(text@, yaml_scalar(*node)),
{
    let (l, c) = match scalar_start(node) {
        Some(p) => p,
        None => return None,
    };
    let start_pos = lsp_position(text, l, c);
    let end_pos = match scalar_end(node) {
        Some((l2, c2)) => lsp_position(text, l2, c2),
        None => {
            let s = chars_of(scalar_text(node));
            let n = utf16_prefix_len(s.as_slice(), s.len());
            assert(s@.take(s@.len() as int) =~= s@);
            let sum: u64 = start_pos.character as u64 + (n as u32) as u64;
            Position { line: start_pos.line, character: sum as u32 }
        },
    };
    Some(Range { start: start_pos, end: end_pos })
}

fn hosted_from_scalar(text: &str, scalar: &MarkedScalarNode) -> (r: DepSource)
    ensures
        source_model(r) == hosted_from(text@, yaml_scalar(*scalar)),
{
    let s = chars_of(scalar_text(scalar));
    let raw = trimmed(s.as_slice());
    if raw.len() == 0 {
        DepSource::Hosted { constraint: None, constraint_range: None }
    } else {
        DepSource::Hosted {
            constraint: Some(string_of(raw.as_slice())),
            constraint_range: scalar_range(text, scalar),
        }
    }
}

fn mapping_scalar<'a>(map: &'a marked_yaml::types::MarkedMappingNode, key: &str) -> (r: Option<&'a MarkedScalarNode>)
    ensures
        match r {
            Some(s) => lookup(yaml_mapping(*map), key@) == Some(YamlTree::Scalar(yaml_scalar(*s))),
            None => !(lookup(yaml_mapping(*map), key@) matches Some(YamlTree::Scalar(_))),
        },
{
    match mapping_get(map, key) {
        Some(n) => node_as_scalar(n),
        None => None,
    }
}

fn classify(text: &str, node: &Node) -> (r: DepSource)
    ensures
        source_model(r) == classify_spec(text@, yaml_node(*node)),
{
    if let Some(scalar) = node_as_scalar(node) {
        return hosted_from_scalar(text, scalar);
    }
    let map = match node_as_mapping(node) {
        Some(m) => m,
        None => {
            return DepSource::Unknown;
        },
    };
    proof {
        reveal_strlit("sdk");
        reveal_strlit("git");
        reveal_strlit("path");
        reveal_strlit("version");
    }
    if let Some(sdk) = mapping_scalar(map, "sdk") {
        DepSource::Sdk(string_of(chars_of(scalar_text(sdk)).as_slice()))
    } else if mapping_get(map, "git").is_some() {
        DepSource::Git
    } else if mapping_get(map, "path").is_some() {
        DepSource::Path
    } else if let Some(version) = mapping_scalar(map, "version") {
        hosted_from_scalar(text, version)
    } else {
        DepSource::Hosted { constraint: None, constraint_range: None }
    }
}

fn section_entries_exec(text: &str, value: &Node) -> (r: Vec<DepEntry>)
    ensures
        entry_models(r@) == section_entries(text@, yaml_node(*value)),
{
    let mut entries: Vec<DepEntry> = Vec::new();
    let deps = match node_as_mapping(value) {
        Some(d) => d,
        None => {
            assert(entry_models(entries@) =~= Seq::<EntryModel>::empty());
            return entries;
        },
    };
    let ghost m = yaml_mapping(*deps);
    let items = mapping_entries(deps);
    let mut i: usize = 0;
    assert(entry_models(entries@) =~= entries_of(text@, m.take(0)));
    while i < items.len()
        invariant
            i <= items@.len(),
            items@.len() == m.len(),
            m == yaml_mapping(*deps),
            forall|k: int|
                0 <= k < items@.len() ==> yaml_scalar(*(#[trigger] items@[k]).0) == m[k].0
                    && yaml_node(*items@[k].1) == m[k].1,
            entry_models(entries@) == entries_of(text@, m.take(i as int)),
        decreases items@.len() - i,
    {
        let (dep_key, dep_value) = items[i];
        assert(m.take(i + 1).drop_last() =~= m.take(i as int));
        assert(m.take(i + 1).last() == m[i as int]);
        let ghost e0 = entries@;
        if let Some(name_range) = scalar_range(text, dep_key) {
            let name = string_of(chars_of(scalar_text(dep_key)).as_slice());
            let source = classify(text, dep_value);
            entries.push(DepEntry { name, name_range, source });
            assert(entry_models(entries@) =~= entry_models(e0).push(entry_model(entries@.last())));
        }
        i = i + 1;
    }
    assert(m.take(i as int) =~= m);
    entries
}

impl PubspecModel {
    /// Parse a pubspec document. Returns `None` when the YAML is invalid or
    /// the root is not a mapping (typical mid-edit states).
    pub fn parse(text: &str) -> (r: Option<PubspecModel>)
        ensures
            match r {
                Some(m) => parse_spec(text@) == Some(m.view()),
                None => parse_spec(text@) is None,
            },
    {
        let root = match parse_yaml(text) {
            Some(n) => n,
            None => return None,
        };
        let map = match node_as_mapping(&root) {
            Some(m) => m,
            None => return None,
        };
        let ghost top = yaml_mapping(*map);
        let items = mapping_entries(map);
        let mut sections: Vec<DepSection> = Vec::new();
        let mut i: usize = 0;
        assert(section_models(sections@) =~= sections_of(text@, top.take(0)));
        while i < items.len()
            invariant
                i <= items@.len(),
                items@.len() == top.len(),
                top == yaml_mapping(*map),
                forall|k: int|
                    0 <= k < items@.len() ==> yaml_scalar(*(#[trigger] items@[k]).0) == top[k].0
                        && yaml_node(*items@[k].1) == top[k].1,
                section_models(sections@) == sections_of(text@, top.take(i as int)),
            decreases items@.len() - i,
        {
            let (key, value) = items[i];
            assert(top.take(i + 1).drop_last() =~= top.take(i as int));
            assert(top.take(i + 1).last() == top[i as int]);
            let ghost s0 = sections@;
            if let Some(kind) = SectionKind::from_key(scalar_text(key)) {
                let entries = section_entries_exec(text, value);
                sections.push(DepSection { kind, entries });
                assert(section_models(sections@) =~= section_models(s0).push(
                    section_model(sections@.last()),
                ));
            }
            i = i + 1;
        }
        assert(top.take(i as int) =~= top);
        Some(PubspecModel { sections })
    }
}

// ---------------------------------------------------------------------------
// Finding the entry under a position
// ---------------------------------------------------------------------------

/// Index of the first entry whose name range contains `pos`, or -1.
pub open spec fn first_hit(entries: Seq<EntryModel>, pos: Position) -> int
    decreases entries.len(),
{
    if entries.len() == 0 {
        -1
    } else {
        let r = first_hit(entries.drop_last(), pos);
        if r >= 0 {
            r
        } else if in_range(entries.last().name_range, pos) {
            entries.len() - 1
        } else {
            -1
        }
    }
}

/// The first section (and its first entry) whose entry name range contains
/// `pos`.
pub open spec fn entry_at_spec(sections: Seq<SectionModel>, pos: Position) -> Option<(int, int)>
    decreases sections.len(),
{
    if sections.len() == 0 {
        None
    } else {
        match entry_at_spec(sections.drop_last(), pos) {
            Some(p) => Some(p),
            None => {
                let j = first_hit(sections.last().entries, pos);
                if j >= 0 {
                    Some(((sections.len() - 1) as int, j))
                } else {
                    None
                }
            },
        }
    }
}

pub proof fn lemma_first_hit(entries: Seq<EntryModel>, pos: Position)
    ensures
        -1 <= first_hit(entries, pos) < entries.len(),
        first_hit(entries, pos) >= 0 ==> in_range(entries[first_hit(entries, pos)].name_range, pos),
        forall|k: int|
            0 <= k < entries.len() && (first_hit(entries, pos) < 0 || k < first_hit(entries, pos))
                ==> !in_range(#[trigger] entries[k].name_range, pos),
    decreases entries.len(),
{
    if entries.len() > 0 {
        lemma_first_hit(entries.drop_last(), pos);
        assert forall|k: int|
            0 <= k < entries.len() && (first_hit(entries, pos) < 0 || k < first_hit(entries, pos))
                implies !in_range(#[trigger] entries[k].name_range, pos) by {
            if k < entries.len() - 1 {
                assert(entries[k] == entries.drop_last()[k]);
            }
        }
    }
}

pub proof fn lemma_entry_at(sections: Seq<SectionModel>, pos: Position)
    ensures
        entry_at_spec(sections, pos) matches Some((i, j)) ==> 0 <= i < sections.len() && 0 <= j
            < sections[i].entries.len() && in_range(sections[i].entries[j].name_range, pos),
    decreases sections.len(),
{
    if sections.len() > 0 {
        lemma_entry_at(sections.drop_last(), pos);
        lemma_first_hit(sections.last().entries, pos);
        if let Some((i, j)) = entry_at_spec(sections.drop_last(), pos) {
            assert(sections[i] == sections.drop_last()[i]);
        }
    }
}

fn first_hit_exec(entries: &Vec<DepEntry>, pos: Position) -> (r: Option<usize>)
    ensures
        match r {
            Some(j) => first_hit(entry_models(entries@), pos) == j as int,
            None => first_hit(entry_models(entries@), pos) == -1,
        },
{
    let ghost em = entry_models(entries@);
    let mut j: usize = 0;
    while j < entries.len()
        invariant
            j <= entries@.len(),
            em == entry_models(entries@),
            first_hit(em.take(j as int), pos) == -1,
        decreases entries@.len() - j,
    {
        assert(em.take(j + 1).drop_last() =~= em.take(j as int));
        if range_contains(entries[j].name_range, pos) {
            proof {
                lemma_first_hit_prefix(em, j as int + 1, pos);
            }
            return Some(j);
        }
        j = j + 1;
    }
    assert(em.take(j as int) =~= em);
    None
}

/// A hit in a prefix is the hit of the whole.
proof fn lemma_first_hit_prefix(em: Seq<EntryModel>, n: int, pos: Position)
    requires
        0 <= n <= em.len(),
        first_hit(em.take(n), pos) >= 0,
    ensures
        first_hit(em, pos) == first_hit(em.take(n), pos),
    decreases em.len() - n,
{
    if n < em.len() {
        assert(em.take(n + 1).drop_last() =~= em.take(n));
        lemma_first_hit_prefix(em, n + 1, pos);
    } else {
        assert(em.take(n) =~= em);
    }
}

proof fn lemma_entry_at_prefix(s: Seq<SectionModel>, n: int, pos: Position)
    requires
        0 <= n <= s.len(),
        entry_at_spec(s.take(n), pos) is Some,
    ensures
        entry_at_spec(s, pos) == entry_at_spec(s.take(n), pos),
    decreases s.len() - n,
{
    if n < s.len() {
        assert(s.take(n + 1).drop_last() =~= s.take(n));
        lemma_entry_at_prefix(s, n + 1, pos);
    } else {
        assert(s.take(n) =~= s);
    }
}

impl PubspecModel {
    /// Find the dependency entry whose name range contains `pos`: the first
    /// such entry of the first section that has one.
    pub fn entry_at(&self, pos: Position) -> (r: Option<(&DepSection, &DepEntry)>)
        ensures
            match (r, entry_at_spec(self.view(), pos)) {
                (Some((s, e)), Some((i, j))) => *s == self.sections@[i] && *e
                    == self.sections@[i].entries@[j],
                (None, None) => true,
                _ => false,
            },
    {
        let ghost sm = self.view();
        let mut i: usize = 0;
        while i < self.sections.len()
            invariant
                i <= self.sections@.len(),
                sm == self.view(),
                entry_at_spec(sm.take(i as int), pos) is None,
            decreases self.sections@.len() - i,
        {
            let section = &self.sections[i];
            assert(sm.take(i + 1).drop_last() =~= sm.take(i as int));
            assert(sm[i as int] == section_model(*section));
            if let Some(j) = first_hit_exec(&section.entries, pos) {
                proof {
                    lemma_entry_at_prefix(sm, i as int + 1, pos);
                    lemma_first_hit(entry_models(section.entries@), pos);
                }
                return Some((section, &section.entries[j]));
            }
            i = i + 1;
        }
        assert(sm.take(i as int) =~= sm);
        None
    }
}

} // verus!
