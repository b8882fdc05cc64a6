//! Diagnostics for hosted dependencies: outdated constraints (hints) and
//! discontinued packages (warnings).
//!
//! Fetching package metadata is the server's I/O; what is reported for an
//! entry once its metadata is known, and the order of the report, is here.
use vstd::prelude::*;

use crate::lsp::{Position, Range};
use crate::pubdev::PackageInfo;
use crate::pubspec::{
    entry_model, entry_models, section_models, DepEntry, DepSource, EntryModel, PubspecModel,
    SectionKind, SectionModel, SourceModel,
};
use crate::text::{chars_of, push_all, starts_with_char, string_of, trim, trim_start, trimmed,
    trimmed_start,
};
use crate::versions::{is_outdated, outdated, strip_quotes};

verus! {

broadcast use {vstd::seq::group_seq_axioms, vstd::slice::group_slice_axioms};

/// The `source` of every diagnostic this server publishes.
pub const SOURCE: &'static str = "pubspec-lsp";

#[derive(Debug, Clone, Copy, PartialEq, Eq, Structural)]
pub enum DiagnosticSeverity {
    Error,
    Warning,
    Information,
    Hint,
}

/// What the "update" code actions read from a diagnostic's `data`: the
/// `latest` string and the `caret` flag, each when present with that type.
#[derive(Debug, Clone)]
pub struct UpdateData {
    pub latest: Option<String>,
    pub caret: Option<bool>,
}

#[derive(Debug, Clone)]
pub struct Diagnostic {
    pub range: Range,
    pub severity: Option<DiagnosticSeverity>,
    pub source: Option<String>,
    pub message: String,
    pub data: Option<UpdateData>,
}

pub struct DataModel {
    pub latest: Option<Seq<char>>,
    pub caret: Option<bool>,
}

pub struct DiagnosticModel {
    pub range: Range,
    pub severity: Option<DiagnosticSeverity>,
    pub source: Option<Seq<char>>,
    pub message: Seq<char>,
    pub data: Option<DataModel>,
}

pub open spec fn opt_seq(o: Option<String>) -> Option<Seq<char>> {
    match o {
        Some(s) => Some(s@),
        None => None,
    }
}

pub open spec fn diag_model(d: Diagnostic) -> DiagnosticModel {
    DiagnosticModel {
        range: d.range,
        severity: d.severity,
        source: opt_seq(d.source),
        message: d.message@,
        data: match d.data {
            Some(u) => Some(DataModel { latest: opt_seq(u.latest), caret: u.caret }),
            None => None,
        },
    }
}

pub open spec fn diag_models(v: Seq<Diagnostic>) -> Seq<DiagnosticModel> {
    v.map_values(|d: Diagnostic| diag_model(d))
}

fn copy_string(s: &String) -> (r: String)
    ensures
        r@ == s@,
{
    string_of(chars_of(s.as_str()).as_slice())
}

fn copy_opt_string(s: &Option<String>) -> (r: Option<String>)
    ensures
        opt_seq(r) == opt_seq(*s),
{
    match s {
        Some(x) => Some(copy_string(x)),
        None => None,
    }
}

impl Diagnostic {
    /// A copy of the diagnostic.
    pub fn duplicate(&self) -> (r: Diagnostic)
        ensures
            diag_model(r) == diag_model(*self),
    {
        Diagnostic {
            range: self.range,
            severity: self.severity,
            source: copy_opt_string(&self.source),
            message: copy_string(&self.message),
            data: match &self.data {
                Some(u) => Some(UpdateData { latest: copy_opt_string(&u.latest), caret: u.caret }),
                None => None,
            },
        }
    }
}

// ---------------------------------------------------------------------------
// Specification
// ---------------------------------------------------------------------------

/// Whether a constraint pins with a caret (`^1.2.0`), ignoring surrounding
/// whitespace and quotes.
pub open spec fn caret_spec(constraint: Option<Seq<char>>) -> bool {
    match constraint {
        Some(c) => starts_with_char(trim_start(strip_quotes(trim(c))), '^'),
        None => false,
    }
}

pub open spec fn discontinued_message(name: Seq<char>, replaced_by: Option<Seq<char>>) -> Seq<char> {
    let base = "Package '"@ + name + "' is discontinued"@;
    match replaced_by {
        Some(r) => base + ", replaced by '"@ + r + "'"@,
        None => base,
    }
}

pub open spec fn outdated_message(latest: Seq<char>) -> Seq<char> {
    "Newer version available: "@ + latest
}

/// The diagnostics for one hosted entry once its package metadata is known:
/// a warning on the name when the package is discontinued, then, when
/// `check_outdated`, a hint on the constraint (or the name) when the
/// constraint is outdated. The hint's data carries `latest` and whether the
/// constraint used a caret.
pub open spec fn entry_diagnostics_spec(
    e: EntryModel,
    latest: Seq<char>,
    is_discontinued: bool,
    replaced_by: Option<Seq<char>>,
    check_outdated: bool,
) -> Seq<DiagnosticModel> {
    let warn = if is_discontinued {
        seq![
            DiagnosticModel {
                range: e.name_range,
                severity: Some(DiagnosticSeverity::Warning),
                source: Some("pubspec-lsp"@),
                message: discontinued_message(e.name, replaced_by),
                data: None,
            },
        ]
    } else {
        Seq::empty()
    };
    let hint = match e.source {
        SourceModel::Hosted { constraint, constraint_range } => if check_outdated && outdated(
            constraint,
            latest,
        ) == Some(true) {
            seq![
                DiagnosticModel {
                    range: match constraint_range {
                        Some(r) => r,
                        None => e.name_range,
                    },
                    severity: Some(DiagnosticSeverity::Hint),
                    source: Some("pubspec-lsp"@),
                    message: outdated_message(latest),
                    data: Some(DataModel { latest: Some(latest), caret: Some(caret_spec(constraint)) }),
                },
            ]
        } else {
            Seq::empty()
        },
        _ => Seq::empty(),
    };
    warn + hint
}

/// The hosted entries to check, as (section index, entry index, whether to
/// check for outdated constraints) in document order. Overrides are
/// deliberate pins: they get no outdated check.
pub open spec fn section_checks(i: int, kind: SectionKind, entries: Seq<EntryModel>) -> Seq<(int, int, bool)>
    decreases entries.len(),
{
    if entries.len() == 0 {
        Seq::empty()
    } else {
        let r = section_checks(i, kind, entries.drop_last());
        if entries.last().source is Hosted {
            r.push((i, entries.len() - 1, kind != SectionKind::DependencyOverrides))
        } else {
            r
        }
    }
}

pub open spec fn checks_of(ss: Seq<SectionModel>) -> Seq<(int, int, bool)>
    decreases ss.len(),
{
    if ss.len() == 0 {
        Seq::empty()
    } else {
        checks_of(ss.drop_last()) + section_checks(ss.len() - 1, ss.last().kind, ss.last().entries)
    }
}

/// Diagnostics are ordered by the start of their range.
pub open spec fn start_le(a: DiagnosticModel, b: DiagnosticModel) -> bool {
    a.range.start.line < b.range.start.line || (a.range.start.line == b.range.start.line
        && a.range.start.character <= b.range.start.character)
}

pub open spec fn diag_insert_pos(sorted: Seq<DiagnosticModel>, x: DiagnosticModel) -> int
    decreases sorted.len(),
{
    if sorted.len() == 0 {
        0
    } else if start_le(sorted.last(), x) {
        sorted.len() as int
    } else {
        diag_insert_pos(sorted.drop_last(), x)
    }
}

/// Stable sort by range start (`sort_by_key`).
pub open spec fn sort_diags(ds: Seq<DiagnosticModel>) -> Seq<DiagnosticModel>
    decreases ds.len(),
{
    if ds.len() == 0 {
        Seq::empty()
    } else {
        let s = sort_diags(ds.drop_last());
        s.insert(diag_insert_pos(s, ds.last()), ds.last())
    }
}

/// What one check reports, given the package metadata fetched for it
/// (none when the lookup failed).
pub open spec fn check_report(ss: Seq<SectionModel>, c: (int, int, bool), info: Option<PackageInfo>) -> Seq<
    DiagnosticModel,
> {
    match info {
        Some(p) => entry_diagnostics_spec(
            ss[c.0].entries[c.1],
            p.latest@,
            p.is_discontinued,
            opt_seq(p.replaced_by),
            c.2,
        ),
        None => Seq::empty(),
    }
}

/// The metadata fetched for the `k`-th check, if any.
pub open spec fn info_at(infos: Seq<Option<PackageInfo>>, k: int) -> Option<PackageInfo> {
    if 0 <= k < infos.len() {
        infos[k]
    } else {
        None
    }
}

/// The reports of the checks, in order.
pub open spec fn gathered(ss: Seq<SectionModel>, cs: Seq<(int, int, bool)>, infos: Seq<Option<PackageInfo>>) -> Seq<
    DiagnosticModel,
>
    decreases cs.len(),
{
    if cs.len() == 0 {
        Seq::empty()
    } else {
        gathered(ss, cs.drop_last(), infos) + check_report(ss, cs.last(), info_at(infos, cs.len() - 1))
    }
}

/// The diagnostics of a document: the reports of its checks, ordered by
/// the start of their range.
pub open spec fn document_diagnostics_spec(ss: Seq<SectionModel>, infos: Seq<Option<PackageInfo>>) -> Seq<
    DiagnosticModel,
> {
    sort_diags(gathered(ss, checks_of(ss), infos))
}

// ---------------------------------------------------------------------------
// Executable code
// ---------------------------------------------------------------------------

/// Whether a constraint pins with a caret (`^1.2.0`), ignoring surrounding
/// whitespace and quotes. Determines whether the "update" action re-adds one.
pub fn uses_caret(constraint: Option<&str>) -> (r: bool)
    ensures
        r == caret_spec(
            match constraint {
                Some(c) => Some(c@),
                None => None,
            },
        ),
{
    match constraint {
        Some(c) => {
            let t = trimmed(chars_of(c).as_slice());
            let q = crate::versions::strip_quotes_exec(t.as_slice());
            let s = trimmed_start(q.as_slice());
            s.len() > 0 && s[0] == '^'
        },
        None => false,
    }
}

/// The hosted entries of a model to check against pub.dev.
pub fn hosted_checks(model: &PubspecModel) -> (r: Vec<(usize, usize, bool)>)
    ensures
        r@.map_values(|t: (usize, usize, bool)| (t.0 as int, t.1 as int, t.2)) == checks_of(
            model.view(),
        ),
{
    let ghost ss = model.view();
    let mut out: Vec<(usize, usize, bool)> = Vec::new();
    let mut i: usize = 0;
    while i < model.sections.len()
        invariant
            i <= model.sections@.len(),
            ss == model.view(),
            out@.map_values(|t: (usize, usize, bool)| (t.0 as int, t.1 as int, t.2)) == checks_of(
                ss.take(i as int),
            ),
        decreases model.sections@.len() - i,
    {
        let section = &model.sections[i];
        let check = section.kind != SectionKind::DependencyOverrides;
        let ghost em = entry_models(section.entries@);
        let ghost base = out@.map_values(|t: (usize, usize, bool)| (t.0 as int, t.1 as int, t.2));
        assert(ss[i as int].entries == em);
        let mut j: usize = 0;
        while j < section.entries.len()
            invariant
                j <= section.entries@.len(),
                check == (section.kind != SectionKind::DependencyOverrides),
                em == entry_models(section.entries@),
                out@.map_values(|t: (usize, usize, bool)| (t.0 as int, t.1 as int, t.2)) == base
                    + section_checks(i as int, section.kind, em.take(j as int)),
            decreases section.entries@.len() - j,
        {
            assert(em.take(j + 1).drop_last() =~= em.take(j as int));
            assert(em.take(j + 1).last() == em[j as int]);
            assert(em[j as int] == entry_model(section.entries@[j as int]));
            let ghost o0 = out@;
            let ghost prev = section_checks(i as int, section.kind, em.take(j as int));
            if let DepSource::Hosted { .. } = section.entries[j].source {
                out.push((i, j, check));
                assert(section.entries@[j as int].source is Hosted);
                assert(em[j as int].source is Hosted);
                assert(check == (section.kind != SectionKind::DependencyOverrides));
                assert(em.take(j + 1).len() - 1 == j);
                assert(section_checks(i as int, section.kind, em.take(j + 1)) == prev.push(
                    (i as int, j as int, check),
                ));
                assert(out@.map_values(|t: (usize, usize, bool)| (t.0 as int, t.1 as int, t.2))
                    =~= o0.map_values(|t: (usize, usize, bool)| (t.0 as int, t.1 as int, t.2)).push(
                    (i as int, j as int, check),
                ));
                assert(base + prev.push((i as int, j as int, check)) =~= (base + prev).push(
                    (i as int, j as int, check),
                ));
            } else {
                assert(section_checks(i as int, section.kind, em.take(j + 1)) == prev);
            }
            j = j + 1;
        }
        assert(em.take(j as int) =~= em);
        assert(ss.take(i + 1).drop_last() =~= ss.take(i as int));
        i = i + 1;
    }
    assert(ss.take(i as int) =~= ss);
    out
}

fn discontinued_message_exec(name: &str, replaced_by: &Option<String>) -> (r: String)
    ensures
        r@ == discontinued_message(name@, opt_seq(*replaced_by)),
{
    let mut v = chars_of("Package '");
    push_all(&mut v, chars_of(name).as_slice());
    push_all(&mut v, chars_of("' is discontinued").as_slice());
    if let Some(r) = replaced_by {
        push_all(&mut v, chars_of(", replaced by '").as_slice());
        push_all(&mut v, chars_of(r.as_str()).as_slice());
        push_all(&mut v, chars_of("'").as_slice());
    }
    string_of(v.as_slice())
}

/// The diagnostics for one hosted entry, given its package metadata.
pub fn entry_diagnostics(entry: &DepEntry, info: &PackageInfo, check_outdated: bool) -> (r: Vec<
    Diagnostic,
>)
    ensures
        diag_models(r@) == entry_diagnostics_spec(
            entry_model(*entry),
            info.latest@,
            info.is_discontinued,
            opt_seq(info.replaced_by),
            check_outdated,
        ),
{
    let mut result: Vec<Diagnostic> = Vec::new();
    if info.is_discontinued {
        let message = discontinued_message_exec(entry.name.as_str(), &info.replaced_by);
        result.push(
            Diagnostic {
                range: entry.name_range,
                severity: Some(DiagnosticSeverity::Warning),
                source: Some(string_of(chars_of(SOURCE).as_slice())),
                message,
                data: None,
            },
        );
    }
    let ghost w = diag_models(result@);
    if check_outdated {
        if let DepSource::Hosted { constraint, constraint_range } = &entry.source {
            let c: Option<&str> = match constraint {
                Some(s) => Some(s.as_str()),
                None => None,
            };
            if is_outdated(c, info.latest.as_str()) == Some(true) {
                let mut m = chars_of("Newer version available: ");
                push_all(&mut m, chars_of(info.latest.as_str()).as_slice());
                let range = match constraint_range {
                    Some(r) => *r,
                    None => entry.name_range,
                };
                result.push(
                    Diagnostic {
                        range,
                        severity: Some(DiagnosticSeverity::Hint),
                        source: Some(string_of(chars_of(SOURCE).as_slice())),
                        message: string_of(m.as_slice()),
                        data: Some(
                            UpdateData {
                                latest: Some(copy_string(&info.latest)),
                                caret: Some(uses_caret(c)),
                            },
                        ),
                    },
                );
            }
        }
    }
    proof {
        assert(diag_models(result@) =~= entry_diagnostics_spec(
            entry_model(*entry),
            info.latest@,
            info.is_discontinued,
            opt_seq(info.replaced_by),
            check_outdated,
        ));
    }
    result
}

fn start_le_exec(a: &Diagnostic, b: &Diagnostic) -> (r: bool)
    ensures
        r == start_le(diag_model(*a), diag_model(*b)),
{
    a.range.start.line < b.range.start.line || (a.range.start.line == b.range.start.line
        && a.range.start.character <= b.range.start.character)
}

/// Orders diagnostics by the start of their range (stable).
#[verifier::rlimit(40)]
pub fn sort_diagnostics(diags: Vec<Diagnostic>) -> (r: Vec<Diagnostic>)
    ensures
        diag_models(r@) == sort_diags(diag_models(diags@)),
{
    let ghost input = diag_models(diags@);
    let mut rest = diags;
    let mut sorted: Vec<Diagnostic> = Vec::new();
    let mut done: usize = 0;
    let _n = rest.len();
    assert(diag_models(rest@).skip(0) =~= diag_models(rest@));
    assert(input.take(0) =~= Seq::<DiagnosticModel>::empty());
    while rest.len() > 0
        invariant
            input.len() <= usize::MAX,
            done + rest@.len() == input.len(),
            diag_models(rest@) == input.skip(done as int),
            diag_models(sorted@) == sort_diags(input.take(done as int)),
        decreases rest@.len(),
    {
        let ghost r0 = rest@;
        let x = rest.remove(0);
        let ghost xm = diag_model(x);
        assert(diag_models(r0)[0] == diag_model(r0[0]));
        assert(xm == input[done as int]);
        let ghost sv = diag_models(sorted@);
        let mut pos = sorted.len();
        assert(sv.take(pos as int) =~= sv);
        while pos > 0 && !start_le_exec(&sorted[pos - 1], &x)
            invariant
                pos <= sorted@.len(),
                sv == diag_models(sorted@),
                xm == diag_model(x),
                diag_insert_pos(sv, xm) == diag_insert_pos(sv.take(pos as int), xm),
            decreases pos,
        {
            assert(sv.take(pos as int).drop_last() =~= sv.take(pos - 1));
            pos = pos - 1;
        }
        proof {
            if pos > 0 {
                assert(sv.take(pos as int).last() == sv[pos - 1]);
            }
        }
        sorted.insert(pos, x);
        proof {
            assert(input.take(done + 1).drop_last() =~= input.take(done as int));
            assert(diag_models(sorted@) =~= sv.insert(pos as int, xm));
            assert(rest@ =~= r0.remove(0));
            assert forall|j: int| 0 <= j < diag_models(rest@).len() implies #[trigger] diag_models(
                rest@,
            )[j] == input.skip(done + 1)[j] by {
                assert(diag_models(r0)[j + 1] == input.skip(done as int)[j + 1]);
            }
            assert(diag_models(rest@) =~= input.skip(done + 1));
        }
        done = done + 1;
    }
    assert(input.take(done as int) =~= input);
    sorted
}

/// The diagnostics of a document, given the metadata fetched for each of
/// its checks ([`hosted_checks`], in the same order; none where the lookup
/// failed, and none past the end of `infos`): a package that is unknown or
/// could not be reached reports nothing.
pub fn document_diagnostics(model: &PubspecModel, infos: &[Option<PackageInfo>]) -> (r: Vec<Diagnostic>)
    ensures
        diag_models(r@) == document_diagnostics_spec(model.view(), infos@),
{
    let ghost ss = model.view();
    let checks = hosted_checks(model);
    let ghost cs = checks_of(ss);
    proof {
        law_only_hosted_checked(ss);
        assert(checks@.len() == cs.len());
    }
    let mut result: Vec<Diagnostic> = Vec::new();
    let mut k: usize = 0;
    while k < checks.len()
        invariant
            k <= checks@.len(),
            ss == model.view(),
            cs == checks_of(ss),
            checks@.map_values(|t: (usize, usize, bool)| (t.0 as int, t.1 as int, t.2)) == cs,
            forall|m: int|
                0 <= m < cs.len() ==> {
                    let c = #[trigger] cs[m];
                    &&& 0 <= c.0 < ss.len()
                    &&& 0 <= c.1 < ss[c.0].entries.len()
                },
            diag_models(result@) == gathered(ss, cs.take(k as int), infos@),
        decreases checks@.len() - k,
    {
        let (i, j, check_outdated) = checks[k];
        let ghost c = cs[k as int];
        assert(c == (i as int, j as int, check_outdated));
        assert(cs.take(k + 1).drop_last() =~= cs.take(k as int));
        assert(cs.take(k + 1).last() == c);
        assert(model.sections@[i as int].entries@.len() == ss[i as int].entries.len());
        let entry = &model.sections[i].entries[j];
        assert(entry_model(*entry) == ss[i as int].entries[j as int]);
        let ghost before = result@;
        if k < infos.len() {
            match &infos[k] {
                Some(info) => {
                    let mut d = entry_diagnostics(entry, info, check_outdated);
                    let ghost dv = d@;
                    result.append(&mut d);
                    assert(diag_models(result@) =~= diag_models(before) + diag_models(dv));
                },
                None => {
                    assert(diag_models(result@) =~= diag_models(before) + Seq::<DiagnosticModel>::empty());
                },
            }
        } else {
            assert(diag_models(result@) =~= diag_models(before) + Seq::<DiagnosticModel>::empty());
        }
        k = k + 1;
    }
    assert(cs.take(k as int) =~= cs);
    sort_diagnostics(result)
}

// ---------------------------------------------------------------------------
// Laws
// ---------------------------------------------------------------------------

proof fn lemma_section_checks_flags(i: int, kind: SectionKind, entries: Seq<EntryModel>)
    ensures
        forall|k: int|
            0 <= k < section_checks(i, kind, entries).len() ==> (#[trigger] section_checks(
                i,
                kind,
                entries,
            )[k]).2 == (kind != SectionKind::DependencyOverrides) && section_checks(i, kind, entries)[k].0 == i,
    decreases entries.len(),
{
    if entries.len() > 0 {
        lemma_section_checks_flags(i, kind, entries.drop_last());
        let p = section_checks(i, kind, entries.drop_last());
        let q = section_checks(i, kind, entries);
        assert forall|k: int| 0 <= k < q.len() implies (#[trigger] q[k]).2 == (kind
            != SectionKind::DependencyOverrides) && q[k].0 == i by {
            if k < p.len() {
                assert(q[k] == p[k]);
            }
        }
    }
}

/// Overrides are deliberate pins: every check of an entry in a
/// `dependency_overrides` section is made without the outdated check, and
/// checks without it report nothing but the discontinued warning.
pub proof fn law_overrides_only_discontinued(
    ss: Seq<SectionModel>,
    e: EntryModel,
    latest: Seq<char>,
    is_discontinued: bool,
    replaced_by: Option<Seq<char>>,
)
    ensures
        forall|k: int|
            0 <= k < checks_of(ss).len() && 0 <= (#[trigger] checks_of(ss)[k]).0 < ss.len()
                && ss[checks_of(ss)[k].0].kind == SectionKind::DependencyOverrides
                ==> !checks_of(ss)[k].2,
        forall|k: int|
            0 <= k < entry_diagnostics_spec(
                e,
                latest,
                is_discontinued,
                replaced_by,
                false,
            ).len() ==> (#[trigger] entry_diagnostics_spec(
                e,
                latest,
                is_discontinued,
                replaced_by,
                false,
            )[k]).severity == Some(DiagnosticSeverity::Warning),
    decreases ss.len(),
{
    if ss.len() > 0 {
        law_overrides_only_discontinued(
            ss.drop_last(),
            e,
            latest,
            is_discontinued,
            replaced_by,
        );
        let last = ss.last();
        lemma_section_checks_flags(ss.len() - 1, last.kind, last.entries);
        let a = checks_of(ss.drop_last());
        let b = section_checks(ss.len() - 1, last.kind, last.entries);
        lemma_checks_range(ss.drop_last());
        assert forall|k: int|
            0 <= k < checks_of(ss).len() && 0 <= (#[trigger] checks_of(ss)[k]).0 < ss.len()
                && ss[checks_of(ss)[k].0].kind == SectionKind::DependencyOverrides
                implies !checks_of(ss)[k].2 by {
            if k < a.len() {
                assert(checks_of(ss)[k] == a[k]);
                assert(ss[a[k].0] == ss.drop_last()[a[k].0]);
            } else {
                assert(checks_of(ss)[k] == b[k - a.len()]);
            }
        }
    }
}

proof fn lemma_checks_range(ss: Seq<SectionModel>)
    ensures
        forall|k: int|
            0 <= k < checks_of(ss).len() ==> 0 <= (#[trigger] checks_of(ss)[k]).0 < ss.len(),
    decreases ss.len(),
{
    if ss.len() > 0 {
        lemma_checks_range(ss.drop_last());
        lemma_section_checks_flags(ss.len() - 1, ss.last().kind, ss.last().entries);
        let a = checks_of(ss.drop_last());
        let b = section_checks(ss.len() - 1, ss.last().kind, ss.last().entries);
        assert forall|k: int| 0 <= k < checks_of(ss).len() implies 0 <= (#[trigger] checks_of(
            ss,
        )[k]).0 < ss.len() by {
            if k < a.len() {
                assert(checks_of(ss)[k] == a[k]);
            } else {
                assert(checks_of(ss)[k] == b[k - a.len()]);
            }
        }
    }
}


proof fn lemma_diag_insert_pos(s: Seq<DiagnosticModel>, x: DiagnosticModel)
    ensures
        0 <= diag_insert_pos(s, x) <= s.len(),
        diag_insert_pos(s, x) > 0 ==> start_le(s[diag_insert_pos(s, x) - 1], x),
        forall|i: int| diag_insert_pos(s, x) <= i < s.len() ==> !start_le(#[trigger] s[i], x),
    decreases s.len(),
{
    if s.len() > 0 && !start_le(s.last(), x) {
        lemma_diag_insert_pos(s.drop_last(), x);
        let p = diag_insert_pos(s, x);
        if p > 0 {
            assert(s[p - 1] == s.drop_last()[p - 1]);
        }
        assert forall|i: int| p <= i < s.len() implies !start_le(#[trigger] s[i], x) by {
            if i < s.len() - 1 {
                assert(s[i] == s.drop_last()[i]);
            }
        }
    }
}

/// The diagnostics are in order of their range's start.
pub open spec fn diags_ordered(ds: Seq<DiagnosticModel>) -> bool {
    forall|i: int, j: int| 0 <= i < j < ds.len() ==> start_le(#[trigger] ds[i], #[trigger] ds[j])
}

/// What is published is ordered by the start of each range, and it is the
/// diagnostics that were computed, each exactly once: the order changes,
/// the multiset does not.
pub proof fn law_diagnostics_sorted(ds: Seq<DiagnosticModel>)
    ensures
        diags_ordered(sort_diags(ds)),
        sort_diags(ds).to_multiset() == ds.to_multiset(),
    decreases ds.len(),
{
    broadcast use vstd::seq_lib::to_multiset_insert, vstd::seq_lib::to_multiset_build;

    if ds.len() > 0 {
        law_diagnostics_sorted(ds.drop_last());
        let s = sort_diags(ds.drop_last());
        let x = ds.last();
        let p = diag_insert_pos(s, x);
        lemma_diag_insert_pos(s, x);
        let t = s.insert(p, x);
        assert forall|i: int, j: int| 0 <= i < j < t.len() implies start_le(
            #[trigger] t[i],
            #[trigger] t[j],
        ) by {
            if i < p && j == p {
                assert(start_le(s[i], s[p - 1]));
            } else if i == p && j > p {
                assert(t[j] == s[j - 1]);
            } else if i < p && j > p {
                assert(t[j] == s[j - 1]);
                assert(t[i] == s[i]);
            } else if i > p {
                assert(t[i] == s[i - 1] && t[j] == s[j - 1]);
            }
        }
        vstd::seq_lib::to_multiset_build(ds.drop_last(), x);
        vstd::seq_lib::to_multiset_insert(s, p, x);
        assert(ds =~= ds.drop_last().push(x));
        assert(t.to_multiset() =~= ds.to_multiset());
    } else {
        assert(sort_diags(ds) =~= ds);
    }
}


proof fn lemma_section_checks_hosted(i: int, kind: SectionKind, entries: Seq<EntryModel>)
    ensures
        forall|k: int|
            0 <= k < section_checks(i, kind, entries).len() ==> {
                let c = #[trigger] section_checks(i, kind, entries)[k];
                &&& c.0 == i
                &&& 0 <= c.1 < entries.len()
                &&& entries[c.1].source is Hosted
            },
        forall|j: int|
            0 <= j < entries.len() && (#[trigger] entries[j]).source is Hosted ==> exists|k: int|
                0 <= k < section_checks(i, kind, entries).len() && #[trigger] section_checks(
                    i,
                    kind,
                    entries,
                )[k].1 == j,
    decreases entries.len(),
{
    if entries.len() > 0 {
        let d = entries.drop_last();
        lemma_section_checks_hosted(i, kind, d);
        let p = section_checks(i, kind, d);
        let q = section_checks(i, kind, entries);
        assert forall|k: int| 0 <= k < q.len() implies {
            let c = #[trigger] q[k];
            &&& c.0 == i
            &&& 0 <= c.1 < entries.len()
            &&& entries[c.1].source is Hosted
        } by {
            if k < p.len() {
                assert(q[k] == p[k]);
                assert(entries[p[k].1] == d[p[k].1]);
            }
        }
        assert forall|j: int| 0 <= j < entries.len() && (#[trigger] entries[j]).source is Hosted implies exists|k: int|
            0 <= k < q.len() && #[trigger] q[k].1 == j by {
            if j < entries.len() - 1 {
                assert(entries[j] == d[j]);
                let k = choose|k: int| 0 <= k < p.len() && #[trigger] p[k].1 == j;
                assert(q[k] == p[k]);
            } else {
                assert(q[p.len() as int].1 == j);
            }
        }
    }
}

/// Git, path and SDK dependencies make no version noise: the entries checked
/// against pub.dev are exactly the hosted ones, each named by its section
/// and its place in it.
pub proof fn law_only_hosted_checked(ss: Seq<SectionModel>)
    ensures
        forall|k: int|
            0 <= k < checks_of(ss).len() ==> {
                let c = #[trigger] checks_of(ss)[k];
                &&& 0 <= c.0 < ss.len()
                &&& 0 <= c.1 < ss[c.0].entries.len()
                &&& ss[c.0].entries[c.1].source is Hosted
            },
        forall|i: int, j: int|
            0 <= i < ss.len() && 0 <= j < ss[i].entries.len() && (#[trigger] ss[i].entries[j]).source is Hosted
                ==> exists|k: int|
                0 <= k < checks_of(ss).len() && (#[trigger] checks_of(ss)[k]).0 == i && checks_of(ss)[k].1 == j,
    decreases ss.len(),
{
    if ss.len() > 0 {
        let d = ss.drop_last();
        let n = ss.len() - 1;
        law_only_hosted_checked(d);
        let last = ss.last();
        lemma_section_checks_hosted(n, last.kind, last.entries);
        let a = checks_of(d);
        let b = section_checks(n, last.kind, last.entries);
        let c = checks_of(ss);
        assert(c == a + b);
        assert forall|k: int| 0 <= k < c.len() implies {
            let x = #[trigger] c[k];
            &&& 0 <= x.0 < ss.len()
            &&& 0 <= x.1 < ss[x.0].entries.len()
            &&& ss[x.0].entries[x.1].source is Hosted
        } by {
            if k < a.len() {
                assert(c[k] == a[k]);
                assert(ss[a[k].0] == d[a[k].0]);
            } else {
                assert(c[k] == b[k - a.len()]);
            }
        }
        assert forall|i: int, j: int|
            0 <= i < ss.len() && 0 <= j < ss[i].entries.len() && (#[trigger] ss[i].entries[j]).source is Hosted
            implies exists|k: int| 0 <= k < c.len() && (#[trigger] c[k]).0 == i && c[k].1 == j by {
            if i < n {
                assert(ss[i] == d[i]);
                assert(d[i].entries[j].source is Hosted);
                let k = choose|k: int| 0 <= k < a.len() && (#[trigger] a[k]).0 == i && a[k].1 == j;
                assert(c[k] == a[k]);
            } else {
                assert(last.entries[j].source is Hosted);
                let k = choose|k: int| 0 <= k < b.len() && #[trigger] b[k].1 == j;
                assert(c[a.len() + k] == b[k]);
            }
        }
    }
}


proof fn lemma_gathered_silent(ss: Seq<SectionModel>, cs: Seq<(int, int, bool)>, infos: Seq<Option<PackageInfo>>)
    requires
        forall|k: int| 0 <= k < infos.len() ==> (#[trigger] infos[k]) is None,
    ensures
        gathered(ss, cs, infos) == Seq::<DiagnosticModel>::empty(),
    decreases cs.len(),
{
    if cs.len() > 0 {
        lemma_gathered_silent(ss, cs.drop_last(), infos);
        assert(gathered(ss, cs, infos) =~= Seq::<DiagnosticModel>::empty());
    }
}

/// Offline, the server stays silent: when no package metadata could be
/// fetched, a document has no diagnostics.
pub proof fn law_offline_is_silent(ss: Seq<SectionModel>, infos: Seq<Option<PackageInfo>>)
    requires
        forall|k: int| 0 <= k < infos.len() ==> (#[trigger] infos[k]) is None,
    ensures
        document_diagnostics_spec(ss, infos) == Seq::<DiagnosticModel>::empty(),
{
    lemma_gathered_silent(ss, checks_of(ss), infos);
    assert(sort_diags(Seq::<DiagnosticModel>::empty()) =~= Seq::<DiagnosticModel>::empty());
}


proof fn lemma_checks_flags(ss: Seq<SectionModel>)
    ensures
        forall|k: int|
            0 <= k < checks_of(ss).len() ==> 0 <= (#[trigger] checks_of(ss)[k]).0 < ss.len() && checks_of(ss)[k].2
                == (ss[checks_of(ss)[k].0].kind != SectionKind::DependencyOverrides),
    decreases ss.len(),
{
    if ss.len() > 0 {
        let d = ss.drop_last();
        lemma_checks_flags(d);
        let last = ss.last();
        lemma_section_checks_flags(ss.len() - 1, last.kind, last.entries);
        let a = checks_of(d);
        let b = section_checks(ss.len() - 1, last.kind, last.entries);
        assert forall|k: int| 0 <= k < checks_of(ss).len() implies 0 <= (#[trigger] checks_of(ss)[k]).0
            < ss.len() && checks_of(ss)[k].2 == (ss[checks_of(ss)[k].0].kind
            != SectionKind::DependencyOverrides) by {
            if k < a.len() {
                assert(checks_of(ss)[k] == a[k]);
                assert(ss[a[k].0] == d[a[k].0]);
            } else {
                assert(checks_of(ss)[k] == b[k - a.len()]);
            }
        }
    }
}

proof fn lemma_gathered_contains(
    ss: Seq<SectionModel>,
    cs: Seq<(int, int, bool)>,
    infos: Seq<Option<PackageInfo>>,
    k: int,
    x: DiagnosticModel,
)
    requires
        0 <= k < cs.len(),
        check_report(ss, cs[k], info_at(infos, k)).contains(x),
    ensures
        gathered(ss, cs, infos).contains(x),
    decreases cs.len(),
{
    let d = cs.drop_last();
    let r = check_report(ss, cs.last(), info_at(infos, cs.len() - 1));
    if k == cs.len() - 1 {
        let j = choose|j: int| 0 <= j < r.len() && r[j] == x;
        assert(gathered(ss, cs, infos)[gathered(ss, d, infos).len() + j] == x);
    } else {
        assert(d[k] == cs[k]);
        lemma_gathered_contains(ss, d, infos, k, x);
        let g = gathered(ss, d, infos);
        let j = choose|j: int| 0 <= j < g.len() && g[j] == x;
        assert(gathered(ss, cs, infos)[j] == x);
    }
}

/// The constraint of an entry, when it is hosted.
pub open spec fn hosted_constraint(e: EntryModel) -> Option<Seq<char>> {
    match e.source {
        SourceModel::Hosted { constraint, .. } => constraint,
        _ => None,
    }
}

/// Where an entry's outdated hint goes: its constraint, else its name.
pub open spec fn hint_range(e: EntryModel) -> Range {
    match e.source {
        SourceModel::Hosted { constraint_range: Some(r), .. } => r,
        _ => e.name_range,
    }
}

/// Every outdated constraint outside `dependency_overrides` gets its hint:
/// for a checked hosted entry in `dependencies` or `dev_dependencies` whose
/// package metadata is known and whose constraint is outdated against the
/// latest version, the document's diagnostics hold a hint on the
/// constraint saying the newer version, carrying that version and whether
/// the constraint used a caret.
pub proof fn law_outdated_hint_reported(
    ss: Seq<SectionModel>,
    infos: Seq<Option<PackageInfo>>,
    k: int,
    p: PackageInfo,
)
    requires
        0 <= k < checks_of(ss).len(),
        ss[checks_of(ss)[k].0].kind != SectionKind::DependencyOverrides,
        info_at(infos, k) == Some(p),
        outdated(
            hosted_constraint(ss[checks_of(ss)[k].0].entries[checks_of(ss)[k].1]),
            p.latest@,
        ) == Some(true),
    ensures
        ({
            let e = ss[checks_of(ss)[k].0].entries[checks_of(ss)[k].1];
            document_diagnostics_spec(ss, infos).contains(
                DiagnosticModel {
                    range: hint_range(e),
                    severity: Some(DiagnosticSeverity::Hint),
                    source: Some("pubspec-lsp"@),
                    message: "Newer version available: "@ + p.latest@,
                    data: Some(
                        DataModel { latest: Some(p.latest@), caret: Some(caret_spec(hosted_constraint(e))) },
                    ),
                },
            )
        }),
{
    broadcast use vstd::seq_lib::to_multiset_contains;

    let cs = checks_of(ss);
    let c = cs[k];
    lemma_checks_flags(ss);
    law_only_hosted_checked(ss);
    let e = ss[c.0].entries[c.1];
    let hint = DiagnosticModel {
        range: hint_range(e),
        severity: Some(DiagnosticSeverity::Hint),
        source: Some("pubspec-lsp"@),
        message: "Newer version available: "@ + p.latest@,
        data: Some(DataModel { latest: Some(p.latest@), caret: Some(caret_spec(hosted_constraint(e))) }),
    };
    let r = check_report(ss, c, info_at(infos, k));
    assert(c.2);
    assert(r.last() == hint);
    assert(r.contains(hint));
    lemma_gathered_contains(ss, cs, infos, k, hint);
    let g = gathered(ss, cs, infos);
    law_diagnostics_sorted(g);
    assert(g.to_multiset().count(hint) > 0);
    assert(sort_diags(g).to_multiset().count(hint) > 0);
}

} // verus!
