//! Code actions: "Update to …" for one outdated dependency, "Update all
//! dependencies to latest", and the section sort (see `sort_section`).
use vstd::prelude::*;

use crate::diagnostics::{
    caret_spec, diag_model, diag_models, entry_diagnostics_spec, outdated_message, Diagnostic,
    DiagnosticModel, SOURCE,
};
use crate::lsp::{Range, TextEdit};
use crate::pubspec::{EntryModel, SourceModel};
use crate::text::{chars_eq, chars_of, decimal, decimal_chars, push_all, string_of};

verus! {

broadcast use {vstd::seq::group_seq_axioms, vstd::slice::group_slice_axioms};

#[derive(Debug, Clone, Copy, PartialEq, Eq, Structural)]
pub enum CodeActionKind {
    QuickFix,
    Source,
    RefactorRewrite,
}

/// The edits of a workspace edit, all in one document.
#[derive(Debug, Clone)]
pub struct WorkspaceEdit {
    pub uri: String,
    pub edits: Vec<TextEdit>,
}

#[derive(Debug, Clone)]
pub struct CodeAction {
    pub title: String,
    pub kind: Option<CodeActionKind>,
    pub diagnostics: Option<Vec<Diagnostic>>,
    pub edit: Option<WorkspaceEdit>,
    pub is_preferred: Option<bool>,
}

pub struct WorkspaceEditModel {
    pub uri: Seq<char>,
    pub edits: Seq<(Range, Seq<char>)>,
}

pub struct ActionModel {
    pub title: Seq<char>,
    pub kind: Option<CodeActionKind>,
    pub diagnostics: Option<Seq<DiagnosticModel>>,
    pub edit: Option<WorkspaceEditModel>,
    pub is_preferred: Option<bool>,
}

pub open spec fn edit_models(v: Seq<TextEdit>) -> Seq<(Range, Seq<char>)> {
    v.map_values(|e: TextEdit| (e.range, e.new_text@))
}

pub open spec fn action_model(a: CodeAction) -> ActionModel {
    ActionModel {
        title: a.title@,
        kind: a.kind,
        diagnostics: match a.diagnostics {
            Some(ds) => Some(diag_models(ds@)),
            None => None,
        },
        edit: match a.edit {
            Some(w) => Some(WorkspaceEditModel { uri: w.uri@, edits: edit_models(w.edits@) }),
            None => None,
        },
        is_preferred: a.is_preferred,
    }
}

pub open spec fn action_models(v: Seq<CodeAction>) -> Seq<ActionModel> {
    v.map_values(|a: CodeAction| action_model(a))
}

// ---------------------------------------------------------------------------
// Specification
// ---------------------------------------------------------------------------

/// The constraint text to write for an outdated diagnostic: `^<latest>`
/// when the data says the constraint used a caret (or does not say), else
/// the bare `<latest>`; `None` without a `latest`.
pub open spec fn replacement_spec(d: DiagnosticModel) -> Option<Seq<char>> {
    match d.data {
        None => None,
        Some(data) => match data.latest {
            None => None,
            Some(l) => {
                let caret = match data.caret {
                    Some(c) => c,
                    None => true,
                };
                Some(if caret { "^"@ + l } else { l })
            },
        },
    }
}

/// The "Update to …" quickfix for one diagnostic.
pub open spec fn update_action_spec(uri: Seq<char>, d: DiagnosticModel) -> Option<ActionModel> {
    match replacement_spec(d) {
        None => None,
        Some(t) => Some(
            ActionModel {
                title: "Update to "@ + t,
                kind: Some(CodeActionKind::QuickFix),
                diagnostics: Some(seq![d]),
                edit: Some(WorkspaceEditModel { uri, edits: seq![(d.range, t)] }),
                is_preferred: Some(true),
            },
        ),
    }
}

/// The update edits for this server's diagnostics that carry a `latest`.
pub open spec fn update_edits(ds: Seq<DiagnosticModel>) -> Seq<(Range, Seq<char>)>
    decreases ds.len(),
{
    if ds.len() == 0 {
        Seq::empty()
    } else {
        let rest = update_edits(ds.drop_last());
        let d = ds.last();
        if d.source == Some("pubspec-lsp"@) && replacement_spec(d) is Some {
            rest.push((d.range, replacement_spec(d).unwrap()))
        } else {
            rest
        }
    }
}

/// One action updating every outdated dependency at once; only offered for
/// two or more updates.
pub open spec fn update_all_spec(uri: Seq<char>, ds: Seq<DiagnosticModel>) -> Option<ActionModel> {
    let edits = update_edits(ds);
    if edits.len() < 2 {
        None
    } else {
        Some(
            ActionModel {
                title: "Update all dependencies to latest ("@ + decimal(edits.len()) + ")"@,
                kind: Some(CodeActionKind::Source),
                diagnostics: None,
                edit: Some(WorkspaceEditModel { uri, edits }),
                is_preferred: None,
            },
        )
    }
}

// ---------------------------------------------------------------------------
// Executable code
// ---------------------------------------------------------------------------

/// The constraint text to write for an outdated diagnostic: `^<latest>` when
/// the constraint used a caret, otherwise the bare `<latest>`.
pub fn diagnostic_replacement(diagnostic: &Diagnostic) -> (r: Option<String>)
    ensures
        match r {
            Some(t) => replacement_spec(diag_model(*diagnostic)) == Some(t@),
            None => replacement_spec(diag_model(*diagnostic)) is None,
        },
{
    let data = match &diagnostic.data {
        Some(d) => d,
        None => return None,
    };
    let latest = match &data.latest {
        Some(l) => l,
        None => return None,
    };
    let caret = match data.caret {
        Some(c) => c,
        None => true,
    };
    let mut v: Vec<char> = Vec::new();
    if caret {
        v.push('^');
    }
    push_all(&mut v, chars_of(latest.as_str()).as_slice());
    proof {
        if caret {
            reveal_strlit("^");
            assert(v@ =~= "^"@ + latest@);
        } else {
            assert(v@ =~= latest@);
        }
    }
    Some(string_of(v.as_slice()))
}

fn copy_str(s: &str) -> (r: String)
    ensures
        r@ == s@,
{
    string_of(chars_of(s).as_slice())
}

/// A workspace edit of one document.
pub fn workspace_edit(uri: &str, edits: Vec<TextEdit>) -> (r: WorkspaceEdit)
    ensures
        r.uri@ == uri@,
        r.edits@ == edits@,
{
    WorkspaceEdit { uri: copy_str(uri), edits }
}

/// "Update to X" quickfix for one outdated-dependency diagnostic (built from
/// the `latest`/`caret` stashed in the diagnostic's data — no refetch
/// needed). The caret is re-added only when the replaced constraint had one.
pub fn update_action(uri: &str, diagnostic: &Diagnostic) -> (r: Option<CodeAction>)
    ensures
        match r {
            Some(a) => update_action_spec(uri@, diag_model(*diagnostic)) == Some(action_model(a)),
            None => update_action_spec(uri@, diag_model(*diagnostic)) is None,
        },
{
    let new_text = match diagnostic_replacement(diagnostic) {
        Some(t) => t,
        None => return None,
    };
    let mut title = chars_of("Update to ");
    push_all(&mut title, chars_of(new_text.as_str()).as_slice());
    let mut edits: Vec<TextEdit> = Vec::new();
    edits.push(TextEdit { range: diagnostic.range, new_text });
    let mut diags: Vec<Diagnostic> = Vec::new();
    diags.push(diagnostic.duplicate());
    let a = CodeAction {
        title: string_of(title.as_slice()),
        kind: Some(CodeActionKind::QuickFix),
        diagnostics: Some(diags),
        edit: Some(workspace_edit(uri, edits)),
        is_preferred: Some(true),
    };
    proof {
        assert(diag_models(diags@) =~= seq![diag_model(*diagnostic)]);
        assert(edit_models(a.edit.unwrap().edits@) =~= seq![
            (diagnostic.range, replacement_spec(diag_model(*diagnostic)).unwrap()),
        ]);
    }
    Some(a)
}

fn is_own_diagnostic(d: &Diagnostic) -> (r: bool)
    ensures
        r == (diag_model(*d).source == Some("pubspec-lsp"@)),
{
    match &d.source {
        Some(s) => {
            let own = chars_of(SOURCE);
            chars_eq(chars_of(s.as_str()).as_slice(), own.as_slice())
        },
        None => false,
    }
}

/// One action updating every outdated dependency in the document at once.
/// `diagnostics` are the last published diagnostics for this document.
pub fn update_all_action(uri: &str, diagnostics: &[Diagnostic]) -> (r: Option<CodeAction>)
    ensures
        match r {
            Some(a) => update_all_spec(uri@, diag_models(diagnostics@)) == Some(action_model(a)),
            None => update_all_spec(uri@, diag_models(diagnostics@)) is None,
        },
{
    let ghost dm = diag_models(diagnostics@);
    let mut edits: Vec<TextEdit> = Vec::new();
    let mut i: usize = 0;
    while i < diagnostics.len()
        invariant
            i <= diagnostics@.len(),
            dm == diag_models(diagnostics@),
            edit_models(edits@) == update_edits(dm.take(i as int)),
        decreases diagnostics@.len() - i,
    {
        let d = &diagnostics[i];
        assert(dm.take(i + 1).drop_last() =~= dm.take(i as int));
        assert(dm.take(i + 1).last() == diag_model(*d));
        let ghost e0 = edits@;
        if is_own_diagnostic(d) {
            if let Some(t) = diagnostic_replacement(d) {
                edits.push(TextEdit { range: d.range, new_text: t });
                assert(edit_models(edits@) =~= edit_models(e0).push(
                    (d.range, replacement_spec(diag_model(*d)).unwrap()),
                ));
            }
        }
        i = i + 1;
    }
    assert(dm.take(i as int) =~= dm);
    if edits.len() < 2 {
        return None;
    }
    let mut title = chars_of("Update all dependencies to latest (");
    push_all(&mut title, decimal_chars(edits.len()).as_slice());
    push_all(&mut title, chars_of(")").as_slice());
    Some(
        CodeAction {
            title: string_of(title.as_slice()),
            kind: Some(CodeActionKind::Source),
            diagnostics: None,
            edit: Some(workspace_edit(uri, edits)),
            is_preferred: None,
        },
    )
}

// ---------------------------------------------------------------------------
// Laws
// ---------------------------------------------------------------------------

/// The update keeps the caret choice of the replaced constraint: for every
/// diagnostic reported for an entry that carries update data, the update
/// action writes `^<latest>` exactly when the entry's constraint used a
/// caret, and `<latest>` otherwise.
pub proof fn law_update_keeps_caret(
    uri: Seq<char>,
    e: EntryModel,
    latest: Seq<char>,
    is_discontinued: bool,
    replaced_by: Option<Seq<char>>,
    check_outdated: bool,
    k: int,
)
    requires
        0 <= k < entry_diagnostics_spec(
            e,
            latest,
            is_discontinued,
            replaced_by,
            check_outdated,
        ).len(),
        entry_diagnostics_spec(e, latest, is_discontinued, replaced_by, check_outdated)[k].data
            is Some,
    ensures
        ({
            let d = entry_diagnostics_spec(
                e,
                latest,
                is_discontinued,
                replaced_by,
                check_outdated,
            )[k];
            let constraint = match e.source {
                SourceModel::Hosted { constraint, .. } => constraint,
                _ => None,
            };
            let t = if caret_spec(constraint) { "^"@ + latest } else { latest };
            &&& replacement_spec(d) == Some(t)
            &&& update_action_spec(uri, d) matches Some(a) && a.edit matches Some(w) && w.edits
                == seq![(d.range, t)]
        }),
{
}

} // verus!
