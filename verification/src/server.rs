//! The code actions the server offers for a request.
use vstd::prelude::*;

use crate::actions::{
    action_model, action_models, update_action, update_action_spec, update_all_action,
    update_all_spec, workspace_edit, ActionModel, CodeAction, CodeActionKind,
    WorkspaceEditModel,
};
use crate::diagnostics::{diag_model, diag_models, Diagnostic, DiagnosticModel, SOURCE};
use crate::lsp::TextEdit;
use crate::sort_section::{plan_range, sort_plan, sort_section_edit};
use crate::text::{chars_eq, chars_of, join, lines, string_of};

verus! {

broadcast use {vstd::seq::group_seq_axioms, vstd::slice::group_slice_axioms};

/// One quickfix per diagnostic of this server that has an update.
pub open spec fn quickfixes(uri: Seq<char>, ds: Seq<DiagnosticModel>) -> Seq<ActionModel>
    decreases ds.len(),
{
    if ds.len() == 0 {
        Seq::empty()
    } else {
        let rest = quickfixes(uri, ds.drop_last());
        let d = ds.last();
        if d.source == Some("pubspec-lsp"@) && update_action_spec(uri, d) is Some {
            rest.push(update_action_spec(uri, d).unwrap())
        } else {
            rest
        }
    }
}

/// The sort action for the section under the cursor, if it applies.
pub open spec fn sort_action_spec(uri: Seq<char>, text: Option<Seq<char>>, cursor: int) -> Option<ActionModel> {
    match text {
        None => None,
        Some(t) => match sort_plan(lines(t), cursor) {
            None => None,
            Some((s, e, nl)) => Some(
                ActionModel {
                    title: "Sort dependencies alphabetically"@,
                    kind: Some(CodeActionKind::RefactorRewrite),
                    diagnostics: None,
                    edit: Some(
                        WorkspaceEditModel {
                            uri,
                            edits: seq![(plan_range(lines(t), s, e), join(nl, '\n'))],
                        },
                    ),
                    is_preferred: None,
                },
            ),
        },
    }
}

pub open spec fn opt_seq<T>(o: Option<T>) -> Seq<T> {
    match o {
        Some(x) => seq![x],
        None => Seq::empty(),
    }
}

/// The actions for a request: a quickfix per outdated-dependency diagnostic
/// under the cursor, the update-everything action from the last published
/// diagnostics, and the sort of the section under the cursor.
pub open spec fn code_actions_spec(
    uri: Seq<char>,
    context: Seq<DiagnosticModel>,
    published: Seq<DiagnosticModel>,
    text: Option<Seq<char>>,
    cursor: int,
) -> Seq<ActionModel> {
    quickfixes(uri, context) + opt_seq(update_all_spec(uri, published)) + opt_seq(
        sort_action_spec(uri, text, cursor),
    )
}

fn is_own(d: &Diagnostic) -> (r: bool)
    ensures
        r == (diag_model(*d).source == Some("pubspec-lsp"@)),
{
    match &d.source {
        Some(s) => chars_eq(chars_of(s.as_str()).as_slice(), chars_of(SOURCE).as_slice()),
        None => false,
    }
}

/// The code actions for a request on document `uri`. `published` are the
/// diagnostics last published for it, `doc_text` its text when it is open.
pub fn code_actions(
    uri: &str,
    context_diagnostics: &[Diagnostic],
    published: &[Diagnostic],
    doc_text: Option<&str>,
    cursor_line: u32,
) -> (r: Vec<CodeAction>)
    ensures
        action_models(r@) == code_actions_spec(
            uri@,
            diag_models(context_diagnostics@),
            diag_models(published@),
            match doc_text {
                Some(t) => Some(t@),
                None => None,
            },
            cursor_line as int,
        ),
{
    let ghost cm = diag_models(context_diagnostics@);
    let mut response: Vec<CodeAction> = Vec::new();
    let mut i: usize = 0;
    while i < context_diagnostics.len()
        invariant
            i <= context_diagnostics@.len(),
            cm == diag_models(context_diagnostics@),
            action_models(response@) == quickfixes(uri@, cm.take(i as int)),
        decreases context_diagnostics@.len() - i,
    {
        let d = &context_diagnostics[i];
        assert(cm.take(i + 1).drop_last() =~= cm.take(i as int));
        assert(cm.take(i + 1).last() == diag_model(*d));
        let ghost r0 = response@;
        if is_own(d) {
            if let Some(action) = update_action(uri, d) {
                response.push(action);
                assert(action_models(response@) =~= action_models(r0).push(action_model(action)));
            }
        }
        i = i + 1;
    }
    assert(cm.take(i as int) =~= cm);
    let ghost q = action_models(response@);
    let ghost r1 = response@;
    if let Some(action) = update_all_action(uri, published) {
        response.push(action);
        assert(action_models(response@) =~= action_models(r1).push(action_model(action)));
    }
    let ghost u = action_models(response@);
    assert(u =~= q + opt_seq(update_all_spec(uri@, diag_models(published@))));
    let ghost r2 = response@;
    if let Some(text) = doc_text {
        if let Some(edit) = sort_section_edit(text, cursor_line) {
            let mut edits: Vec<TextEdit> = Vec::new();
            edits.push(edit);
            let action = CodeAction {
                title: string_of(chars_of("Sort dependencies alphabetically").as_slice()),
                kind: Some(CodeActionKind::RefactorRewrite),
                diagnostics: None,
                edit: Some(workspace_edit(uri, edits)),
                is_preferred: None,
            };
            response.push(action);
            proof {
                let (s, e, nl) = sort_plan(lines(text@), cursor_line as int).unwrap();
                assert(crate::actions::edit_models(edits@) =~= seq![
                    (plan_range(lines(text@), s, e), join(nl, '\n')),
                ]);
                assert(action_models(response@) =~= action_models(r2).push(action_model(action)));
            }
        }
    }
    assert(action_models(response@) =~= code_actions_spec(
        uri@,
        diag_models(context_diagnostics@),
        diag_models(published@),
        match doc_text {
            Some(t) => Some(t@),
            None => None,
        },
        cursor_line as int,
    ));
    response
}

/// Per-document change counters: a diagnostics run scheduled for a
/// document publishes only if the document has not changed since.
pub struct Generations {
    counts: Vec<(String, u64)>,
}

pub open spec fn counts_distinct(s: Seq<(String, u64)>) -> bool {
    forall|i: int, j: int| 0 <= i < j < s.len() ==> (#[trigger] s[i]).0@ != (#[trigger] s[j]).0@
}

pub open spec fn counts_map(s: Seq<(String, u64)>) -> Map<Seq<char>, u64>
    decreases s.len(),
{
    if s.len() == 0 {
        Map::empty()
    } else {
        counts_map(s.drop_last()).insert(s.last().0@, s.last().1)
    }
}

proof fn lemma_counts_absent(s: Seq<(String, u64)>, k: Seq<char>)
    requires
        forall|i: int| 0 <= i < s.len() ==> (#[trigger] s[i]).0@ != k,
    ensures
        !counts_map(s).contains_key(k),
    decreases s.len(),
{
    if s.len() > 0 {
        assert(s.last() == s[s.len() - 1]);
        lemma_counts_absent(s.drop_last(), k);
    }
}

proof fn lemma_counts_lookup(s: Seq<(String, u64)>, i: int)
    requires
        counts_distinct(s),
        0 <= i < s.len(),
    ensures
        counts_map(s).contains_key(s[i].0@),
        counts_map(s)[s[i].0@] == s[i].1,
    decreases s.len(),
{
    if i < s.len() - 1 {
        assert(s.drop_last()[i] == s[i]);
        lemma_counts_lookup(s.drop_last(), i);
        assert(s[i].0@ != s[s.len() - 1].0@);
    }
}

proof fn lemma_counts_remove(s: Seq<(String, u64)>, i: int)
    requires
        counts_distinct(s),
        0 <= i < s.len(),
    ensures
        counts_map(s.remove(i)) == counts_map(s).remove(s[i].0@),
        counts_distinct(s.remove(i)),
    decreases s.len(),
{
    let k = s[i].0@;
    let r = s.remove(i);
    assert forall|a: int, b: int| 0 <= a < b < r.len() implies (#[trigger] r[a]).0@ != (#[trigger] r[b]).0@ by {
        let a0 = if a < i { a } else { a + 1 };
        let b0 = if b < i { b } else { b + 1 };
        assert(r[a] == s[a0] && r[b] == s[b0]);
    }
    if i == s.len() - 1 {
        assert(r =~= s.drop_last());
        assert forall|j: int| 0 <= j < s.drop_last().len() implies (#[trigger] s.drop_last()[j]).0@ != k by {
            assert(s.drop_last()[j] == s[j]);
        }
        lemma_counts_absent(s.drop_last(), k);
        assert(counts_map(r) =~= counts_map(s).remove(k));
    } else {
        let d = s.drop_last();
        assert forall|a: int, b: int| 0 <= a < b < d.len() implies (#[trigger] d[a]).0@ != (#[trigger] d[b]).0@ by {
            assert(d[a] == s[a] && d[b] == s[b]);
        }
        assert(d[i] == s[i]);
        lemma_counts_remove(d, i);
        assert(r.drop_last() =~= d.remove(i));
        assert(r.last() == s.last());
        assert(s.last().0@ != k);
        assert(counts_map(r) =~= counts_map(s).remove(k));
    }
}

impl View for Generations {
    type V = Map<Seq<char>, u64>;

    closed spec fn view(&self) -> Map<Seq<char>, u64> {
        counts_map(self.counts@)
    }
}

/// The counter of `uri`: 0 before its first change.
pub open spec fn generation_of(m: Map<Seq<char>, u64>, uri: Seq<char>) -> int {
    if m.contains_key(uri) {
        m[uri] as int
    } else {
        0
    }
}

impl Generations {
    #[verifier::type_invariant]
    spec fn inv(self) -> bool {
        counts_distinct(self.counts@)
    }

    /// No document has changed yet.
    pub fn new() -> (r: Generations)
        ensures
            r@ == Map::<Seq<char>, u64>::empty(),
    {
        let r = Generations { counts: Vec::new() };
        assert(counts_map(r.counts@) =~= Map::<Seq<char>, u64>::empty());
        r
    }

    fn find(&self, uri: &String) -> (r: Option<usize>)
        ensures
            match r {
                Some(i) => i < self.counts@.len() && self.counts@[i as int].0@ == uri@,
                None => forall|j: int| 0 <= j < self.counts@.len() ==> (#[trigger] self.counts@[j]).0@ != uri@,
            },
    {
        let mut i: usize = 0;
        while i < self.counts.len()
            invariant
                i <= self.counts@.len(),
                forall|j: int| 0 <= j < i ==> (#[trigger] self.counts@[j]).0@ != uri@,
            decreases self.counts@.len() - i,
        {
            if self.counts[i].0 == *uri {
                return Some(i);
            }
            i = i + 1;
        }
        None
    }

    /// The counter of `uri`.
    pub fn current(&self, uri: &str) -> (g: u64)
        ensures
            g == generation_of(self@, uri@),
    {
        proof {
            use_type_invariant(self);
        }
        let key = uri.to_owned();
        match self.find(&key) {
            Some(i) => {
                proof {
                    lemma_counts_lookup(self.counts@, i as int);
                }
                self.counts[i].1
            },
            None => {
                proof {
                    lemma_counts_absent(self.counts@, key@);
                }
                0
            },
        }
    }

    /// Record a change of `uri`; returns the generation that a run
    /// scheduled now must still see to publish.
    pub fn bump(&mut self, uri: &str) -> (g: u64)
        requires
            generation_of(old(self)@, uri@) < u64::MAX,
        ensures
            g == generation_of(old(self)@, uri@) + 1,
            final(self)@ == old(self)@.insert(uri@, g),
    {
        proof {
            use_type_invariant(&*self);
        }
        let key = uri.to_owned();
        let ghost m0 = self@;
        let found = self.find(&key);
        let mut counts: Vec<(String, u64)> = Vec::new();
        std::mem::swap(&mut counts, &mut self.counts);
        let g = match found {
            Some(i) => {
                proof {
                    lemma_counts_lookup(counts@, i as int);
                    lemma_counts_remove(counts@, i as int);
                }
                let c = counts[i].1;
                counts.remove(i);
                c + 1
            },
            None => {
                proof {
                    lemma_counts_absent(counts@, key@);
                }
                1
            },
        };
        let ghost before = counts@;
        assert(forall|j: int| 0 <= j < before.len() ==> (#[trigger] before[j]).0@ != key@);
        counts.push((key, g));
        assert(counts@.drop_last() == before);
        assert(counts_distinct(counts@));
        assert(counts_map(counts@) =~= m0.insert(uri@, g));
        self.counts = counts;
        g
    }

    /// Whether a run scheduled at generation `g` of `uri` may still publish.
    pub fn is_current(&self, uri: &str, g: u64) -> (r: bool)
        ensures
            r == (self@.contains_key(uri@) && self@[uri@] == g),
    {
        proof {
            use_type_invariant(self);
        }
        let key = uri.to_owned();
        match self.find(&key) {
            Some(i) => {
                proof {
                    lemma_counts_lookup(self.counts@, i as int);
                }
                self.counts[i].1 == g
            },
            None => {
                proof {
                    lemma_counts_absent(self.counts@, key@);
                }
                false
            },
        }
    }

    /// Forget `uri` (its document was closed): no run scheduled for it
    /// publishes any more.
    pub fn forget(&mut self, uri: &str)
        ensures
            final(self)@ == old(self)@.remove(uri@),
    {
        proof {
            use_type_invariant(&*self);
        }
        let key = uri.to_owned();
        match self.find(&key) {
            Some(i) => {
                let mut counts: Vec<(String, u64)> = Vec::new();
                std::mem::swap(&mut counts, &mut self.counts);
                proof {
                    lemma_counts_remove(counts@, i as int);
                }
                counts.remove(i);
                self.counts = counts;
            },
            None => {
                proof {
                    lemma_counts_absent(self.counts@, key@);
                    assert(self@ =~= self@.remove(uri@));
                }
            },
        }
    }
}

/// Only the latest run publishes: a run scheduled at the generation that a
/// change returned is current until the next change of the same document
/// or its closing, and a change of another document does not affect it.
pub proof fn law_latest_run_publishes(
    m: Map<Seq<char>, u64>,
    uri: Seq<char>,
    other: Seq<char>,
    g: u64,
    g2: u64,
)
    requires
        g2 == generation_of(m.insert(uri, g), uri) + 1,
    ensures
        m.insert(uri, g).contains_key(uri) && m.insert(uri, g)[uri] == g,
        !(m.insert(uri, g).insert(uri, g2)[uri] == g),
        !m.insert(uri, g).remove(uri).contains_key(uri),
        other != uri ==> m.insert(uri, g).insert(other, g2)[uri] == g,
{
}

} // verus!
