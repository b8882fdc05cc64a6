//! Completion items for package names and versions.
//!
//! The server fetches the package-name list and package metadata; choosing
//! and shaping the items is here.
use vstd::prelude::*;

use crate::lsp::{Range, TextEdit};
use crate::pubdev::PackageInfo;
use crate::text::{
    chars_eq, chars_of, contains_chars, has_infix, has_prefix, lower_ascii, push_all,
    starts_with, starts_with_char, string_of, to_lower_ascii, trim_start, trimmed_start,
    zero_pad5, zero_padded5,
};

verus! {

broadcast use {vstd::seq::group_seq_axioms, vstd::slice::group_slice_axioms};

pub const MAX_NAME_ITEMS: usize = 50;

pub const MAX_VERSION_ITEMS: usize = 20;

#[derive(Debug, Clone, Copy, PartialEq, Eq, Structural)]
pub enum CompletionItemKind {
    Module,
    Value,
}

/// A completion item: what the client shows and the edit it applies.
#[derive(Debug, Clone)]
pub struct CompletionItem {
    pub label: String,
    /// Shown next to the label (`latest`).
    pub label_description: Option<String>,
    pub kind: Option<CompletionItemKind>,
    pub sort_text: Option<String>,
    pub filter_text: Option<String>,
    pub preselect: Option<bool>,
    pub text_edit: TextEdit,
}

pub struct ItemModel {
    pub label: Seq<char>,
    pub label_description: Option<Seq<char>>,
    pub kind: Option<CompletionItemKind>,
    pub sort_text: Option<Seq<char>>,
    pub filter_text: Option<Seq<char>>,
    pub preselect: Option<bool>,
    pub range: Range,
    pub new_text: Seq<char>,
}

pub open spec fn opt_view(o: Option<String>) -> Option<Seq<char>> {
    match o {
        Some(s) => Some(s@),
        None => None,
    }
}

pub open spec fn item_model(c: CompletionItem) -> ItemModel {
    ItemModel {
        label: c.label@,
        label_description: opt_view(c.label_description),
        kind: c.kind,
        sort_text: opt_view(c.sort_text),
        filter_text: opt_view(c.filter_text),
        preselect: c.preselect,
        range: c.text_edit.range,
        new_text: c.text_edit.new_text@,
    }
}

// ---------------------------------------------------------------------------
// Package names
// ---------------------------------------------------------------------------

/// Prefix matches and substring matches seen so far; once 50 prefix matches
/// are found the rest of the list is not looked at.
pub open spec fn filter_step(
    st: (Seq<Seq<char>>, Seq<Seq<char>>),
    name: Seq<char>,
    needle: Seq<char>,
) -> (Seq<Seq<char>>, Seq<Seq<char>>) {
    if st.0.len() >= 50 {
        st
    } else if has_prefix(name, needle) {
        (st.0.push(name), st.1)
    } else if needle.len() > 0 && has_infix(name, needle) {
        (st.0, st.1.push(name))
    } else {
        st
    }
}

pub open spec fn filter_state(names: Seq<Seq<char>>, needle: Seq<char>) -> (Seq<Seq<char>>, Seq<Seq<char>>)
    decreases names.len(),
{
    if names.len() == 0 {
        (Seq::empty(), Seq::empty())
    } else {
        filter_step(filter_state(names.drop_last(), needle), names.last(), needle)
    }
}

/// The names offered for a typed prefix: names starting with the
/// lowercased prefix (in list order, i.e. popularity order), then names
/// containing it, at most 50 in all.
pub open spec fn filtered_names(names: Seq<Seq<char>>, prefix: Seq<char>) -> Seq<Seq<char>> {
    let st = filter_state(names, lower_ascii(prefix));
    let all = st.0 + st.1;
    all.take(if all.len() <= 50 { all.len() as int } else { 50 })
}

proof fn lemma_filter_saturated(names: Seq<Seq<char>>, i: int, needle: Seq<char>)
    requires
        0 <= i <= names.len(),
        filter_state(names.take(i), needle).0.len() >= 50,
    ensures
        filter_state(names, needle) == filter_state(names.take(i), needle),
    decreases names.len() - i,
{
    if i < names.len() {
        assert(names.take(i + 1).drop_last() =~= names.take(i));
        lemma_filter_saturated(names, i + 1, needle);
    } else {
        assert(names.take(i) =~= names);
    }
}

pub open spec fn string_views(v: Seq<String>) -> Seq<Seq<char>> {
    v.map_values(|s: String| s@)
}

pub open spec fn str_views(v: Seq<&str>) -> Seq<Seq<char>> {
    v.map_values(|s: &str| s@)
}

/// Prefix matches first (in popularity order), then substring matches.
pub fn filter_names<'a>(names: &'a [String], prefix: &str) -> (r: Vec<&'a str>)
    ensures
        str_views(r@) == filtered_names(string_views(names@), prefix@),
{
    let needle = to_lower_ascii(chars_of(prefix).as_slice());
    let ghost nv = string_views(names@);
    let mut starts: Vec<&'a str> = Vec::new();
    let mut contains: Vec<&'a str> = Vec::new();
    let mut i: usize = 0;
    while i < names.len()
        invariant
            i <= names@.len(),
            nv == string_views(names@),
            needle@ == lower_ascii(prefix@),
            (str_views(starts@), str_views(contains@)) == filter_state(nv.take(i as int), needle@),
        decreases names@.len() - i,
    {
        if starts.len() >= MAX_NAME_ITEMS {
            proof {
                lemma_filter_saturated(nv, i as int, needle@);
            }
            return collect_matches(starts, contains, Ghost(nv), Ghost(prefix@));
        }
        let name: &'a str = names[i].as_str();
        let nc = chars_of(name);
        assert(nv.take(i + 1).drop_last() =~= nv.take(i as int));
        assert(nv.take(i + 1).last() == name@);
        if starts_with(nc.as_slice(), needle.as_slice()) {
            let ghost s0 = starts@;
            starts.push(name);
            assert(str_views(starts@) =~= str_views(s0).push(name@));
        } else if needle.len() > 0 && contains_chars(nc.as_slice(), needle.as_slice()) {
            let ghost c0 = contains@;
            contains.push(name);
            assert(str_views(contains@) =~= str_views(c0).push(name@));
        }
        i = i + 1;
    }
    assert(nv.take(i as int) =~= nv);
    collect_matches(starts, contains, Ghost(nv), Ghost(prefix@))
}

fn collect_matches<'a>(
    starts: Vec<&'a str>,
    contains: Vec<&'a str>,
    nv: Ghost<Seq<Seq<char>>>,
    prefix: Ghost<Seq<char>>,
) -> (r: Vec<&'a str>)
    requires
        (str_views(starts@), str_views(contains@)) == filter_state(nv@, lower_ascii(prefix@)),
    ensures
        str_views(r@) == filtered_names(nv@, prefix@),
{
    let mut all = starts;
    let mut rest = contains;
    let ghost a0 = all@;
    let ghost r0 = rest@;
    all.append(&mut rest);
    assert(str_views(all@) =~= str_views(a0) + str_views(r0));
    if all.len() > MAX_NAME_ITEMS {
        all.truncate(MAX_NAME_ITEMS);
    }
    assert(str_views(all@) =~= filtered_names(nv@, prefix@));
    all
}

fn copy_str(s: &str) -> (r: String)
    ensures
        r@ == s@,
{
    string_of(chars_of(s).as_slice())
}

/// The item for a package name at rank `i`.
pub open spec fn name_item(name: Seq<char>, i: nat, range: Range, needs_colon: bool) -> ItemModel {
    ItemModel {
        label: name,
        label_description: None,
        kind: Some(CompletionItemKind::Module),
        sort_text: Some(zero_pad5(i)),
        filter_text: Some(name),
        preselect: None,
        range,
        new_text: if needs_colon { name + ": "@ } else { name },
    }
}

/// Completion items for package names, in the given order; the sort text
/// keeps that order against client-side alphabetical re-sorting.
pub fn name_items(names: &Vec<&str>, replace_range: Range, needs_colon: bool) -> (r: Vec<
    CompletionItem,
>)
    ensures
        r@.len() == names@.len(),
        forall|i: int|
            0 <= i < r@.len() ==> item_model(#[trigger] r@[i]) == name_item(
                names@[i]@,
                i as nat,
                replace_range,
                needs_colon,
            ),
{
    let mut out: Vec<CompletionItem> = Vec::new();
    let mut i: usize = 0;
    while i < names.len()
        invariant
            i <= names@.len(),
            out@.len() == i,
            forall|k: int|
                0 <= k < i ==> item_model(#[trigger] out@[k]) == name_item(
                    names@[k]@,
                    k as nat,
                    replace_range,
                    needs_colon,
                ),
        decreases names@.len() - i,
    {
        let name: &str = names[i];
        let mut insert = chars_of(name);
        if needs_colon {
            push_all(&mut insert, chars_of(": ").as_slice());
        }
        out.push(
            CompletionItem {
                label: copy_str(name),
                label_description: None,
                kind: Some(CompletionItemKind::Module),
                sort_text: Some(string_of(zero_padded5(i).as_slice())),
                filter_text: Some(copy_str(name)),
                preselect: None,
                text_edit: TextEdit { range: replace_range, new_text: string_of(insert.as_slice()) },
            },
        );
        i = i + 1;
    }
    out
}

// ---------------------------------------------------------------------------
// Versions
// ---------------------------------------------------------------------------

/// The versions offered after the latest: newest first (the API lists them
/// oldest first), without retracted ones and without `latest` itself.
pub open spec fn recent_versions(vs: Seq<(Seq<char>, bool)>, latest: Seq<char>) -> Seq<Seq<char>>
    decreases vs.len(),
{
    if vs.len() == 0 {
        Seq::empty()
    } else {
        let x = vs.last();
        let rest = recent_versions(vs.drop_last(), latest);
        if !x.1 && x.0 != latest {
            seq![x.0] + rest
        } else {
            rest
        }
    }
}

pub open spec fn version_views(v: Seq<crate::pubdev::VersionEntry>) -> Seq<(Seq<char>, bool)> {
    v.map_values(|e: crate::pubdev::VersionEntry| (e.version@, e.retracted))
}

/// The versions listed, in order: `latest`, then up to 19 recent ones.
pub open spec fn listed_versions(vs: Seq<(Seq<char>, bool)>, latest: Seq<char>) -> Seq<Seq<char>> {
    let rec = recent_versions(vs, latest);
    seq![latest] + rec.take(if rec.len() <= 19 { rec.len() as int } else { 19 })
}

/// The item for version `v` at rank `i` (rank 0 is the latest version).
/// A caret is inserted unless the typed prefix starts with one, and a space
/// when the value has none after the colon.
pub open spec fn version_item(v: Seq<char>, i: nat, prefix: Seq<char>, range: Range, needs_space: bool) -> ItemModel {
    let space = if needs_space { " "@ } else { Seq::empty() };
    let caret = if starts_with_char(trim_start(prefix), '^') { Seq::empty() } else { "^"@ };
    ItemModel {
        label: "^"@ + v,
        label_description: if i == 0 { Some("latest"@) } else { None },
        kind: Some(CompletionItemKind::Value),
        sort_text: Some(zero_pad5(i)),
        filter_text: Some("^"@ + v),
        preselect: if i == 0 { Some(true) } else { None },
        range,
        new_text: space + caret + v,
    }
}

/// Items for `versions`, ranked in order.
fn items_for_versions(
    versions: &Vec<Vec<char>>,
    prefix: &str,
    replace_range: Range,
    needs_space: bool,
) -> (r: Vec<CompletionItem>)
    ensures
        r@.len() == versions@.len(),
        forall|i: int|
            0 <= i < r@.len() ==> item_model(#[trigger] r@[i]) == version_item(
                versions@[i]@,
                i as nat,
                prefix@,
                replace_range,
                needs_space,
            ),
{
    let p = trimmed_start(chars_of(prefix).as_slice());
    let typed_caret = p.len() > 0 && p[0] == '^';
    let mut out: Vec<CompletionItem> = Vec::new();
    let mut i: usize = 0;
    while i < versions.len()
        invariant
            i <= versions@.len(),
            out@.len() == i,
            typed_caret == starts_with_char(trim_start(prefix@), '^'),
            forall|k: int|
                0 <= k < i ==> item_model(#[trigger] out@[k]) == version_item(
                    versions@[k]@,
                    k as nat,
                    prefix@,
                    replace_range,
                    needs_space,
                ),
        decreases versions@.len() - i,
    {
        let v = &versions[i];
        let mut label = chars_of("^");
        push_all(&mut label, v.as_slice());
        let mut new_text: Vec<char> = Vec::new();
        if needs_space {
            push_all(&mut new_text, chars_of(" ").as_slice());
        }
        if !typed_caret {
            push_all(&mut new_text, chars_of("^").as_slice());
        }
        push_all(&mut new_text, v.as_slice());
        let first = i == 0;
        proof {
            let space: Seq<char> = if needs_space { " "@ } else { Seq::empty() };
            let caret: Seq<char> = if typed_caret { Seq::empty() } else { "^"@ };
            assert(new_text@ =~= space + caret + v@);
        }
        out.push(
            CompletionItem {
                label: string_of(label.as_slice()),
                label_description: if first {
                    Some(copy_str("latest"))
                } else {
                    None
                },
                kind: Some(CompletionItemKind::Value),
                sort_text: Some(string_of(zero_padded5(i).as_slice())),
                filter_text: Some(string_of(label.as_slice())),
                preselect: if first {
                    Some(true)
                } else {
                    None
                },
                text_edit: TextEdit { range: replace_range, new_text: string_of(new_text.as_slice()) },
            },
        );
        i = i + 1;
    }
    out
}

/// Version completion items: `^<latest>` first (preselected, described as
/// `latest`), then up to 19 recent non-retracted versions, newest first.
pub fn version_items(info: &PackageInfo, prefix: &str, replace_range: Range, needs_space: bool) -> (r: Vec<
    CompletionItem,
>)
    ensures
        ({
            let vs = listed_versions(version_views(info.versions@), info.latest@);
            &&& r@.len() == vs.len()
            &&& forall|i: int|
                0 <= i < r@.len() ==> item_model(#[trigger] r@[i]) == version_item(
                    vs[i],
                    i as nat,
                    prefix@,
                    replace_range,
                    needs_space,
                )
        }),
{
    let latest = chars_of(info.latest.as_str());
    let ghost vv = version_views(info.versions@);
    let mut listed: Vec<Vec<char>> = Vec::new();
    listed.push(chars_of(info.latest.as_str()));
    let mut recent: usize = 0;
    let mut k = info.versions.len();
    let ghost mut got: Seq<Seq<char>> = Seq::empty();
    assert(vv.take(k as int) =~= vv);
    assert(got + recent_versions(vv, info.latest@) =~= recent_versions(vv, info.latest@));
    while k > 0 && recent < MAX_VERSION_ITEMS - 1
        invariant
            k <= info.versions@.len(),
            vv == version_views(info.versions@),
            latest@ == info.latest@,
            recent == got.len(),
            recent <= 19,
            listed@.len() == 1 + got.len(),
            listed@[0]@ == info.latest@,
            forall|j: int| 0 <= j < got.len() ==> #[trigger] listed@[j + 1]@ == got[j],
            got + recent_versions(vv.take(k as int), info.latest@) == recent_versions(
                vv,
                info.latest@,
            ),
        decreases k,
    {
        let e = &info.versions[k - 1];
        assert(vv.take(k as int).drop_last() =~= vv.take(k - 1));
        assert(vv.take(k as int).last() == (e.version@, e.retracted));
        let ev = chars_of(e.version.as_str());
        if !e.retracted && !chars_eq(ev.as_slice(), latest.as_slice()) {
            listed.push(ev);
            proof {
                let ng = got.push(e.version@);
                assert(ng + recent_versions(vv.take(k - 1), info.latest@) =~= got
                    + recent_versions(vv.take(k as int), info.latest@));
                got = ng;
            }
            recent = recent + 1;
        }
        k = k - 1;
    }
    proof {
        let rec = recent_versions(vv, info.latest@);
        let shown = listed_versions(vv, info.latest@);
        if k == 0 {
            assert(vv.take(0) =~= Seq::<(Seq<char>, bool)>::empty());
            assert(got =~= rec);
        } else {
            assert(got =~= rec.take(19));
        }
        assert forall|j: int| 0 <= j < listed@.len() implies #[trigger] listed@[j]@ == shown[j] by {
            if j > 0 {
                assert(listed@[(j - 1) + 1]@ == got[j - 1]);
            }
        }
    }
    items_for_versions(&listed, prefix, replace_range, needs_space)
}

// ---------------------------------------------------------------------------
// Laws
// ---------------------------------------------------------------------------

proof fn lemma_filter_state(names: Seq<Seq<char>>, needle: Seq<char>)
    ensures
        forall|i: int|
            0 <= i < filter_state(names, needle).0.len() ==> has_prefix(
                #[trigger] filter_state(names, needle).0[i],
                needle,
            ),
        forall|i: int|
            0 <= i < filter_state(names, needle).1.len() ==> !has_prefix(
                #[trigger] filter_state(names, needle).1[i],
                needle,
            ) && has_infix(filter_state(names, needle).1[i], needle),
    decreases names.len(),
{
    if names.len() > 0 {
        lemma_filter_state(names.drop_last(), needle);
        let p = filter_state(names.drop_last(), needle);
        let q = filter_state(names, needle);
        assert forall|i: int| 0 <= i < q.0.len() implies has_prefix(#[trigger] q.0[i], needle) by {
            if i < p.0.len() {
                assert(q.0[i] == p.0[i]);
            }
        }
        assert forall|i: int| 0 <= i < q.1.len() implies !has_prefix(#[trigger] q.1[i], needle)
            && has_infix(q.1[i], needle) by {
            if i < p.1.len() {
                assert(q.1[i] == p.1[i]);
            }
        }
    }
}

/// Name completion lists prefix matches before substring matches: every
/// offered name starts with or contains the lowercased prefix, a name that
/// starts with it never comes after one that only contains it, and at most
/// 50 names are offered.
pub proof fn law_prefix_matches_first(names: Seq<Seq<char>>, prefix: Seq<char>)
    ensures
        filtered_names(names, prefix).len() <= 50,
        forall|i: int|
            0 <= i < filtered_names(names, prefix).len() ==> has_prefix(
                #[trigger] filtered_names(names, prefix)[i],
                lower_ascii(prefix),
            ) || has_infix(filtered_names(names, prefix)[i], lower_ascii(prefix)),
        forall|i: int, j: int|
            0 <= i < j < filtered_names(names, prefix).len() && has_prefix(
                #[trigger] filtered_names(names, prefix)[j],
                lower_ascii(prefix),
            ) ==> has_prefix(#[trigger] filtered_names(names, prefix)[i], lower_ascii(prefix)),
{
    let needle = lower_ascii(prefix);
    lemma_filter_state(names, needle);
    let st = filter_state(names, needle);
    let all = st.0 + st.1;
    let r = filtered_names(names, prefix);
    assert forall|i: int| 0 <= i < r.len() implies has_prefix(#[trigger] r[i], needle) || has_infix(
        r[i],
        needle,
    ) by {
        assert(r[i] == all[i]);
        if i >= st.0.len() {
            assert(all[i] == st.1[i - st.0.len()]);
        }
    }
    assert forall|i: int, j: int|
        0 <= i < j < r.len() && has_prefix(#[trigger] r[j], needle) implies has_prefix(
        #[trigger] r[i],
        needle,
    ) by {
        assert(r[j] == all[j]);
        assert(r[i] == all[i]);
        if j >= st.0.len() {
            assert(all[j] == st.1[j - st.0.len()]);
        }
    }
}

proof fn lemma_recent_versions(vs: Seq<(Seq<char>, bool)>, latest: Seq<char>)
    ensures
        forall|i: int|
            0 <= i < recent_versions(vs, latest).len() ==> #[trigger] recent_versions(vs, latest)[i]
                != latest && vs.contains((recent_versions(vs, latest)[i], false)),
    decreases vs.len(),
{
    if vs.len() > 0 {
        lemma_recent_versions(vs.drop_last(), latest);
        let p = recent_versions(vs.drop_last(), latest);
        let q = recent_versions(vs, latest);
        let x = vs.last();
        assert forall|i: int| 0 <= i < q.len() implies #[trigger] q[i] != latest && vs.contains(
            (q[i], false),
        ) by {
            if !x.1 && x.0 != latest {
                if i == 0 {
                    assert(vs[vs.len() - 1] == (q[0], false));
                } else {
                    assert(q[i] == p[i - 1]);
                    let j = choose|j: int| 0 <= j < vs.drop_last().len() && vs.drop_last()[j] == (
                        p[i - 1],
                        false,
                    );
                    assert(vs[j] == vs.drop_last()[j]);
                }
            } else {
                assert(q[i] == p[i]);
                let j = choose|j: int| 0 <= j < vs.drop_last().len() && vs.drop_last()[j] == (
                    p[i],
                    false,
                );
                assert(vs[j] == vs.drop_last()[j]);
            }
        }
    }
}

/// Version completion offers the latest version first and at most twenty
/// versions; every other one is a published, non-retracted version other
/// than the latest.
pub proof fn law_versions_offered(vs: Seq<(Seq<char>, bool)>, latest: Seq<char>)
    ensures
        listed_versions(vs, latest).len() <= 20,
        listed_versions(vs, latest)[0] == latest,
        forall|i: int|
            1 <= i < listed_versions(vs, latest).len() ==> #[trigger] listed_versions(vs, latest)[i]
                != latest && vs.contains((listed_versions(vs, latest)[i], false)),
{
    lemma_recent_versions(vs, latest);
    let rec = recent_versions(vs, latest);
    let l = listed_versions(vs, latest);
    assert forall|i: int| 1 <= i < l.len() implies #[trigger] l[i] != latest && vs.contains(
        (l[i], false),
    ) by {
        assert(l[i] == rec[i - 1]);
    }
}


/// The names of a list that start with `needle`, in list order.
pub open spec fn prefix_matches(names: Seq<Seq<char>>, needle: Seq<char>) -> Seq<Seq<char>>
    decreases names.len(),
{
    if names.len() == 0 {
        Seq::empty()
    } else if has_prefix(names.last(), needle) {
        prefix_matches(names.drop_last(), needle).push(names.last())
    } else {
        prefix_matches(names.drop_last(), needle)
    }
}

proof fn lemma_prefix_state(names: Seq<Seq<char>>, needle: Seq<char>)
    ensures
        ({
            let pm = prefix_matches(names, needle);
            filter_state(names, needle).0 == pm.take(if pm.len() <= 50 { pm.len() as int } else { 50 })
        }),
    decreases names.len(),
{
    if names.len() > 0 {
        let d = names.drop_last();
        lemma_prefix_state(d, needle);
        let pm = prefix_matches(names, needle);
        let pd = prefix_matches(d, needle);
        if pd.len() >= 50 {
            assert(pm.take(50) =~= pd.take(50));
        } else {
            assert(pd.take(pd.len() as int) =~= pd);
            assert(pm.take(pm.len() as int) =~= pm);
        }
    }
}

proof fn lemma_prefix_matches_take(names: Seq<Seq<char>>, needle: Seq<char>, i: int)
    requires
        0 <= i <= names.len(),
    ensures
        prefix_matches(names, needle).len() >= prefix_matches(names.take(i), needle).len(),
        forall|j: int|
            0 <= j < prefix_matches(names.take(i), needle).len() ==> prefix_matches(names, needle)[j]
                == #[trigger] prefix_matches(names.take(i), needle)[j],
    decreases names.len() - i,
{
    if i < names.len() {
        lemma_prefix_matches_take(names, needle, i + 1);
        assert(names.take(i + 1).drop_last() =~= names.take(i));
        let a = prefix_matches(names.take(i), needle);
        let b = prefix_matches(names.take(i + 1), needle);
        let pm = prefix_matches(names, needle);
        assert forall|j: int| 0 <= j < a.len() implies pm[j] == #[trigger] a[j] by {
            assert(b[j] == a[j]);
            assert(pm[j] == b[j]);
        }
    } else {
        assert(names.take(i) =~= names);
    }
}

/// Every name that starts with the typed prefix is offered while fewer than
/// 50 names before it do: the name that starts with the (lowercased) prefix
/// at index `i` of the list is offered at the position given by the number
/// of such names before it, unless 50 of them come first.
pub proof fn law_prefix_matches_offered(names: Seq<Seq<char>>, prefix: Seq<char>, i: int)
    requires
        0 <= i < names.len(),
        has_prefix(names[i], lower_ascii(prefix)),
        prefix_matches(names.take(i), lower_ascii(prefix)).len() < 50,
    ensures
        ({
            let n = prefix_matches(names.take(i), lower_ascii(prefix)).len() as int;
            &&& n < filtered_names(names, prefix).len()
            &&& filtered_names(names, prefix)[n] == names[i]
        }),
{
    let needle = lower_ascii(prefix);
    let n = prefix_matches(names.take(i), needle).len() as int;
    lemma_prefix_matches_take(names, needle, i + 1);
    assert(names.take(i + 1).drop_last() =~= names.take(i));
    assert(names.take(i + 1).last() == names[i]);
    let pm = prefix_matches(names, needle);
    assert(prefix_matches(names.take(i + 1), needle)[n] == names[i]);
    assert(pm[n] == names[i]);
    lemma_prefix_state(names, needle);
    let st = filter_state(names, needle);
    assert(st.0[n] == names[i]);
    let all = st.0 + st.1;
    assert(all[n] == names[i]);
}

/// What a version item inserts: its label (`^` and the version) without
/// the caret when the typed prefix already starts with one, after a space
/// when the value needs one. The same for every rank.
pub proof fn law_version_item_inserts_label(
    v: Seq<char>,
    i: nat,
    prefix: Seq<char>,
    range: Range,
    needs_space: bool,
)
    ensures
        ({
            let m = version_item(v, i, prefix, range, needs_space);
            let sp = if needs_space { " "@ } else { Seq::<char>::empty() };
            &&& m.label.len() > 0 && m.label[0] == '^'
            &&& m.label.skip(1) == v
            &&& m.new_text == sp + if starts_with_char(trim_start(prefix), '^') {
                m.label.skip(1)
            } else {
                m.label
            }
            &&& m.range == range
        }),
{
    reveal_strlit("^");
    reveal_strlit(" ");
    let m = version_item(v, i, prefix, range, needs_space);
    assert(m.label.skip(1) =~= v);
}

} // verus!
