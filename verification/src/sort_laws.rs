//! Laws of the section sort that span more than one call: the blocks it
//! moves are the blocks it found, entry names are package names, and a
//! sorted section is left alone when sorted again.
use vstd::prelude::*;

use crate::sort_section::{
    entry_name, extend_last, flatten, header_search, insert_pos, is_comment_or_blank,
    is_entry_key_line_spec, is_section_key, is_top_level, keys_sorted, law_sort_orders_keys,
    law_sort_reorders_lines, law_split_preserves_body, lemma_flatten_add, lemma_header_search,
    lemma_insert_pos_bounds, lemma_last_blank, lemma_next_top, last_blank, lex_le, names,
    next_top, section_bounds, sort_blocks, sort_key, sort_plan, split_body, split_step,
    BlockModel, SplitState, lemma_first_from_shift, lemma_plan_bounds,
};
use crate::text::{
    before_first, first_from, in_class, is_package_char_spec, lemma_first_from, trim, trim_end,
    trim_start, CharClass, lemma_last_before, last_before, join, lines, lines_from, strip_cr,
    lemma_first_from_unique,
};

verus! {

broadcast use vstd::seq::group_seq_axioms;

/// The names of the key lines of `body`, in order.
pub open spec fn key_names(body: Seq<Seq<char>>) -> Seq<Seq<char>>
    decreases body.len(),
{
    if body.len() == 0 {
        Seq::empty()
    } else {
        let r = key_names(body.drop_last());
        if is_entry_key_line_spec(body.last()) {
            r.push(entry_name(body.last()))
        } else {
            r
        }
    }
}

pub proof fn lemma_key_names_add(a: Seq<Seq<char>>, b: Seq<Seq<char>>)
    ensures
        key_names(a + b) == key_names(a) + key_names(b),
    decreases b.len(),
{
    if b.len() == 0 {
        assert(a + b =~= a);
        assert(key_names(a) + key_names(b) =~= key_names(a));
    } else {
        assert((a + b).drop_last() =~= a + b.drop_last());
        lemma_key_names_add(a, b.drop_last());
        if is_entry_key_line_spec(b.last()) {
            assert(key_names(a) + key_names(b) =~= (key_names(a) + key_names(b.drop_last())).push(
                entry_name(b.last()),
            ));
        }
    }
}

/// Comment or blank lines that are not key lines.
pub open spec fn all_held(ls: Seq<Seq<char>>) -> bool {
    forall|i: int|
        0 <= i < ls.len() ==> is_comment_or_blank(#[trigger] ls[i]) && !is_entry_key_line_spec(ls[i])
}

/// Every line that is neither a comment, a blank nor a key line has a key
/// line before it.
pub open spec fn guarded(ls: Seq<Seq<char>>) -> bool {
    forall|i: int|
        0 <= i < ls.len() && !is_comment_or_blank(#[trigger] ls[i]) && !is_entry_key_line_spec(ls[i])
            ==> key_names(ls.take(i)).len() > 0
}

/// A block has exactly one key line, its own, and nothing stray before it.
pub open spec fn block_wf(b: BlockModel) -> bool {
    key_names(b.lines) == seq![b.name] && guarded(b.lines)
}

pub open spec fn state_wf(st: SplitState) -> bool {
    &&& all_held(st.prefix)
    &&& all_held(st.pending)
    &&& forall|k: int| 0 <= k < st.blocks.len() ==> block_wf(#[trigger] st.blocks[k])
}

proof fn lemma_key_names_held(ls: Seq<Seq<char>>)
    requires
        all_held(ls),
    ensures
        key_names(ls) == Seq::<Seq<char>>::empty(),
    decreases ls.len(),
{
    if ls.len() > 0 {
        assert(all_held(ls.drop_last())) by {
            assert forall|i: int| 0 <= i < ls.drop_last().len() implies is_comment_or_blank(
                #[trigger] ls.drop_last()[i],
            ) && !is_entry_key_line_spec(ls.drop_last()[i]) by {
                assert(ls.drop_last()[i] == ls[i]);
            }
        }
        lemma_key_names_held(ls.drop_last());
    }
}

proof fn lemma_held_guarded(ls: Seq<Seq<char>>)
    requires
        all_held(ls),
    ensures
        guarded(ls),
{
}

/// Guarded sequences compose: a guarded tail after a part with a key line
/// need not be guarded itself.
proof fn lemma_guarded_add(a: Seq<Seq<char>>, b: Seq<Seq<char>>)
    requires
        guarded(a),
        key_names(a).len() > 0 || guarded(b),
    ensures
        guarded(a + b),
{
    let ab = a + b;
    assert forall|i: int|
        0 <= i < ab.len() && !is_comment_or_blank(#[trigger] ab[i]) && !is_entry_key_line_spec(ab[i])
            implies key_names(ab.take(i)).len() > 0 by {
        if i < a.len() {
            assert(ab.take(i) =~= a.take(i));
            assert(ab[i] == a[i]);
        } else {
            assert(ab.take(i) =~= a + b.take(i - a.len()));
            lemma_key_names_add(a, b.take(i - a.len()));
            if key_names(a).len() == 0 {
                assert(ab[i] == b[i - a.len()]);
            }
        }
    }
}

proof fn lemma_all_held_add(a: Seq<Seq<char>>, b: Seq<Seq<char>>)
    requires
        all_held(a),
        all_held(b),
    ensures
        all_held(a + b),
{
    assert forall|i: int| 0 <= i < (a + b).len() implies is_comment_or_blank(#[trigger] (a + b)[i])
        && !is_entry_key_line_spec((a + b)[i]) by {
        if i < a.len() {
            assert((a + b)[i] == a[i]);
        } else {
            assert((a + b)[i] == b[i - a.len()]);
        }
    }
}

proof fn lemma_extend_last_wf(bs: Seq<BlockModel>, x: Seq<Seq<char>>)
    requires
        bs.len() > 0,
        forall|k: int| 0 <= k < bs.len() ==> block_wf(#[trigger] bs[k]),
        key_names(x) == Seq::<Seq<char>>::empty(),
        guarded(x) || key_names(bs.last().lines).len() > 0,
    ensures
        forall|k: int| 0 <= k < extend_last(bs, x).len() ==> block_wf(#[trigger] extend_last(bs, x)[k]),
        names(extend_last(bs, x)) == names(bs),
        extend_last(bs, x).len() == bs.len(),
{
    let b = bs.last();
    assert(block_wf(bs[bs.len() - 1]));
    lemma_key_names_add(b.lines, x);
    assert(key_names(b.lines + x) =~= seq![b.name]);
    lemma_guarded_add(b.lines, x);
    assert(names(extend_last(bs, x)) =~= names(bs));
}

/// The split keeps its state well formed and names its blocks after the key
/// lines it has seen.
pub proof fn lemma_split_wf(body: Seq<Seq<char>>)
    ensures
        split_body(body) matches Some(st) ==> state_wf(st) && names(st.blocks) == key_names(body),
    decreases body.len(),
{
    if body.len() > 0 {
        lemma_split_wf(body.drop_last());
        if let Some(st) = split_body(body.drop_last()) {
            let line = body.last();
            if let Some(st2) = split_step(st, line) {
                if is_entry_key_line_spec(line) {
                    let cut = last_blank(st.pending) + 1;
                    lemma_last_blank(st.pending);
                    let held = st.pending.take(cut);
                    let attached = st.pending.skip(cut);
                    assert(all_held(held));
                    assert(all_held(attached));
                    lemma_key_names_held(held);
                    lemma_key_names_held(attached);
                    let block = BlockModel { name: entry_name(line), lines: attached.push(line) };
                    assert(attached.push(line).drop_last() =~= attached);
                    assert(key_names(attached.push(line)) =~= seq![entry_name(line)]);
                    assert(guarded(attached.push(line))) by {
                        let l2 = attached.push(line);
                        assert forall|i: int|
                            0 <= i < l2.len() && !is_comment_or_blank(#[trigger] l2[i])
                                && !is_entry_key_line_spec(l2[i]) implies key_names(l2.take(i)).len()
                            > 0 by {
                            if i < attached.len() {
                                assert(l2[i] == attached[i]);
                            }
                        }
                    }
                    assert(block_wf(block));
                    if st.blocks.len() > 0 {
                        lemma_extend_last_wf(st.blocks, held);
                        let eb = extend_last(st.blocks, held);
                        assert forall|k: int| 0 <= k < st2.blocks.len() implies block_wf(
                            #[trigger] st2.blocks[k],
                        ) by {
                            if k < eb.len() {
                                assert(st2.blocks[k] == eb[k]);
                            }
                        }
                        assert(names(st2.blocks) =~= names(eb).push(entry_name(line)));
                    } else {
                        lemma_all_held_add(st.prefix, held);
                        assert(names(st2.blocks) =~= names(st.blocks).push(entry_name(line)));
                    }
                    assert(st2.pending.len() == 0);
                } else if is_comment_or_blank(line) {
                    assert(all_held(st2.pending)) by {
                        assert forall|i: int| 0 <= i < st2.pending.len() implies is_comment_or_blank(
                            #[trigger] st2.pending[i],
                        ) && !is_entry_key_line_spec(st2.pending[i]) by {
                            if i < st.pending.len() {
                                assert(st2.pending[i] == st.pending[i]);
                            }
                        }
                    }
                } else {
                    let x = st.pending.push(line);
                    lemma_key_names_held(st.pending);
                    assert(x.drop_last() =~= st.pending);
                    assert(key_names(x) =~= Seq::<Seq<char>>::empty());
                    assert(block_wf(st.blocks[st.blocks.len() - 1]));
                    lemma_extend_last_wf(st.blocks, x);
                    assert(st2.pending.len() == 0);
                }
            }
        }
    }
}

/// A guarded body always splits.
pub proof fn lemma_split_guarded(body: Seq<Seq<char>>)
    requires
        guarded(body),
    ensures
        split_body(body) is Some,
    decreases body.len(),
{
    if body.len() > 0 {
        let d = body.drop_last();
        assert(guarded(d)) by {
            assert forall|i: int|
                0 <= i < d.len() && !is_comment_or_blank(#[trigger] d[i]) && !is_entry_key_line_spec(d[i])
                    implies key_names(d.take(i)).len() > 0 by {
                assert(d[i] == body[i]);
                assert(d.take(i) =~= body.take(i));
            }
        }
        lemma_split_guarded(d);
        lemma_split_wf(d);
        let line = body.last();
        if !is_entry_key_line_spec(line) && !is_comment_or_blank(line) {
            assert(body.take(body.len() - 1) =~= d);
            assert(body[body.len() - 1] == line);
        }
    }
}

proof fn lemma_flatten_wf(bs: Seq<BlockModel>)
    requires
        forall|k: int| 0 <= k < bs.len() ==> block_wf(#[trigger] bs[k]),
    ensures
        key_names(flatten(bs)) == names(bs),
        guarded(flatten(bs)),
    decreases bs.len(),
{
    if bs.len() > 0 {
        let d = bs.drop_last();
        assert forall|k: int| 0 <= k < d.len() implies block_wf(#[trigger] d[k]) by {
            assert(d[k] == bs[k]);
        }
        lemma_flatten_wf(d);
        let last = bs.last();
        assert(block_wf(bs[bs.len() - 1]));
        lemma_key_names_add(flatten(d), last.lines);
        assert(names(bs) =~= names(d).push(last.name));
        assert(key_names(flatten(d)) + seq![last.name] =~= names(d).push(last.name));
        lemma_guarded_add(flatten(d), last.lines);
    } else {
        assert(key_names(flatten(bs)) =~= names(bs));
    }
}

proof fn lemma_sort_multiset(bs: Seq<BlockModel>)
    ensures
        sort_blocks(bs).to_multiset() == bs.to_multiset(),
    decreases bs.len(),
{
    broadcast use vstd::seq_lib::to_multiset_insert, vstd::seq_lib::to_multiset_build;

    if bs.len() > 0 {
        lemma_sort_multiset(bs.drop_last());
        let s = sort_blocks(bs.drop_last());
        lemma_insert_pos_bounds(s, bs.last());
        assert(bs =~= bs.drop_last().push(bs.last()));
        let x = bs.last();
        let p = insert_pos(s, x);
        vstd::seq_lib::to_multiset_build(bs.drop_last(), x);
        vstd::seq_lib::to_multiset_insert(s, p, x);
        assert(sort_blocks(bs) == s.insert(p, x));
        assert(s.insert(p, x).to_multiset() =~= s.to_multiset().insert(x));
        assert(bs.to_multiset() =~= bs.drop_last().to_multiset().insert(x));
        assert(sort_blocks(bs).to_multiset() =~= bs.to_multiset());
    } else {
        assert(bs =~= Seq::<BlockModel>::empty());
        assert(sort_blocks(bs) =~= bs);
    }
}

/// The sorted section is made of the blocks that were found: the same
/// blocks, each with its lines, as a multiset.
pub proof fn law_sort_moves_whole_blocks(bs: Seq<BlockModel>)
    ensures
        sort_blocks(bs).to_multiset() == bs.to_multiset(),
{
    lemma_sort_multiset(bs);
}

proof fn lemma_sorted_elements_wf(bs: Seq<BlockModel>)
    requires
        forall|k: int| 0 <= k < bs.len() ==> block_wf(#[trigger] bs[k]),
    ensures
        forall|k: int| 0 <= k < sort_blocks(bs).len() ==> block_wf(#[trigger] sort_blocks(bs)[k]),
{
    broadcast use vstd::seq_lib::to_multiset_contains;

    lemma_sort_multiset(bs);
    let s = sort_blocks(bs);
    assert forall|k: int| 0 <= k < s.len() implies block_wf(#[trigger] s[k]) by {
        assert(s.contains(s[k]));
        assert(s.to_multiset().count(s[k]) > 0);
        assert(bs.to_multiset().count(s[k]) > 0);
        assert(bs.contains(s[k]));
        let j = choose|j: int| 0 <= j < bs.len() && bs[j] == s[k];
        assert(block_wf(bs[j]));
    }
}

/// Blocks whose keys are in order are left as they are.
proof fn lemma_sort_sorted_identity(bs: Seq<BlockModel>)
    requires
        keys_sorted(bs),
    ensures
        sort_blocks(bs) == bs,
    decreases bs.len(),
{
    if bs.len() > 0 {
        let d = bs.drop_last();
        assert(keys_sorted(d)) by {
            assert forall|i: int, j: int| 0 <= i < j < d.len() implies lex_le(
                sort_key(#[trigger] d[i]),
                sort_key(#[trigger] d[j]),
            ) by {
                assert(d[i] == bs[i] && d[j] == bs[j]);
            }
        }
        lemma_sort_sorted_identity(d);
        if d.len() > 0 {
            assert(lex_le(sort_key(bs[d.len() - 1]), sort_key(bs[bs.len() - 1])));
        }
        assert(d.insert(d.len() as int, bs.last()) =~= bs);
    }
}

proof fn lemma_header_unique(ls: Seq<Seq<char>>, h: int, c: int)
    requires
        0 <= h <= c < ls.len(),
        is_top_level(ls[h]),
        forall|j: int| h < j <= c ==> !is_top_level(#[trigger] ls[j]),
    ensures
        header_search(ls, c) == h,
    decreases c - h,
{
    if c > h {
        lemma_header_unique(ls, h, c - 1);
    }
}

proof fn lemma_next_top_unique(ls: Seq<Seq<char>>, j: int, e: int)
    requires
        0 <= j <= e <= ls.len(),
        forall|k: int| j <= k < e ==> !is_top_level(#[trigger] ls[k]),
        e < ls.len() ==> is_top_level(ls[e]),
    ensures
        next_top(ls, j) == e,
    decreases e - j,
{
    if j < e {
        lemma_next_top_unique(ls, j + 1, e);
    }
}

/// Sorting is idempotent: once a section has been sorted, sorting it again
/// with the same cursor offers no edit.
pub proof fn law_sort_idempotent(ls: Seq<Seq<char>>, cursor: int)
    requires
        ls.len() > 0,
        cursor >= 0,
        sort_plan(ls, cursor) is Some,
    ensures
        ({
            let (s, e, nl) = sort_plan(ls, cursor).unwrap();
            sort_plan(ls.take(s) + nl + ls.skip(e), cursor) is None
        }),
{
    broadcast use vstd::seq_lib::to_multiset_contains, vstd::seq_lib::to_multiset_len;

    let (s, e, nl) = sort_plan(ls, cursor).unwrap();
    let c = if cursor < ls.len() - 1 { cursor } else { ls.len() - 1 };
    let h = header_search(ls, c);
    lemma_header_search(ls, c);
    lemma_next_top(ls, h + 1);
    assert(s == h + 1);
    assert(e == next_top(ls, h + 1));
    let body = ls.subrange(s, e);
    let st = split_body(body).unwrap();
    let sorted = sort_blocks(st.blocks);
    law_sort_reorders_lines(ls, cursor);
    vstd::seq_lib::to_multiset_len(nl);
    vstd::seq_lib::to_multiset_len(body);
    assert(nl.len() == body.len());
    // The new body holds no top-level line.
    assert forall|i: int| 0 <= i < nl.len() implies !is_top_level(#[trigger] nl[i]) by {
        assert(nl.contains(nl[i]));
        assert(nl.to_multiset().count(nl[i]) > 0);
        assert(body.contains(nl[i]));
        let j = choose|j: int| 0 <= j < body.len() && body[j] == nl[i];
        assert(body[j] == ls[s + j]);
    }
    let ls2 = ls.take(s) + nl + ls.skip(e);
    assert(ls2.len() == ls.len());
    assert forall|k: int| 0 <= k < s implies #[trigger] ls2[k] == ls[k] by {}
    assert forall|k: int| e <= k < ls.len() implies #[trigger] ls2[k] == ls[k] by {
        assert(ls2[k] == ls.skip(e)[k - e]);
    }
    assert forall|k: int| s <= k < e implies #[trigger] ls2[k] == nl[k - s] by {}
    // The cursor's line lies in [h, e).
    if c >= e {
        assert(e < ls.len());
        assert(is_top_level(ls[e]));
        assert(false);
    }
    assert forall|j: int| h < j <= c implies !is_top_level(#[trigger] ls2[j]) by {
        assert(ls2[j] == nl[j - s]);
    }
    assert(ls2[h] == ls[h]);
    lemma_header_unique(ls2, h, c);
    assert forall|k: int| h + 1 <= k < e implies !is_top_level(#[trigger] ls2[k]) by {
        assert(ls2[k] == nl[k - s]);
    }
    if e < ls.len() {
        assert(ls2[e] == ls[e]);
    }
    lemma_next_top_unique(ls2, h + 1, e);
    assert(section_bounds(ls2, cursor) == Some((s, e)));
    let body2 = ls2.subrange(s, e);
    assert(body2 =~= nl);
    // The new body splits into blocks named like the sorted ones.
    law_split_preserves_body(body);
    lemma_split_wf(body);
    lemma_sorted_elements_wf(st.blocks);
    lemma_flatten_wf(sorted);
    lemma_key_names_held(st.prefix);
    lemma_key_names_held(st.pending);
    lemma_held_guarded(st.prefix);
    lemma_held_guarded(st.pending);
    lemma_guarded_add(st.prefix, flatten(sorted));
    lemma_guarded_add(st.prefix + flatten(sorted), st.pending);
    assert(nl == st.prefix + flatten(sorted) + st.pending);
    lemma_split_guarded(nl);
    lemma_split_wf(nl);
    let st2 = split_body(nl).unwrap();
    lemma_key_names_add(st.prefix, flatten(sorted));
    lemma_key_names_add(st.prefix + flatten(sorted), st.pending);
    assert(names(st2.blocks) =~= names(sorted));
    // Its keys are already in order, so sorting keeps the names.
    law_sort_orders_keys(st.blocks);
    assert(keys_sorted(st2.blocks)) by {
        assert forall|i: int, j: int| 0 <= i < j < st2.blocks.len() implies lex_le(
            sort_key(#[trigger] st2.blocks[i]),
            sort_key(#[trigger] st2.blocks[j]),
        ) by {
            assert(names(st2.blocks)[i] == names(sorted)[i]);
            assert(names(st2.blocks)[j] == names(sorted)[j]);
            assert(sorted[i].name == st2.blocks[i].name);
            assert(sorted[j].name == st2.blocks[j].name);
            assert(lex_le(sort_key(sorted[i]), sort_key(sorted[j])));
        }
    }
    lemma_sort_sorted_identity(st2.blocks);
}

/// Entry names are package names: ASCII letters, digits and `_`, so the
/// lowercase sort key is exactly `str::to_lowercase`.
pub proof fn lemma_entry_name_ascii(l: Seq<char>)
    requires
        is_entry_key_line_spec(l),
    ensures
        entry_name(l).len() > 0,
        forall|i: int| 0 <= i < entry_name(l).len() ==> is_package_char_spec(#[trigger] entry_name(l)[i]),
{
    let f = first_from(l, 0, CharClass::NotSpace);
    lemma_first_from(l, 0, CharClass::NotSpace);
    let k = first_from(l, f, CharClass::NotPackageChar);
    lemma_first_from(l, f, CharClass::NotPackageChar);
    // The indent is spaces and the key starts with a package character, so
    // the indent is exactly the leading whitespace.
    assert(!in_class(CharClass::NotPackageChar, l[f]));
    crate::text::lemma_first_from_unique(l, 0, f, CharClass::NotWhitespace);
    let ts = trim_start(l);
    assert(ts == l.skip(f));
    // The trimmed line starts with the key and its colon.
    let t = trim(l);
    let b = last_before(ts, ts.len() as int, CharClass::NotWhitespace);
    lemma_last_before(ts, ts.len() as int, CharClass::NotWhitespace);
    assert(ts[k - f] == ':');
    assert(in_class(CharClass::NotWhitespace, ts[k - f]));
    assert(b >= k - f);
    assert(t == ts.take(b + 1));
    assert forall|j: int| 0 <= j < k - f implies !in_class(CharClass::Colon, #[trigger] t[j]) by {
        assert(t[j] == l[f + j]);
        assert(!in_class(CharClass::NotPackageChar, l[f + j]));
    }
    crate::text::lemma_first_from_unique(t, 0, k - f, CharClass::Colon);
    assert(entry_name(l) == t.take(k - f));
    assert forall|i: int| 0 <= i < entry_name(l).len() implies is_package_char_spec(
        #[trigger] entry_name(l)[i],
    ) by {
        assert(entry_name(l)[i] == l[f + i]);
        assert(!in_class(CharClass::NotPackageChar, l[f + i]));
    }
}


/// The pieces of `s` from index `k` between its `'\n'` separators
/// (`str::split('\n')`).
pub open spec fn split_from(s: Seq<char>, k: int) -> Seq<Seq<char>>
    decreases s.len() - k,
{
    if k < 0 || k > s.len() {
        Seq::empty()
    } else {
        let e = first_from(s, k, CharClass::Newline);
        if e >= s.len() || e < k {
            seq![s.subrange(k, s.len() as int)]
        } else {
            seq![s.subrange(k, e)] + split_from(s, e + 1)
        }
    }
}

/// The lines of a text separated by `'\n'`, each kept whole.
pub open spec fn split_newlines(s: Seq<char>) -> Seq<Seq<char>> {
    split_from(s, 0)
}

pub open spec fn no_newline(s: Seq<char>) -> bool {
    forall|j: int| 0 <= j < s.len() ==> #[trigger] s[j] != '\n'
}

proof fn lemma_split_append(a: Seq<char>, b: Seq<char>, k: int)
    requires
        0 <= k <= a.len(),
        no_newline(b),
    ensures
        split_from(a.push('\n') + b, k) == split_from(a, k) + seq![b],
    decreases a.len() - k,
{
    let u = a.push('\n') + b;
    lemma_first_from(a, k, CharClass::Newline);
    let e = first_from(a, k, CharClass::Newline);
    assert forall|j: int| k <= j < e implies !in_class(CharClass::Newline, #[trigger] u[j]) by {
        assert(u[j] == a[j]);
    }
    if e < a.len() {
        assert(u[e] == a[e]);
        lemma_first_from_unique(u, k, e, CharClass::Newline);
        lemma_split_append(a, b, e + 1);
        assert(u.subrange(k, e) =~= a.subrange(k, e));
        assert(split_from(u, k) =~= seq![a.subrange(k, e)] + split_from(a, e + 1) + seq![b]);
    } else {
        assert(u[a.len() as int] == '\n');
        lemma_first_from_unique(u, k, a.len() as int, CharClass::Newline);
        let m: int = a.len() as int + 1;
        assert forall|j: int| m <= j < u.len() implies !in_class(CharClass::Newline, #[trigger] u[j]) by {
            assert(u[j] == b[j - m]);
        }
        lemma_first_from_unique(u, m, u.len() as int, CharClass::Newline);
        assert(u.subrange(m, u.len() as int) =~= b);
        assert(split_from(u, m) == seq![b]);
        assert(split_from(a, k) == seq![a.subrange(k, a.len() as int)]);
        assert(u.subrange(k, a.len() as int) =~= a.subrange(k, a.len() as int));
        assert(split_from(u, k) == seq![u.subrange(k, a.len() as int)] + split_from(u, m));
        assert(split_from(u, k) =~= split_from(a, k) + seq![b]);
    }
}

/// Splitting a join at its separators gives the parts back, when no part
/// holds a separator.
pub proof fn lemma_split_join(parts: Seq<Seq<char>>)
    requires
        parts.len() > 0,
        forall|i: int| 0 <= i < parts.len() ==> no_newline(#[trigger] parts[i]),
    ensures
        split_newlines(join(parts, '\n')) == parts,
    decreases parts.len(),
{
    if parts.len() == 1 {
        let p = parts[0];
        assert(no_newline(p));
        lemma_first_from_unique(p, 0, p.len() as int, CharClass::Newline);
        assert(p.subrange(0, p.len() as int) =~= p);
        assert(split_newlines(join(parts, '\n')) =~= parts);
    } else {
        let d = parts.drop_last();
        assert forall|i: int| 0 <= i < d.len() implies no_newline(#[trigger] d[i]) by {
            assert(d[i] == parts[i]);
        }
        lemma_split_join(d);
        assert(no_newline(parts[parts.len() - 1]));
        lemma_split_append(join(d, '\n'), parts.last(), 0);
        assert(split_newlines(join(parts, '\n')) =~= parts);
    }
}

/// No line of a text holds a `'\n'`.
proof fn lemma_lines_no_newline(s: Seq<char>, k: int)
    ensures
        forall|i: int| 0 <= i < lines_from(s, k).len() ==> no_newline(#[trigger] lines_from(s, k)[i]),
    decreases s.len() - k,
{
    if 0 <= k < s.len() {
        let e = first_from(s, k, CharClass::Newline);
        lemma_first_from(s, k, CharClass::Newline);
        if e >= s.len() {
            let x = s.subrange(k, s.len() as int);
            assert forall|j: int| 0 <= j < x.len() implies #[trigger] x[j] != '\n' by {
                assert(x[j] == s[k + j]);
            }
        } else if e >= k {
            lemma_lines_no_newline(s, e + 1);
            let x = s.subrange(k, e);
            assert forall|j: int| 0 <= j < strip_cr(x).len() implies #[trigger] strip_cr(x)[j] != '\n' by {
                assert(strip_cr(x)[j] == x[j]);
                assert(x[j] == s[k + j]);
            }
            let ls = lines_from(s, k);
            assert forall|i: int| 0 <= i < ls.len() implies no_newline(#[trigger] ls[i]) by {
                if i > 0 {
                    assert(ls[i] == lines_from(s, e + 1)[i - 1]);
                }
            }
        }
    }
}

/// What the text looks like once the edit of a sort is applied: its lines
/// are those before the section's body, the lines of the edit's new text,
/// then those after the body.
pub open spec fn sort_edit_applied(text: Seq<char>, text2: Seq<char>, cursor: int) -> bool {
    match sort_plan(lines(text), cursor) {
        Some((s, e, nl)) => lines(text2) == lines(text).take(s) + split_newlines(join(nl, '\n'))
            + lines(text).skip(e),
        None => false,
    }
}

/// Sorting is idempotent on the text: once the edit that sorting a section
/// offers (the lines of its range replaced by its new text) has been
/// applied, sorting again with the same cursor offers no edit.
pub proof fn law_sort_edit_idempotent(text: Seq<char>, text2: Seq<char>, cursor: int)
    requires
        cursor >= 0,
        sort_edit_applied(text, text2, cursor),
    ensures
        sort_plan(lines(text2), cursor) is None,
{
    broadcast use vstd::seq_lib::to_multiset_contains;

    let ls = lines(text);
    if ls.len() == 0 {
        assert(header_search(ls, -1) == -1);
        assert(false);
    }
    let (s, e, nl) = sort_plan(ls, cursor).unwrap();
    lemma_plan_bounds(ls, cursor);
    law_sort_reorders_lines(ls, cursor);
    lemma_lines_no_newline(text, 0);
    let body = ls.subrange(s, e);
    assert forall|i: int| 0 <= i < nl.len() implies no_newline(#[trigger] nl[i]) by {
        let x = nl[i];
        assert(nl.contains(x));
        assert(nl.to_multiset().count(x) > 0);
        assert(body.to_multiset().count(x) > 0);
        assert(body.contains(x));
        let j = choose|j: int| 0 <= j < body.len() && body[j] == x;
        assert(body[j] == ls[s + j]);
    }
    vstd::seq_lib::to_multiset_len(nl);
    vstd::seq_lib::to_multiset_len(body);
    assert(nl.len() == e - s);
    lemma_split_join(nl);
    law_sort_idempotent(ls, cursor);
}

} // verus!
