//! "Sort dependencies alphabetically": reorders the entries of the dependency
//! section under the cursor, working on raw lines (YAML is never re-emitted).
//!
//! An entry block is its key line plus all following deeper-indented/blank
//! lines; contiguous comment lines directly above a key travel with it.
use vstd::prelude::*;

use crate::lsp::{Position, Range, TextEdit};
use crate::text::{
    before_first, chars_eq, in_class, chars_of, find_from, first_from, join,
    lemma_first_from, lemma_first_from_unique, lines, lower_ascii,
    prefix_before, push_all, slice_copy, split_lines, starts_with_char, string_of, text_fits,
    to_lower_ascii, trim, trim_end, trimmed, trimmed_end, utf16_count,
    utf16_prefix_len, CharClass,
};

verus! {

broadcast use {vstd::seq::group_seq_axioms, vstd::slice::group_slice_axioms};

/// The character views of a vector of lines.
pub open spec fn seqs(v: Seq<Vec<char>>) -> Seq<Seq<char>> {
    v.map_values(|l: Vec<char>| l@)
}

// ---------------------------------------------------------------------------
// Line classification
// ---------------------------------------------------------------------------

/// A top-level YAML line: not indented by a space and not blank.
pub open spec fn is_top_level(l: Seq<char>) -> bool {
    !starts_with_char(l, ' ') && trim(l).len() > 0
}

pub open spec fn is_blank(l: Seq<char>) -> bool {
    trim(l).len() == 0
}

/// A line that is blank or a `#` comment.
pub open spec fn is_comment_or_blank(l: Seq<char>) -> bool {
    is_blank(l) || starts_with_char(trim(l), '#')
}

/// The top-level keys that open a dependency section.
pub open spec fn is_section_key(k: Seq<char>) -> bool {
    k == "dependencies"@ || k == "dev_dependencies"@ || k == "dependency_overrides"@
}

/// A direct dependency key line: 1–3 spaces of indent, then a non-empty
/// name of `[A-Za-z0-9_]` and a `:`.
pub open spec fn is_entry_key_line_spec(l: Seq<char>) -> bool {
    let f = first_from(l, 0, CharClass::NotSpace);
    let k = first_from(l, f, CharClass::NotPackageChar);
    &&& 1 <= f <= 3
    &&& f < k < l.len()
    &&& l[k] == ':'
}

/// The name of an entry (`line.trim().split(':').next()`).
pub open spec fn entry_name(l: Seq<char>) -> Seq<char> {
    before_first(trim(l), CharClass::Colon)
}

// ---------------------------------------------------------------------------
// Locating the section
// ---------------------------------------------------------------------------

/// The nearest top-level line at or above `i`, or -1.
pub open spec fn header_search(ls: Seq<Seq<char>>, i: int) -> int
    decreases i + 1,
{
    if i < 0 {
        -1
    } else if i >= ls.len() {
        header_search(ls, ls.len() - 1)
    } else if is_top_level(ls[i]) {
        i
    } else {
        header_search(ls, i - 1)
    }
}

/// The first top-level line at or after `j`, or `ls.len()`.
pub open spec fn next_top(ls: Seq<Seq<char>>, j: int) -> int
    decreases ls.len() - j,
{
    if j >= ls.len() {
        ls.len() as int
    } else if j < 0 {
        next_top(ls, 0)
    } else if is_top_level(ls[j]) {
        j
    } else {
        next_top(ls, j + 1)
    }
}

/// The body `[start, end)` of the dependency section governing `cursor`.
pub open spec fn section_bounds(ls: Seq<Seq<char>>, cursor: int) -> Option<(int, int)> {
    let c = if cursor < ls.len() - 1 { cursor } else { ls.len() - 1 };
    let h = header_search(ls, c);
    if h < 0 || !is_section_key(before_first(trim_end(ls[h]), CharClass::Colon)) {
        None
    } else {
        let end = next_top(ls, h + 1);
        if cursor > end {
            None
        } else {
            Some((h + 1, end))
        }
    }
}

// ---------------------------------------------------------------------------
// Splitting the body into entry blocks
// ---------------------------------------------------------------------------

/// An entry block: the entry's name and its lines.
pub struct BlockModel {
    pub name: Seq<char>,
    pub lines: Seq<Seq<char>>,
}

/// Lines before the first entry, the entry blocks, and the comment/blank
/// lines not yet attached to any block.
pub struct SplitState {
    pub prefix: Seq<Seq<char>>,
    pub blocks: Seq<BlockModel>,
    pub pending: Seq<Seq<char>>,
}

/// Index of the last blank line, or -1.
pub open spec fn last_blank(p: Seq<Seq<char>>) -> int
    decreases p.len(),
{
    if p.len() == 0 {
        -1
    } else if is_blank(p.last()) {
        p.len() - 1
    } else {
        last_blank(p.drop_last())
    }
}

/// `blocks` with `extra` appended to the lines of its last block.
pub open spec fn extend_last(blocks: Seq<BlockModel>, extra: Seq<Seq<char>>) -> Seq<BlockModel> {
    let b = blocks.last();
    blocks.update(blocks.len() - 1, BlockModel { name: b.name, lines: b.lines + extra })
}

/// One line of the split. A key line takes the trailing run of comments
/// above it (after the last blank line) and starts a block; earlier held
/// lines trail the previous block. Comments and blanks are held. Other lines
/// are nested content of the current block, or, before any entry, make the
/// section malformed.
pub open spec fn split_step(st: SplitState, line: Seq<char>) -> Option<SplitState> {
    if is_entry_key_line_spec(line) {
        let cut = last_blank(st.pending) + 1;
        let held = st.pending.take(cut);
        let attached = st.pending.skip(cut);
        let block = BlockModel { name: entry_name(line), lines: attached.push(line) };
        if st.blocks.len() > 0 {
            Some(
                SplitState {
                    prefix: st.prefix,
                    blocks: extend_last(st.blocks, held).push(block),
                    pending: Seq::empty(),
                },
            )
        } else {
            Some(
                SplitState {
                    prefix: st.prefix + held,
                    blocks: st.blocks.push(block),
                    pending: Seq::empty(),
                },
            )
        }
    } else if is_comment_or_blank(line) {
        Some(SplitState { prefix: st.prefix, blocks: st.blocks, pending: st.pending.push(line) })
    } else if st.blocks.len() > 0 {
        Some(
            SplitState {
                prefix: st.prefix,
                blocks: extend_last(st.blocks, st.pending.push(line)),
                pending: Seq::empty(),
            },
        )
    } else {
        None
    }
}

pub open spec fn empty_split() -> SplitState {
    SplitState { prefix: Seq::empty(), blocks: Seq::empty(), pending: Seq::empty() }
}

/// The split of a section body, line by line from the top.
pub open spec fn split_body(body: Seq<Seq<char>>) -> Option<SplitState>
    decreases body.len(),
{
    if body.len() == 0 {
        Some(empty_split())
    } else {
        match split_body(body.drop_last()) {
            None => None,
            Some(st) => split_step(st, body.last()),
        }
    }
}

// ---------------------------------------------------------------------------
// Sorting
// ---------------------------------------------------------------------------

/// Lexicographic order of character sequences by code point (the order of
/// `String` keys: UTF-8 byte order agrees with code point order).
pub open spec fn lex_le(a: Seq<char>, b: Seq<char>) -> bool
    decreases a.len(),
{
    if a.len() == 0 {
        true
    } else if b.len() == 0 {
        false
    } else if (a[0] as u32) != (b[0] as u32) {
        (a[0] as u32) < (b[0] as u32)
    } else {
        lex_le(a.drop_first(), b.drop_first())
    }
}

/// The sort key of a block: its name in lowercase. Entry names are ASCII
/// (see [`lemma_entry_name_ascii`]), so this is `str::to_lowercase`.
pub open spec fn sort_key(b: BlockModel) -> Seq<char> {
    lower_ascii(b.name)
}

/// Where a stable insertion places `x` into `sorted`: after every block
/// whose key is at most `x`'s.
pub open spec fn insert_pos(sorted: Seq<BlockModel>, x: BlockModel) -> int
    decreases sorted.len(),
{
    if sorted.len() == 0 {
        0
    } else if lex_le(sort_key(sorted.last()), sort_key(x)) {
        sorted.len() as int
    } else {
        insert_pos(sorted.drop_last(), x)
    }
}

/// Stable sort of the blocks by key (`sort_by_key`).
pub open spec fn sort_blocks(bs: Seq<BlockModel>) -> Seq<BlockModel>
    decreases bs.len(),
{
    if bs.len() == 0 {
        Seq::empty()
    } else {
        let s = sort_blocks(bs.drop_last());
        s.insert(insert_pos(s, bs.last()), bs.last())
    }
}

pub open spec fn names(bs: Seq<BlockModel>) -> Seq<Seq<char>> {
    bs.map_values(|b: BlockModel| b.name)
}

/// All lines of the blocks, in order.
pub open spec fn flatten(bs: Seq<BlockModel>) -> Seq<Seq<char>>
    decreases bs.len(),
{
    if bs.len() == 0 {
        Seq::empty()
    } else {
        flatten(bs.drop_last()) + bs.last().lines
    }
}

/// What sorting the section under `cursor` does: the body bounds and the
/// new body lines. `None` when the cursor is not in a dependency section,
/// the body is malformed, it has fewer than two entries, or it is sorted.
pub open spec fn sort_plan(ls: Seq<Seq<char>>, cursor: int) -> Option<(int, int, Seq<Seq<char>>)> {
    match section_bounds(ls, cursor) {
        None => None,
        Some((start, end)) => match split_body(ls.subrange(start, end)) {
            None => None,
            Some(st) => {
                let sorted = sort_blocks(st.blocks);
                if st.blocks.len() < 2 || names(sorted) == names(st.blocks) {
                    None
                } else {
                    Some((start, end, st.prefix + flatten(sorted) + st.pending))
                }
            },
        },
    }
}

/// The edit for a plan: the body's full lines are replaced by the new lines
/// joined with `'\n'`.
pub open spec fn plan_range(ls: Seq<Seq<char>>, start: int, end: int) -> Range {
    Range {
        start: Position { line: start as u32, character: 0 },
        end: Position { line: (end - 1) as u32, character: utf16_count(ls[end - 1]) as u32 },
    }
}

// ---------------------------------------------------------------------------
// Executable code
// ---------------------------------------------------------------------------

/// An entry block under construction.
pub struct Block {
    pub name: Vec<char>,
    pub lines: Vec<Vec<char>>,
}

pub open spec fn block_model(b: Block) -> BlockModel {
    BlockModel { name: b.name@, lines: seqs(b.lines@) }
}

pub open spec fn block_models(v: Seq<Block>) -> Seq<BlockModel> {
    v.map_values(|b: Block| block_model(b))
}

fn copy_line(l: &Vec<char>) -> (r: Vec<char>)
    ensures
        r@ == l@,
{
    let r = slice_copy(l.as_slice(), 0, l.len());
    assert(r@ =~= l@);
    r
}

pub proof fn lemma_first_from_shift(s: Seq<char>, f: int, i: int, cls: CharClass)
    requires
        0 <= f <= s.len(),
        0 <= i <= s.len() - f,
    ensures
        first_from(s.skip(f), i, cls) == first_from(s, f + i, cls) - f,
{
    lemma_first_from(s, f + i, cls);
    let k = first_from(s, f + i, cls);
    assert forall|j: int| i <= j < k - f implies !in_class(cls, #[trigger] s.skip(f)[j]) by {
        assert(s.skip(f)[j] == s[f + j]);
    }
    lemma_first_from_unique(s.skip(f), i, k - f, cls);
}

/// Whether a line is a direct dependency key line.
pub fn is_entry_key_line(l: &[char]) -> (r: bool)
    ensures
        r == is_entry_key_line_spec(l@),
{
    proof {
        lemma_first_from(l@, 0, CharClass::NotSpace);
    }
    let f = find_from(l, 0, CharClass::NotSpace);
    if !(1 <= f && f <= 3) {
        return false;
    }
    proof {
        lemma_first_from(l@, f as int, CharClass::NotPackageChar);
    }
    let k = find_from(l, f, CharClass::NotPackageChar);
    f < k && k < l.len() && l[k] == ':'
}

fn is_blank_line(l: &[char]) -> (r: bool)
    ensures
        r == is_blank(l@),
{
    let t = trimmed(l);
    t.len() == 0
}

fn comment_or_blank(l: &[char]) -> (r: bool)
    ensures
        r == is_comment_or_blank(l@),
{
    let t = trimmed(l);
    t.len() == 0 || t[0] == '#'
}

fn find_last_blank(p: &Vec<Vec<char>>) -> (r: usize)
    ensures
        r == last_blank(seqs(p@)) + 1,
        r <= p@.len(),
{
    let mut i = p.len();
    assert(seqs(p@).take(i as int) =~= seqs(p@));
    while i > 0
        invariant
            i <= p@.len(),
            last_blank(seqs(p@)) == last_blank(seqs(p@).take(i as int)),
        decreases i,
    {
        assert(seqs(p@).take(i as int).drop_last() =~= seqs(p@).take(i - 1));
        if is_blank_line(p[i - 1].as_slice()) {
            return i;
        }
        i = i - 1;
    }
    0
}

/// The name of an entry (`line.trim().split(':').next()`).
fn name_of(l: &[char]) -> (r: Vec<char>)
    ensures
        r@ == entry_name(l@),
{
    let t = trimmed(l);
    prefix_before(t.as_slice(), CharClass::Colon)
}

/// Exec state of the split, and its model.
pub struct Splitter {
    pub prefix: Vec<Vec<char>>,
    pub blocks: Vec<Block>,
    pub pending: Vec<Vec<char>>,
}

pub open spec fn splitter_model(s: Splitter) -> SplitState {
    SplitState {
        prefix: seqs(s.prefix@),
        blocks: block_models(s.blocks@),
        pending: seqs(s.pending@),
    }
}

proof fn lemma_seqs_push(v: Seq<Vec<char>>, x: Vec<char>)
    ensures
        seqs(v.push(x)) == seqs(v).push(x@),
{
    assert(seqs(v.push(x)) =~= seqs(v).push(x@));
}

proof fn lemma_seqs_add(a: Seq<Vec<char>>, b: Seq<Vec<char>>)
    ensures
        seqs(a + b) == seqs(a) + seqs(b),
{
    assert(seqs(a + b) =~= seqs(a) + seqs(b));
}

/// Adds `extra` to the lines of the last block.
fn extend_last_block(blocks: &mut Vec<Block>, extra: &mut Vec<Vec<char>>)
    requires
        old(blocks)@.len() > 0,
    ensures
        block_models(final(blocks)@) == extend_last(block_models(old(blocks)@), seqs(old(extra)@)),
        final(extra)@.len() == 0,
{
    let mut b = blocks.pop().unwrap();
    let ghost old_lines = b.lines@;
    b.lines.append(extra);
    proof {
        lemma_seqs_add(old_lines, old(extra)@);
    }
    blocks.push(b);
    assert(block_models(blocks@) =~= extend_last(block_models(old(blocks)@), seqs(old(extra)@)));
}

/// One step of the split; `false` when the section is malformed.
fn split_line(st: &mut Splitter, line: Vec<char>) -> (ok: bool)
    ensures
        ok ==> split_step(splitter_model(*old(st)), line@) == Some(splitter_model(*final(st))),
        !ok ==> split_step(splitter_model(*old(st)), line@) is None,
{
    let ghost m = splitter_model(*st);
    if is_entry_key_line(line.as_slice()) {
        let cut = find_last_blank(&st.pending);
        let attached = st.pending.split_off(cut);
        proof {
            assert(seqs(st.pending@) =~= m.pending.take(cut as int));
            assert(seqs(attached@) =~= m.pending.skip(cut as int));
        }
        if st.blocks.len() > 0 {
            extend_last_block(&mut st.blocks, &mut st.pending);
        } else {
            let ghost p0 = st.prefix@;
            let ghost held = st.pending@;
            st.prefix.append(&mut st.pending);
            proof {
                lemma_seqs_add(p0, held);
            }
        }
        let name = name_of(line.as_slice());
        let mut lines = attached;
        let ghost a0 = lines@;
        let ghost lv = line@;
        lines.push(line);
        proof {
            lemma_seqs_push(a0, line);
        }
        let ghost bl0 = st.blocks@;
        st.blocks.push(Block { name, lines });
        proof {
            assert(block_models(st.blocks@) =~= block_models(bl0).push(
                BlockModel { name: entry_name(lv), lines: m.pending.skip(cut as int).push(lv) },
            ));
            assert(seqs(st.pending@) =~= Seq::<Seq<char>>::empty());
        }
        true
    } else if comment_or_blank(line.as_slice()) {
        let ghost p0 = st.pending@;
        st.pending.push(line);
        proof {
            lemma_seqs_push(p0, line);
        }
        true
    } else if st.blocks.len() > 0 {
        let ghost p0 = st.pending@;
        st.pending.push(line);
        proof {
            lemma_seqs_push(p0, line);
        }
        extend_last_block(&mut st.blocks, &mut st.pending);
        assert(seqs(st.pending@) =~= Seq::<Seq<char>>::empty());
        true
    } else {
        false
    }
}

/// Splits `body` into prefix, entry blocks and trailing held lines.
fn split_lines_into_blocks(body: &Vec<Vec<char>>) -> (r: Option<Splitter>)
    ensures
        match r {
            Some(st) => split_body(seqs(body@)) == Some(splitter_model(st)),
            None => split_body(seqs(body@)) is None,
        },
{
    let mut st = Splitter { prefix: Vec::new(), blocks: Vec::new(), pending: Vec::new() };
    assert(seqs(st.prefix@) =~= Seq::<Seq<char>>::empty());
    assert(seqs(st.pending@) =~= Seq::<Seq<char>>::empty());
    assert(block_models(st.blocks@) =~= Seq::<BlockModel>::empty());
    assert(splitter_model(st) == empty_split());
    let mut i: usize = 0;
    while i < body.len()
        invariant
            i <= body@.len(),
            split_body(seqs(body@).take(i as int)) == Some(splitter_model(st)),
        decreases body@.len() - i,
    {
        let line = copy_line(&body[i]);
        assert(seqs(body@).take(i + 1).drop_last() =~= seqs(body@).take(i as int));
        let ok = split_line(&mut st, line);
        if !ok {
            proof {
                lemma_split_none_extends(seqs(body@), i as int + 1);
            }
            return None;
        }
        i = i + 1;
    }
    assert(seqs(body@).take(i as int) =~= seqs(body@));
    Some(st)
}

/// Once the split fails it stays failed.
proof fn lemma_split_none_extends(body: Seq<Seq<char>>, i: int)
    requires
        0 <= i <= body.len(),
        split_body(body.take(i)) is None,
    ensures
        split_body(body) is None,
    decreases body.len() - i,
{
    if i < body.len() {
        assert(body.take(i + 1).drop_last() =~= body.take(i));
        lemma_split_none_extends(body, i + 1);
    } else {
        assert(body.take(i) =~= body);
    }
}

/// `lex_le` on executable sequences.
fn lex_le_exec(a: &[char], b: &[char]) -> (r: bool)
    ensures
        r == lex_le(a@, b@),
{
    let mut i: usize = 0;
    assert(a@.skip(0) =~= a@);
    assert(b@.skip(0) =~= b@);
    while i < a.len()
        invariant
            i <= a@.len(),
            i <= b@.len(),
            lex_le(a@, b@) == lex_le(a@.skip(i as int), b@.skip(i as int)),
        decreases a@.len() - i,
    {
        if i >= b.len() {
            return false;
        }
        assert(a@.skip(i as int).drop_first() =~= a@.skip(i + 1));
        assert(b@.skip(i as int).drop_first() =~= b@.skip(i + 1));
        if (a[i] as u32) != (b[i] as u32) {
            return (a[i] as u32) < (b[i] as u32);
        }
        i = i + 1;
    }
    true
}

fn key_of(b: &Block) -> (r: Vec<char>)
    ensures
        r@ == sort_key(block_model(*b)),
{
    to_lower_ascii(b.name.as_slice())
}

/// Stable insertion sort by key.
fn sort_by_key(blocks: Vec<Block>) -> (r: Vec<Block>)
    ensures
        block_models(r@) == sort_blocks(block_models(blocks@)),
{
    let ghost input = block_models(blocks@);
    let mut rest = blocks;
    let mut sorted: Vec<Block> = Vec::new();
    let mut done: usize = 0;
    let _n = rest.len();
    assert(block_models(rest@).skip(0) =~= block_models(rest@));
    assert(input.take(0) =~= Seq::<BlockModel>::empty());
    while rest.len() > 0
        invariant
            input.len() <= usize::MAX,
            done + rest@.len() == input.len(),
            block_models(rest@) == input.skip(done as int),
            block_models(sorted@) == sort_blocks(input.take(done as int)),
        decreases rest@.len(),
    {
        let ghost r0 = rest@;
        let x = rest.remove(0);
        let ghost xm = block_model(x);
        assert(block_models(r0)[0] == block_model(r0[0]));
        assert(xm == input[done as int]);
        let key = key_of(&x);
        let ghost sv = block_models(sorted@);
        let mut pos = sorted.len();
        assert(sv.take(pos as int) =~= sv);
        while pos > 0 && !lex_le_exec(key_of(&sorted[pos - 1]).as_slice(), key.as_slice())
            invariant
                pos <= sorted@.len(),
                sv == block_models(sorted@),
                key@ == sort_key(xm),
                insert_pos(sv, xm) == insert_pos(sv.take(pos as int), xm),
            decreases pos,
        {
            assert(sv.take(pos as int).drop_last() =~= sv.take(pos - 1));
            pos = pos - 1;
        }
        proof {
            if pos > 0 {
                assert(sv.take(pos as int).last() == sv[pos - 1]);
            }
        }
        sorted.insert(pos, x);
        proof {
            assert(input.take(done + 1).drop_last() =~= input.take(done as int));
            assert(block_models(sorted@) =~= sv.insert(pos as int, xm));
            assert(rest@ =~= r0.remove(0));
            assert forall|j: int| 0 <= j < block_models(rest@).len() implies #[trigger] block_models(
                rest@,
            )[j] == input.skip(done + 1)[j] by {
                assert(block_models(r0)[j + 1] == input.skip(done as int)[j + 1]);
            }
            assert(block_models(rest@) =~= input.skip(done + 1));
        }
        done = done + 1;
    }
    assert(input.take(done as int) =~= input);
    sorted
}

fn same_names(a: &Vec<Block>, b: &Vec<Block>) -> (r: bool)
    ensures
        r == (names(block_models(a@)) == names(block_models(b@))),
{
    if a.len() != b.len() {
        assert(names(block_models(a@)).len() != names(block_models(b@)).len());
        return false;
    }
    let mut i: usize = 0;
    while i < a.len()
        invariant
            a@.len() == b@.len(),
            i <= a@.len(),
            forall|j: int| 0 <= j < i ==> a@[j].name@ == b@[j].name@,
        decreases a@.len() - i,
    {
        if !chars_eq(a[i].name.as_slice(), b[i].name.as_slice()) {
            assert(names(block_models(a@))[i as int] != names(block_models(b@))[i as int]);
            return false;
        }
        i = i + 1;
    }
    assert(names(block_models(a@)) =~= names(block_models(b@)));
    true
}

/// The lines of all blocks, in order.
fn flatten_blocks(out: &mut Vec<Vec<char>>, blocks: Vec<Block>)
    ensures
        seqs(final(out)@) == seqs(old(out)@) + flatten(block_models(blocks@)),
{
    let ghost bm = block_models(blocks@);
    let mut rest = blocks;
    let mut done: usize = 0;
    let _n = rest.len();
    assert(block_models(rest@).skip(0) =~= block_models(rest@));
    assert(bm.take(0) =~= Seq::<BlockModel>::empty());
    assert(seqs(out@) =~= seqs(old(out)@) + flatten(bm.take(0)));
    while rest.len() > 0
        invariant
            bm.len() <= usize::MAX,
            done + rest@.len() == bm.len(),
            block_models(rest@) == bm.skip(done as int),
            seqs(out@) == seqs(old(out)@) + flatten(bm.take(done as int)),
        decreases rest@.len(),
    {
        let ghost r0 = rest@;
        let mut b = rest.remove(0);
        let ghost b0 = block_model(b);
        assert(block_models(r0)[0] == block_model(r0[0]));
        let ghost o0 = out@;
        let ghost l0 = b.lines@;
        out.append(&mut b.lines);
        proof {
            lemma_seqs_add(o0, l0);
            assert(bm.take(done + 1).drop_last() =~= bm.take(done as int));
            assert(bm[done as int] == b0);
            assert(rest@ =~= r0.remove(0));
            assert forall|j: int| 0 <= j < block_models(rest@).len() implies #[trigger] block_models(
                rest@,
            )[j] == bm.skip(done + 1)[j] by {
                assert(block_models(r0)[j + 1] == bm.skip(done as int)[j + 1]);
            }
            assert(block_models(rest@) =~= bm.skip(done + 1));
        }
        done = done + 1;
    }
    assert(bm.take(done as int) =~= bm);
}

/// `join("\n")`.
pub fn join_lines(parts: &Vec<Vec<char>>) -> (r: Vec<char>)
    ensures
        r@ == join(seqs(parts@), '\n'),
{
    let mut out: Vec<char> = Vec::new();
    let mut i: usize = 0;
    while i < parts.len()
        invariant
            i <= parts@.len(),
            out@ == join(seqs(parts@).take(i as int), '\n'),
        decreases parts@.len() - i,
    {
        assert(seqs(parts@).take(i + 1).drop_last() =~= seqs(parts@).take(i as int));
        if i > 0 {
            out.push('\n');
        }
        push_all(&mut out, parts[i].as_slice());
        i = i + 1;
        proof {
            if i == 1 {
                assert(out@ =~= join(seqs(parts@).take(i as int), '\n'));
            }
        }
    }
    assert(seqs(parts@).take(i as int) =~= seqs(parts@));
    out
}

fn top_level(l: &[char]) -> (r: bool)
    ensures
        r == is_top_level(l@),
{
    let t = trimmed(l);
    !(l.len() > 0 && l[0] == ' ') && t.len() > 0
}

/// Whether `k` is one of the dependency section keys.
pub fn section_key(k: &[char]) -> (r: bool)
    ensures
        r == is_section_key(k@),
{
    let a = chars_of("dependencies");
    let b = chars_of("dev_dependencies");
    let c = chars_of("dependency_overrides");
    chars_eq(k, a.as_slice()) || chars_eq(k, b.as_slice()) || chars_eq(k, c.as_slice())
}

/// Executable [`section_bounds`].
fn find_section(ls: &Vec<Vec<char>>, cursor: usize) -> (r: Option<(usize, usize)>)
    ensures
        match r {
            Some((s, e)) => section_bounds(seqs(ls@), cursor as int) == Some((s as int, e as int)),
            None => section_bounds(seqs(ls@), cursor as int) is None,
        },
{
    let ghost v = seqs(ls@);
    if ls.len() == 0 {
        assert(header_search(v, -1) == -1);
        return None;
    }
    let c = if cursor < ls.len() - 1 { cursor } else { ls.len() - 1 };
    let mut i = c + 1;
    while i > 0 && !top_level(ls[i - 1].as_slice())
        invariant
            i <= c + 1,
            c < ls@.len(),
            v == seqs(ls@),
            header_search(v, c as int) == header_search(v, i - 1),
        decreases i,
    {
        i = i - 1;
    }
    if i == 0 {
        return None;
    }
    let h = i - 1;
    let key_line = trimmed_end(ls[h].as_slice());
    let key = prefix_before(key_line.as_slice(), CharClass::Colon);
    if !section_key(key.as_slice()) {
        return None;
    }
    let mut e = h + 1;
    while e < ls.len() && !top_level(ls[e].as_slice())
        invariant
            h + 1 <= e <= ls@.len(),
            v == seqs(ls@),
            next_top(v, h + 1) == next_top(v, e as int),
        decreases ls@.len() - e,
    {
        e = e + 1;
    }
    if cursor > e {
        return None;
    }
    Some((h + 1, e))
}

/// The body bounds and new body lines for sorting the section under
/// `cursor`, on a text already split into lines.
pub fn sort_section_lines(ls: &Vec<Vec<char>>, cursor: usize) -> (r: Option<(usize, usize, Vec<Vec<char>>)>)
    ensures
        match r {
            Some((s, e, nl)) => sort_plan(seqs(ls@), cursor as int) == Some(
                (s as int, e as int, seqs(nl@)),
            ),
            None => sort_plan(seqs(ls@), cursor as int) is None,
        },
{
    let (start, end) = match find_section(ls, cursor) {
        Some(b) => b,
        None => return None,
    };
    proof {
        lemma_section_bounds(seqs(ls@), cursor as int);
    }
    let mut body: Vec<Vec<char>> = Vec::new();
    let mut i = start;
    assert(seqs(body@) =~= seqs(ls@).subrange(start as int, i as int));
    while i < end
        invariant
            start <= i <= end <= ls@.len(),
            seqs(body@) == seqs(ls@).subrange(start as int, i as int),
        decreases end - i,
    {
        let ghost b0 = body@;
        let line = copy_line(&ls[i]);
        body.push(line);
        proof {
            lemma_seqs_push(b0, line);
            assert(seqs(ls@)[i as int] == ls@[i as int]@);
            assert(seqs(body@) =~= seqs(ls@).subrange(start as int, i + 1));
        }
        i = i + 1;
    }
    let st = match split_lines_into_blocks(&body) {
        Some(st) => st,
        None => return None,
    };
    let Splitter { prefix, blocks, pending } = st;
    if blocks.len() < 2 {
        return None;
    }
    let mut found_names: Vec<Block> = Vec::new();
    let mut k: usize = 0;
    while k < blocks.len()
        invariant
            k <= blocks@.len(),
            found_names@.len() == k,
            forall|j: int| 0 <= j < k ==> #[trigger] found_names@[j].name@ == blocks@[j].name@,
        decreases blocks@.len() - k,
    {
        found_names.push(Block { name: copy_line(&blocks[k].name), lines: Vec::new() });
        k = k + 1;
    }
    assert(names(block_models(found_names@)) =~= names(block_models(blocks@)));
    let ghost bm = block_models(blocks@);
    let sorted = sort_by_key(blocks);
    if same_names(&sorted, &found_names) {
        return None;
    }
    let mut out = prefix;
    let ghost pv = seqs(out@);
    flatten_blocks(&mut out, sorted);
    let ghost ov = out@;
    let mut pend = pending;
    let ghost pdv = pend@;
    out.append(&mut pend);
    proof {
        lemma_seqs_add(ov, pdv);
    }
    Some((start, end, out))
}

/// Sort the dependency section containing `cursor_line` alphabetically.
/// Returns `None` when the cursor is not in a section, the section is
/// malformed or has fewer than two entries, or it is already sorted (and
/// so for a text without lines).
pub fn sort_section_edit(text: &str, cursor_line: u32) -> (r: Option<TextEdit>)
    ensures
        match r {
            Some(edit) => match sort_plan(lines(text@), cursor_line as int) {
                Some((s, e, nl)) => edit.range == plan_range(lines(text@), s, e) && edit.new_text@
                    == join(nl, '\n'),
                None => false,
            },
            None => sort_plan(lines(text@), cursor_line as int) is None,
        },
{
    let t = chars_of(text);
    let ls = split_lines(t.as_slice());
    proof {
        assert(seqs(ls@) =~= lines(t@));
        crate::document::lemma_lines_fit(t@, 0);
    }
    let (start, end, new_lines) = match sort_section_lines(&ls, cursor_line as usize) {
        Some(p) => p,
        None => return None,
    };
    proof {
        lemma_plan_bounds(seqs(ls@), cursor_line as int);
        assert(text_fits(seqs(ls@)[end - 1]));
    }
    let last = &ls[end - 1];
    let width = utf16_prefix_len(last.as_slice(), last.len());
    assert(last@.take(last@.len() as int) =~= last@);
    let joined = join_lines(&new_lines);
    Some(
        TextEdit {
            range: Range {
                start: Position { line: start as u32, character: 0 },
                end: Position { line: (end - 1) as u32, character: width as u32 },
            },
            new_text: string_of(joined.as_slice()),
        },
    )
}

/// Section bounds lie within the text.
pub proof fn lemma_section_bounds(ls: Seq<Seq<char>>, cursor: int)
    requires
        ls.len() > 0,
        section_bounds(ls, cursor) is Some,
    ensures
        ({
            let (s, e) = section_bounds(ls, cursor).unwrap();
            1 <= s <= e <= ls.len()
        }),
{
    let c = if cursor < ls.len() - 1 { cursor } else { ls.len() - 1 };
    lemma_header_search(ls, c);
    let h = header_search(ls, c);
    lemma_next_top(ls, h + 1);
}

/// A plan's body lies within the text and is not empty.
pub proof fn lemma_plan_bounds(ls: Seq<Seq<char>>, cursor: int)
    requires
        ls.len() > 0,
        sort_plan(ls, cursor) is Some,
    ensures
        ({
            let (s, e, nl) = sort_plan(ls, cursor).unwrap();
            1 <= s < e <= ls.len()
        }),
{
    let c = if cursor < ls.len() - 1 { cursor } else { ls.len() - 1 };
    lemma_header_search(ls, c);
    let h = header_search(ls, c);
    lemma_next_top(ls, h + 1);
    let (s, e) = section_bounds(ls, cursor).unwrap();
    if s == e {
        assert(ls.subrange(s, e) =~= Seq::<Seq<char>>::empty());
    }
}

pub proof fn lemma_header_search(ls: Seq<Seq<char>>, i: int)
    requires
        -1 <= i < ls.len(),
    ensures
        -1 <= header_search(ls, i) <= i,
        header_search(ls, i) >= 0 ==> is_top_level(ls[header_search(ls, i)]),
        forall|j: int| header_search(ls, i) < j <= i ==> !is_top_level(#[trigger] ls[j]),
    decreases i + 1,
{
    if i >= 0 && !is_top_level(ls[i]) {
        lemma_header_search(ls, i - 1);
    }
}

pub proof fn lemma_next_top(ls: Seq<Seq<char>>, j: int)
    requires
        0 <= j,
    ensures
        j <= next_top(ls, j) || (j > ls.len() && next_top(ls, j) == ls.len()),
        next_top(ls, j) <= ls.len(),
        next_top(ls, j) < ls.len() ==> is_top_level(ls[next_top(ls, j)]),
        forall|k: int| j <= k < next_top(ls, j) ==> !is_top_level(#[trigger] ls[k]),
    decreases ls.len() - j,
{
    if j < ls.len() && !is_top_level(ls[j]) {
        lemma_next_top(ls, j + 1);
    }
}

// ---------------------------------------------------------------------------
// Laws
// ---------------------------------------------------------------------------

pub proof fn lemma_flatten_add(a: Seq<BlockModel>, b: Seq<BlockModel>)
    ensures
        flatten(a + b) == flatten(a) + flatten(b),
    decreases b.len(),
{
    if b.len() == 0 {
        assert(a + b =~= a);
        assert(flatten(a) + flatten(b) =~= flatten(a));
    } else {
        assert((a + b).drop_last() =~= a + b.drop_last());
        lemma_flatten_add(a, b.drop_last());
        assert(flatten(a) + flatten(b) =~= flatten(a) + flatten(b.drop_last()) + b.last().lines);
    }
}

pub proof fn lemma_flatten_extend_last(bs: Seq<BlockModel>, x: Seq<Seq<char>>)
    requires
        bs.len() > 0,
    ensures
        flatten(extend_last(bs, x)) == flatten(bs) + x,
{
    let e = extend_last(bs, x);
    assert(e.drop_last() =~= bs.drop_last());
    assert(flatten(bs) + x =~= flatten(bs.drop_last()) + (bs.last().lines + x));
}

/// Splitting a section body loses and adds nothing: the prefix, the blocks'
/// lines and the held lines, in order, are the body.
pub proof fn law_split_preserves_body(body: Seq<Seq<char>>)
    ensures
        split_body(body) matches Some(st) ==> st.prefix + flatten(st.blocks) + st.pending == body,
    decreases body.len(),
{
    if body.len() > 0 {
        law_split_preserves_body(body.drop_last());
        if let Some(st) = split_body(body.drop_last()) {
            let line = body.last();
            assert(body =~= body.drop_last().push(line));
            if let Some(st2) = split_step(st, line) {
                if is_entry_key_line_spec(line) {
                    let cut = last_blank(st.pending) + 1;
                    lemma_last_blank(st.pending);
                    let held = st.pending.take(cut);
                    let attached = st.pending.skip(cut);
                    assert(held + attached =~= st.pending);
                    let block = BlockModel { name: entry_name(line), lines: attached.push(line) };
                    if st.blocks.len() > 0 {
                        lemma_flatten_extend_last(st.blocks, held);
                        assert(extend_last(st.blocks, held).push(block).drop_last()
                            =~= extend_last(st.blocks, held));
                        assert(st2.prefix + flatten(st2.blocks) + st2.pending =~= st.prefix
                            + flatten(st.blocks) + st.pending.push(line));
                    } else {
                        assert(st.blocks.push(block).drop_last() =~= st.blocks);
                        assert(flatten(st.blocks) =~= Seq::<Seq<char>>::empty());
                        assert(st2.prefix + flatten(st2.blocks) + st2.pending =~= st.prefix
                            + flatten(st.blocks) + st.pending.push(line));
                    }
                } else if is_comment_or_blank(line) {
                    assert(st2.prefix + flatten(st2.blocks) + st2.pending =~= st.prefix
                        + flatten(st.blocks) + st.pending.push(line));
                } else {
                    lemma_flatten_extend_last(st.blocks, st.pending.push(line));
                    assert(st2.prefix + flatten(st2.blocks) + st2.pending =~= st.prefix
                        + flatten(st.blocks) + st.pending.push(line));
                }
            }
        }
    }
}

pub proof fn lemma_last_blank(p: Seq<Seq<char>>)
    ensures
        -1 <= last_blank(p) < p.len(),
    decreases p.len(),
{
    if p.len() > 0 && !is_blank(p.last()) {
        lemma_last_blank(p.drop_last());
    }
}

pub proof fn lemma_insert_pos_bounds(s: Seq<BlockModel>, x: BlockModel)
    ensures
        0 <= insert_pos(s, x) <= s.len(),
    decreases s.len(),
{
    if s.len() > 0 && !lex_le(sort_key(s.last()), sort_key(x)) {
        lemma_insert_pos_bounds(s.drop_last(), x);
    }
}

proof fn lemma_flatten_sort_multiset(bs: Seq<BlockModel>)
    ensures
        flatten(sort_blocks(bs)).to_multiset() == flatten(bs).to_multiset(),
    decreases bs.len(),
{
    broadcast use vstd::seq_lib::lemma_multiset_commutative;

    if bs.len() > 0 {
        lemma_flatten_sort_multiset(bs.drop_last());
        let s = sort_blocks(bs.drop_last());
        let x = bs.last();
        let p = insert_pos(s, x);
        lemma_insert_pos_bounds(s, x);
        let t = s.insert(p, x);
        assert(t =~= s.take(p) + seq![x] + s.skip(p));
        assert(s =~= s.take(p) + s.skip(p));
        lemma_flatten_add(s.take(p) + seq![x], s.skip(p));
        lemma_flatten_add(s.take(p), seq![x]);
        lemma_flatten_add(s.take(p), s.skip(p));
        assert(seq![x].drop_last() =~= Seq::<BlockModel>::empty());
        assert(flatten(Seq::<BlockModel>::empty()) == Seq::<Seq<char>>::empty());
        assert(flatten(seq![x]) == flatten(seq![x].drop_last()) + seq![x].last().lines);
        assert(flatten(seq![x]) =~= x.lines);
        assert(flatten(bs) == flatten(bs.drop_last()) + x.lines);
        vstd::seq_lib::lemma_multiset_commutative(flatten(s.take(p)) + x.lines, flatten(s.skip(p)));
        vstd::seq_lib::lemma_multiset_commutative(flatten(s.take(p)), x.lines);
        vstd::seq_lib::lemma_multiset_commutative(flatten(s.take(p)), flatten(s.skip(p)));
        vstd::seq_lib::lemma_multiset_commutative(flatten(bs.drop_last()), x.lines);
        assert(flatten(t).to_multiset() =~= flatten(bs).to_multiset());
    }
}

/// Sorting a section only reorders its lines: the new body has exactly the
/// lines of the old one, as a multiset.
pub proof fn law_sort_reorders_lines(ls: Seq<Seq<char>>, cursor: int)
    ensures
        sort_plan(ls, cursor) matches Some((s, e, nl)) ==> nl.to_multiset() == ls.subrange(
            s,
            e,
        ).to_multiset(),
{
    broadcast use vstd::seq_lib::lemma_multiset_commutative;

    if let Some((s, e, nl)) = sort_plan(ls, cursor) {
        let body = ls.subrange(s, e);
        let st = split_body(body).unwrap();
        law_split_preserves_body(body);
        lemma_flatten_sort_multiset(st.blocks);
        let sorted = sort_blocks(st.blocks);
        vstd::seq_lib::lemma_multiset_commutative(st.prefix + flatten(sorted), st.pending);
        vstd::seq_lib::lemma_multiset_commutative(st.prefix, flatten(sorted));
        vstd::seq_lib::lemma_multiset_commutative(st.prefix + flatten(st.blocks), st.pending);
        vstd::seq_lib::lemma_multiset_commutative(st.prefix, flatten(st.blocks));
    }
}

/// The sort keys of the blocks are in order.
pub open spec fn keys_sorted(bs: Seq<BlockModel>) -> bool {
    forall|i: int, j: int|
        0 <= i < j < bs.len() ==> lex_le(sort_key(#[trigger] bs[i]), sort_key(#[trigger] bs[j]))
}

pub proof fn lemma_lex_le_total(a: Seq<char>, b: Seq<char>)
    ensures
        lex_le(a, b) || lex_le(b, a),
    decreases a.len(),
{
    if a.len() > 0 && b.len() > 0 && (a[0] as u32) == (b[0] as u32) {
        lemma_lex_le_total(a.drop_first(), b.drop_first());
    }
}

pub proof fn lemma_lex_le_trans(a: Seq<char>, b: Seq<char>, c: Seq<char>)
    requires
        lex_le(a, b),
        lex_le(b, c),
    ensures
        lex_le(a, c),
    decreases a.len(),
{
    if a.len() > 0 && b.len() > 0 && c.len() > 0 && (a[0] as u32) == (b[0] as u32) && (b[0] as u32)
        == (c[0] as u32) {
        lemma_lex_le_trans(a.drop_first(), b.drop_first(), c.drop_first());
    }
}

proof fn lemma_insert_pos_props(s: Seq<BlockModel>, x: BlockModel)
    ensures
        insert_pos(s, x) > 0 ==> lex_le(sort_key(s[insert_pos(s, x) - 1]), sort_key(x)),
        forall|i: int|
            insert_pos(s, x) <= i < s.len() ==> !lex_le(sort_key(#[trigger] s[i]), sort_key(x)),
    decreases s.len(),
{
    lemma_insert_pos_bounds(s, x);
    if s.len() > 0 && !lex_le(sort_key(s.last()), sort_key(x)) {
        lemma_insert_pos_props(s.drop_last(), x);
        lemma_insert_pos_bounds(s.drop_last(), x);
        let p = insert_pos(s, x);
        if p > 0 {
            assert(s[p - 1] == s.drop_last()[p - 1]);
        }
        assert forall|i: int| p <= i < s.len() implies !lex_le(
            sort_key(#[trigger] s[i]),
            sort_key(x),
        ) by {
            if i < s.len() - 1 {
                assert(s[i] == s.drop_last()[i]);
            }
        }
    }
}

proof fn lemma_insert_keeps_sorted(s: Seq<BlockModel>, x: BlockModel)
    requires
        keys_sorted(s),
    ensures
        keys_sorted(s.insert(insert_pos(s, x), x)),
{
    let p = insert_pos(s, x);
    lemma_insert_pos_bounds(s, x);
    lemma_insert_pos_props(s, x);
    let t = s.insert(p, x);
    assert forall|i: int, j: int| 0 <= i < j < t.len() implies lex_le(
        sort_key(#[trigger] t[i]),
        sort_key(#[trigger] t[j]),
    ) by {
        if i < p && j == p {
            if i < p - 1 {
                lemma_lex_le_trans(sort_key(s[i]), sort_key(s[p - 1]), sort_key(x));
            }
        } else if i == p && j > p {
            lemma_lex_le_total(sort_key(s[j - 1]), sort_key(x));
        } else if i < p && j > p {
            assert(t[j] == s[j - 1]);
        } else if i > p {
            assert(t[i] == s[i - 1] && t[j] == s[j - 1]);
        }
    }
}

/// The sorted blocks are in key order.
pub proof fn law_sort_orders_keys(bs: Seq<BlockModel>)
    ensures
        keys_sorted(sort_blocks(bs)),
        sort_blocks(bs).len() == bs.len(),
    decreases bs.len(),
{
    if bs.len() > 0 {
        law_sort_orders_keys(bs.drop_last());
        lemma_insert_keeps_sorted(sort_blocks(bs.drop_last()), bs.last());
        lemma_insert_pos_bounds(sort_blocks(bs.drop_last()), bs.last());
    }
}

} // verus!
