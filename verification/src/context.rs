//! What kind of completion the cursor position calls for.
//!
//! This is deliberately line-based rather than model-based: while the user is
//! typing (`  htt` under `dependencies:`) the buffer is usually not valid
//! YAML, so the parsed model can't be relied on here.
use vstd::prelude::*;

use crate::lsp::{Position, Range};
use crate::sort_section::{is_section_key, section_key, seqs};
use crate::text::{
    before_first, char_utf16_len, chars_of, find_from, first_from, last_before,
    lemma_first_from, lemma_last_before, lemma_utf16_count_mono, lemma_utf16_count_take,
    lines, prefix_before, rfind_before, slice_copy, split_lines, starts_with_char, string_of,
    text_fits, trim_end, trim_start, trimmed_end, trimmed_start, utf16_count, utf16_prefix_len,
    CharClass,
};

verus! {

broadcast use {vstd::seq::group_seq_axioms, vstd::slice::group_slice_axioms};

/// What kind of completion the cursor position calls for.
#[derive(Debug, Clone, PartialEq)]
pub enum CompletionContext {
    PackageName {
        prefix: String,
        replace_range: Range,
        /// True when the line has no `:` yet, so the completion should append
        /// one (`http` → `http: `).
        needs_colon: bool,
    },
    Version {
        package: String,
        prefix: String,
        replace_range: Range,
        /// True when there is no space between the `:` and the cursor, so the
        /// completion should insert one (`http:` → `http: ^1.6.0`).
        needs_space: bool,
    },
}

/// The model of a [`CompletionContext`], over character sequences.
pub enum ContextModel {
    PackageName { prefix: Seq<char>, replace_range: Range, needs_colon: bool },
    Version { package: Seq<char>, prefix: Seq<char>, replace_range: Range, needs_space: bool },
}

pub open spec fn context_model(c: CompletionContext) -> ContextModel {
    match c {
        CompletionContext::PackageName { prefix, replace_range, needs_colon } => {
            ContextModel::PackageName { prefix: prefix@, replace_range, needs_colon }
        },
        CompletionContext::Version { package, prefix, replace_range, needs_space } => {
            ContextModel::Version { package: package@, prefix: prefix@, replace_range, needs_space }
        },
    }
}

// ---------------------------------------------------------------------------
// Specification
// ---------------------------------------------------------------------------

/// A line that does not govern anything: blank (after trimming its end) or a
/// comment.
pub open spec fn is_skippable(l: Seq<char>) -> bool {
    let t = trim_end(l);
    t.len() == 0 || starts_with_char(trim_start(t), '#')
}

/// The nearest line above `c` that is neither skippable nor indented, or -1.
pub open spec fn governing_line(ls: Seq<Seq<char>>, c: int) -> int
    decreases c,
{
    if c <= 0 {
        -1
    } else if !is_skippable(ls[c - 1]) && !starts_with_char(ls[c - 1], ' ') {
        c - 1
    } else {
        governing_line(ls, c - 1)
    }
}

/// The line `c` lies in a dependency section: the nearest top-level key
/// above it is one of the section keys.
pub open spec fn in_dependency_section_spec(ls: Seq<Seq<char>>, c: int) -> bool {
    let g = governing_line(ls, c);
    g >= 0 && is_section_key(before_first(trim_end(ls[g]), CharClass::Colon))
}

/// The character index in `chars` at or after `i` where the UTF-16 width of
/// the preceding text first reaches `col` (`chars.len()` if never).
pub open spec fn char_index_from(chars: Seq<char>, i: int, col: int) -> int
    decreases chars.len() - i,
{
    if i >= chars.len() || i < 0 {
        chars.len() as int
    } else if utf16_count(chars.take(i)) >= col {
        i
    } else {
        char_index_from(chars, i + 1, col)
    }
}

/// The range covering characters `[start, max(end, start))` of a line.
pub open spec fn span_range(chars: Seq<char>, line: u32, start: int, end: int) -> Range {
    let e = if end >= start { end } else { start };
    Range {
        start: Position { line, character: utf16_count(chars.take(start)) as u32 },
        end: Position { line, character: utf16_count(chars.take(e)) as u32 },
    }
}

/// End of a version value starting at `vs`: before an inline `#` comment
/// (without the spaces in front of it), else the end of the line.
pub open spec fn value_end(chars: Seq<char>, vs: int) -> int {
    let h = first_from(chars, vs, CharClass::Hash);
    if h < chars.len() {
        let j = last_before(chars, h, CharClass::NotSpace);
        if j >= vs { j + 1 } else { vs }
    } else {
        chars.len() as int
    }
}

/// The completion context of a line that lies in a dependency section, at
/// UTF-16 column `character`.
pub open spec fn line_context(chars: Seq<char>, line: u32, character: int) -> Option<ContextModel> {
    let cursor = char_index_from(chars, 0, character);
    let indent = first_from(chars, 0, CharClass::NotSpace);
    let key_end = first_from(chars, indent, CharClass::NotPackageChar);
    if !(1 <= indent <= 3) || cursor < indent {
        None
    } else if cursor <= key_end {
        Some(
            ContextModel::PackageName {
                prefix: chars.subrange(indent, cursor),
                replace_range: span_range(chars, line, indent, key_end),
                needs_colon: first_from(chars, key_end, CharClass::Colon) == chars.len(),
            },
        )
    } else if key_end >= chars.len() || chars[key_end] != ':' {
        None
    } else {
        let vs = first_from(chars, key_end + 1, CharClass::NotSpace);
        let ve = value_end(chars, vs);
        let from = if vs <= cursor { vs } else { cursor };
        if cursor < vs && cursor <= key_end + 1 {
            None
        } else if cursor > (if ve >= vs { ve } else { vs }) {
            None
        } else if key_end == indent {
            None
        } else {
            Some(
                ContextModel::Version {
                    package: chars.subrange(indent, key_end),
                    prefix: chars.subrange(from, cursor),
                    replace_range: span_range(chars, line, from, ve),
                    needs_space: vs == key_end + 1,
                },
            )
        }
    }
}

/// The completion context at `pos` in `text`: `None` outside the lines of a
/// dependency section, on nested lines, before the indent, on the colon, or
/// past the value.
pub open spec fn completion_spec(text: Seq<char>, pos: Position) -> Option<ContextModel> {
    let ls = lines(text);
    let l = pos.line as int;
    if l >= ls.len() || !in_dependency_section_spec(ls, l) {
        None
    } else {
        line_context(ls[l], pos.line, pos.character as int)
    }
}

// ---------------------------------------------------------------------------
// Executable code
// ---------------------------------------------------------------------------

fn skippable(l: &[char]) -> (r: bool)
    ensures
        r == is_skippable(l@),
{
    let t = trimmed_end(l);
    if t.len() == 0 {
        return true;
    }
    let s = trimmed_start(t.as_slice());
    s.len() > 0 && s[0] == '#'
}

/// Walk upward from the cursor line to find the governing top-level key;
/// true when it is one of the dependency sections.
pub fn in_dependency_section(ls: &Vec<Vec<char>>, cursor_line: usize) -> (r: bool)
    requires
        cursor_line <= ls@.len(),
    ensures
        r == in_dependency_section_spec(seqs(ls@), cursor_line as int),
{
    let ghost v = seqs(ls@);
    let mut i = cursor_line;
    while i > 0
        invariant
            i <= cursor_line <= ls@.len(),
            v == seqs(ls@),
            governing_line(v, cursor_line as int) == governing_line(v, i as int),
        decreases i,
    {
        let line = ls[i - 1].as_slice();
        assert(v[i - 1] == line@);
        if !skippable(line) && !(line.len() > 0 && line[0] == ' ') {
            let t = trimmed_end(line);
            let key = prefix_before(t.as_slice(), CharClass::Colon);
            return section_key(key.as_slice());
        }
        i = i - 1;
    }
    false
}

/// Converts a UTF-16 column to a character index in the line.
pub fn utf16_to_char_idx(chars: &[char], utf16_col: usize) -> (r: usize)
    requires
        text_fits(chars@),
    ensures
        r == char_index_from(chars@, 0, utf16_col as int),
{
    let mut units: usize = 0;
    let mut i: usize = 0;
    while i < chars.len()
        invariant
            i <= chars@.len(),
            text_fits(chars@),
            units == utf16_count(chars@.take(i as int)),
            char_index_from(chars@, 0, utf16_col as int) == char_index_from(
                chars@,
                i as int,
                utf16_col as int,
            ),
        decreases chars@.len() - i,
    {
        if units >= utf16_col {
            return i;
        }
        proof {
            lemma_utf16_count_take(chars@, i as int);
            lemma_utf16_count_mono(chars@, i + 1);
        }
        units = units + char_utf16_len(chars[i]);
        i = i + 1;
    }
    i
}

/// The LSP range of the characters `[start, max(end, start))` of a line.
pub fn char_span_to_range(chars: &[char], line: u32, start: usize, end: usize) -> (r: Range)
    requires
        start <= chars@.len(),
        end <= chars@.len(),
        text_fits(chars@),
    ensures
        r == span_range(chars@, line, start as int, end as int),
{
    let e = if end >= start { end } else { start };
    let a = utf16_prefix_len(chars, start);
    let b = utf16_prefix_len(chars, e);
    Range {
        start: Position { line, character: a as u32 },
        end: Position { line, character: b as u32 },
    }
}

fn value_end_exec(chars: &[char], vs: usize) -> (r: usize)
    requires
        vs <= chars@.len(),
    ensures
        r == value_end(chars@, vs as int),
{
    let h = find_from(chars, vs, CharClass::Hash);
    proof {
        lemma_first_from(chars@, vs as int, CharClass::Hash);
    }
    if h < chars.len() {
        proof {
            lemma_last_before(chars@, h as int, CharClass::NotSpace);
        }
        match rfind_before(chars, h, CharClass::NotSpace) {
            Some(j) => if j >= vs {
                j + 1
            } else {
                vs
            },
            None => vs,
        }
    } else {
        chars.len()
    }
}

/// [`line_context`] on one line.
pub fn line_context_exec(chars: &[char], line: u32, character: u32) -> (r: Option<CompletionContext>)
    requires
        text_fits(chars@),
    ensures
        match r {
            Some(c) => line_context(chars@, line, character as int) == Some(context_model(c)),
            None => line_context(chars@, line, character as int) is None,
        },
{
    let cursor = utf16_to_char_idx(chars, character as usize);
    proof {
        lemma_char_index_bounds(chars@, 0, character as int);
        lemma_first_from(chars@, 0, CharClass::NotSpace);
    }
    let indent = find_from(chars, 0, CharClass::NotSpace);
    if !(1 <= indent && indent <= 3) || cursor < indent {
        return None;
    }
    proof {
        lemma_first_from(chars@, indent as int, CharClass::NotPackageChar);
    }
    let key_end = find_from(chars, indent, CharClass::NotPackageChar);
    if cursor <= key_end {
        let prefix = slice_copy(chars, indent, cursor);
        proof {
            lemma_first_from(chars@, key_end as int, CharClass::Colon);
        }
        let colon = find_from(chars, key_end, CharClass::Colon);
        let replace_range = char_span_to_range(chars, line, indent, key_end);
        return Some(
            CompletionContext::PackageName {
                prefix: string_of(prefix.as_slice()),
                replace_range,
                needs_colon: colon == chars.len(),
            },
        );
    }
    if key_end >= chars.len() || chars[key_end] != ':' {
        return None;
    }
    proof {
        lemma_first_from(chars@, key_end + 1, CharClass::NotSpace);
    }
    let vs = find_from(chars, key_end + 1, CharClass::NotSpace);
    let ve = value_end_exec(chars, vs);
    proof {
        lemma_value_end_bounds(chars@, vs as int);
    }
    let from = if vs <= cursor { vs } else { cursor };
    if cursor < vs && cursor <= key_end + 1 {
        return None;
    }
    let top = if ve >= vs { ve } else { vs };
    if cursor > top {
        return None;
    }
    if key_end == indent {
        return None;
    }
    let package = slice_copy(chars, indent, key_end);
    let prefix = slice_copy(chars, from, cursor);
    let replace_range = char_span_to_range(chars, line, from, ve);
    Some(
        CompletionContext::Version {
            package: string_of(package.as_slice()),
            prefix: string_of(prefix.as_slice()),
            replace_range,
            needs_space: vs == key_end + 1,
        },
    )
}

pub proof fn lemma_char_index_bounds(chars: Seq<char>, i: int, col: int)
    requires
        0 <= i <= chars.len(),
    ensures
        i <= char_index_from(chars, i, col) <= chars.len(),
    decreases chars.len() - i,
{
    if i < chars.len() && utf16_count(chars.take(i)) < col {
        lemma_char_index_bounds(chars, i + 1, col);
    }
}

pub proof fn lemma_value_end_bounds(chars: Seq<char>, vs: int)
    requires
        0 <= vs <= chars.len(),
    ensures
        0 <= value_end(chars, vs) <= chars.len(),
{
    lemma_first_from(chars, vs, CharClass::Hash);
    let h = first_from(chars, vs, CharClass::Hash);
    if h < chars.len() {
        lemma_last_before(chars, h, CharClass::NotSpace);
    }
}

/// The completion context at `pos` in `text`.
pub fn completion_context(text: &str, pos: Position) -> (r: Option<CompletionContext>)
    ensures
        match r {
            Some(c) => completion_spec(text@, pos) == Some(context_model(c)),
            None => completion_spec(text@, pos) is None,
        },
{
    let t = chars_of(text);
    let ls = split_lines(t.as_slice());
    proof {
        assert(seqs(ls@) =~= lines(t@));
        crate::document::lemma_lines_fit(t@, 0);
    }
    let l = pos.line as usize;
    if l >= ls.len() {
        return None;
    }
    if !in_dependency_section(&ls, l) {
        return None;
    }
    proof {
        assert(seqs(ls@)[l as int] == ls@[l as int]@);
    }
    line_context_exec(ls[l].as_slice(), pos.line, pos.character)
}


/// The three dependency sections are alike for completion: a line whose
/// nearest top-level key above it is `dependencies`, `dev_dependencies` or
/// `dependency_overrides` is in a dependency section, and no other line is.
/// For such a line, completion is what the line itself calls for.
pub proof fn law_all_three_sections_complete(text: Seq<char>, pos: Position)
    requires
        (pos.line as int) < lines(text).len(),
    ensures
        ({
            let ls = lines(text);
            let g = governing_line(ls, pos.line as int);
            let key = if g >= 0 { before_first(trim_end(ls[g]), CharClass::Colon) } else { Seq::empty() };
            let in_section = g >= 0 && (key == "dependencies"@ || key == "dev_dependencies"@ || key
                == "dependency_overrides"@);
            &&& in_dependency_section_spec(ls, pos.line as int) == in_section
            &&& in_section ==> completion_spec(text, pos) == line_context(
                ls[pos.line as int],
                pos.line,
                pos.character as int,
            )
            &&& !in_section ==> completion_spec(text, pos) is None
        }),
{
}

} // verus!
