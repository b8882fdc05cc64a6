//! Character-level text model shared by the rest of the library.
//!
//! Text is handled as a sequence of `char`s (the view of a `&str`). The spec
//! functions here give the meaning of the standard string operations that the
//! server relies on (`lines`, `trim`, `split(':')`, UTF-16 widths), and the
//! executable functions implement them on `Vec<char>` with proofs.
use vstd::prelude::*;

verus! {

broadcast use {vstd::seq::group_seq_axioms, vstd::slice::group_slice_axioms};

// ---------------------------------------------------------------------------
// Character classes
// ---------------------------------------------------------------------------

/// `char::is_whitespace`: the Unicode `White_Space` property.
pub open spec fn is_ws(c: char) -> bool {
    let u = c as u32;
    ||| 0x09 <= u <= 0x0D
    ||| u == 0x20
    ||| u == 0x85
    ||| u == 0xA0
    ||| u == 0x1680
    ||| 0x2000 <= u <= 0x200A
    ||| u == 0x2028
    ||| u == 0x2029
    ||| u == 0x202F
    ||| u == 0x205F
    ||| u == 0x3000
}

pub open spec fn is_ascii_alnum(c: char) -> bool {
    let u = c as u32;
    ||| 0x30 <= u <= 0x39
    ||| 0x41 <= u <= 0x5A
    ||| 0x61 <= u <= 0x7A
}

/// Characters allowed in a Dart package name token.
pub open spec fn is_package_char_spec(c: char) -> bool {
    is_ascii_alnum(c) || c == '_'
}

/// Number of UTF-16 code units of a char (`char::len_utf16`).
pub open spec fn utf16_len(c: char) -> nat {
    if (c as u32) < 0x10000 { 1 } else { 2 }
}

/// Number of UTF-8 bytes of a char (`char::len_utf8`).
pub open spec fn utf8_len(c: char) -> nat {
    let u = c as u32;
    if u < 0x80 { 1 } else if u < 0x800 { 2 } else if u < 0x10000 { 3 } else { 4 }
}

/// Total UTF-16 length of a char sequence.
pub open spec fn utf16_count(s: Seq<char>) -> nat
    decreases s.len(),
{
    if s.len() == 0 { 0 } else { utf16_count(s.drop_last()) + utf16_len(s.last()) }
}

/// Total UTF-8 length of a char sequence.
pub open spec fn utf8_count(s: Seq<char>) -> nat
    decreases s.len(),
{
    if s.len() == 0 { 0 } else { utf8_count(s.drop_last()) + utf8_len(s.last()) }
}

/// The classes of characters that the scanners in this crate look for.
#[derive(Clone, Copy, PartialEq, Eq, Debug)]
pub enum CharClass {
    Newline,
    Colon,
    Slash,
    Hash,
    Space,
    NotSpace,
    NotWhitespace,
    NotPackageChar,
    Whitespace,
    NotQuote,
}

pub open spec fn in_class(cls: CharClass, c: char) -> bool {
    match cls {
        CharClass::Newline => c == '\n',
        CharClass::Colon => c == ':',
        CharClass::Slash => c == '/',
        CharClass::Hash => c == '#',
        CharClass::Space => c == ' ',
        CharClass::NotSpace => c != ' ',
        CharClass::NotWhitespace => !is_ws(c),
        CharClass::NotPackageChar => !is_package_char_spec(c),
        CharClass::Whitespace => is_ws(c),
        CharClass::NotQuote => !(c == '"' || c == '\''),
    }
}

pub fn char_is_ws(c: char) -> (r: bool)
    ensures
        r == is_ws(c),
{
    let u = c as u32;
    (0x09 <= u && u <= 0x0D) || u == 0x20 || u == 0x85 || u == 0xA0 || u == 0x1680 || (0x2000
        <= u && u <= 0x200A) || u == 0x2028 || u == 0x2029 || u == 0x202F || u == 0x205F || u
        == 0x3000
}

pub fn is_package_char(c: char) -> (r: bool)
    ensures
        r == is_package_char_spec(c),
{
    let u = c as u32;
    (0x30 <= u && u <= 0x39) || (0x41 <= u && u <= 0x5A) || (0x61 <= u && u <= 0x7A) || c == '_'
}

pub fn char_utf16_len(c: char) -> (n: usize)
    ensures
        n == utf16_len(c),
{
    if (c as u32) < 0x10000 {
        1
    } else {
        2
    }
}

pub fn class_has(cls: CharClass, c: char) -> (r: bool)
    ensures
        r == in_class(cls, c),
{
    match cls {
        CharClass::Newline => c == '\n',
        CharClass::Colon => c == ':',
        CharClass::Slash => c == '/',
        CharClass::Hash => c == '#',
        CharClass::Space => c == ' ',
        CharClass::NotSpace => c != ' ',
        CharClass::NotWhitespace => !char_is_ws(c),
        CharClass::NotPackageChar => !is_package_char(c),
        CharClass::Whitespace => char_is_ws(c),
        CharClass::NotQuote => !(c == '"' || c == '\''),
    }
}

// ---------------------------------------------------------------------------
// Searching
// ---------------------------------------------------------------------------

/// Index of the first character at or after `i` in class `cls`, or `s.len()`.
pub open spec fn first_from(s: Seq<char>, i: int, cls: CharClass) -> int
    decreases s.len() - i,
{
    if i >= s.len() {
        s.len() as int
    } else if i < 0 {
        first_from(s, 0, cls)
    } else if in_class(cls, s[i]) {
        i
    } else {
        first_from(s, i + 1, cls)
    }
}

/// Index of the last character before `i` in class `cls`, or `-1`.
pub open spec fn last_before(s: Seq<char>, i: int, cls: CharClass) -> int
    decreases i,
{
    if i <= 0 {
        -1
    } else if i > s.len() {
        last_before(s, s.len() as int, cls)
    } else if in_class(cls, s[i - 1]) {
        i - 1
    } else {
        last_before(s, i - 1, cls)
    }
}

pub proof fn lemma_first_from(s: Seq<char>, i: int, cls: CharClass)
    requires
        0 <= i <= s.len(),
    ensures
        i <= first_from(s, i, cls) <= s.len(),
        forall|j: int| i <= j < first_from(s, i, cls) ==> !in_class(cls, #[trigger] s[j]),
        first_from(s, i, cls) < s.len() ==> in_class(cls, s[first_from(s, i, cls)]),
    decreases s.len() - i,
{
    if i < s.len() && !in_class(cls, s[i]) {
        lemma_first_from(s, i + 1, cls);
    }
}

/// A position that satisfies the defining properties is `first_from`.
pub proof fn lemma_first_from_unique(s: Seq<char>, i: int, k: int, cls: CharClass)
    requires
        0 <= i <= k <= s.len(),
        forall|j: int| i <= j < k ==> !in_class(cls, #[trigger] s[j]),
        k < s.len() ==> in_class(cls, s[k]),
    ensures
        first_from(s, i, cls) == k,
    decreases k - i,
{
    if i < k {
        lemma_first_from_unique(s, i + 1, k, cls);
    }
}

pub proof fn lemma_last_before(s: Seq<char>, i: int, cls: CharClass)
    requires
        0 <= i <= s.len(),
    ensures
        -1 <= last_before(s, i, cls) < i,
        forall|j: int| last_before(s, i, cls) < j < i ==> !in_class(cls, #[trigger] s[j]),
        last_before(s, i, cls) >= 0 ==> in_class(cls, s[last_before(s, i, cls)]),
    decreases i,
{
    if i > 0 && !in_class(cls, s[i - 1]) {
        lemma_last_before(s, i - 1, cls);
    }
}

pub proof fn lemma_last_before_unique(s: Seq<char>, i: int, k: int, cls: CharClass)
    requires
        -1 <= k < i <= s.len(),
        forall|j: int| k < j < i ==> !in_class(cls, #[trigger] s[j]),
        k >= 0 ==> in_class(cls, s[k]),
    ensures
        last_before(s, i, cls) == k,
    decreases i - k,
{
    if k < i - 1 {
        lemma_last_before_unique(s, i - 1, k, cls);
    }
}

/// Executable `first_from`.
pub fn find_from(s: &[char], i: usize, cls: CharClass) -> (r: usize)
    requires
        i <= s@.len(),
    ensures
        r == first_from(s@, i as int, cls),
{
    let mut k = i;
    while k < s.len()
        invariant
            i <= k <= s@.len(),
            forall|j: int| i <= j < k ==> !in_class(cls, #[trigger] s@[j]),
        decreases s@.len() - k,
    {
        if class_has(cls, s[k]) {
            proof {
                lemma_first_from_unique(s@, i as int, k as int, cls);
            }
            return k;
        }
        k = k + 1;
    }
    proof {
        lemma_first_from_unique(s@, i as int, k as int, cls);
    }
    k
}

/// Executable `last_before`; `None` stands for `-1`.
pub fn rfind_before(s: &[char], i: usize, cls: CharClass) -> (r: Option<usize>)
    requires
        i <= s@.len(),
    ensures
        match r {
            Some(k) => k as int == last_before(s@, i as int, cls),
            None => last_before(s@, i as int, cls) == -1,
        },
{
    let mut k = i;
    while k > 0
        invariant
            k <= i <= s@.len(),
            forall|j: int| k <= j < i ==> !in_class(cls, #[trigger] s@[j]),
        decreases k,
    {
        if class_has(cls, s[k - 1]) {
            proof {
                lemma_last_before_unique(s@, i as int, k - 1, cls);
            }
            return Some(k - 1);
        }
        k = k - 1;
    }
    proof {
        lemma_last_before_unique(s@, i as int, -1, cls);
    }
    None
}

// ---------------------------------------------------------------------------
// Trimming and splitting
// ---------------------------------------------------------------------------

/// `str::trim_start`.
pub open spec fn trim_start(s: Seq<char>) -> Seq<char> {
    s.skip(first_from(s, 0, CharClass::NotWhitespace))
}

/// `str::trim_end`.
pub open spec fn trim_end(s: Seq<char>) -> Seq<char> {
    s.take(last_before(s, s.len() as int, CharClass::NotWhitespace) + 1)
}

/// `str::trim`.
pub open spec fn trim(s: Seq<char>) -> Seq<char> {
    trim_end(trim_start(s))
}

/// `s.split(c).next()`: the text before the first `c` (all of `s` when absent).
pub open spec fn before_first(s: Seq<char>, cls: CharClass) -> Seq<char> {
    s.take(first_from(s, 0, cls))
}

/// `s.starts_with(c)` for a single character.
pub open spec fn starts_with_char(s: Seq<char>, c: char) -> bool {
    s.len() > 0 && s[0] == c
}

/// `s.starts_with(p)`.
pub open spec fn has_prefix(s: Seq<char>, p: Seq<char>) -> bool {
    p.len() <= s.len() && s.take(p.len() as int) == p
}

/// `s.contains(p)` for a string pattern.
pub open spec fn has_infix(s: Seq<char>, p: Seq<char>) -> bool {
    exists|i: int| 0 <= i <= s.len() - p.len() && #[trigger] s.subrange(i, i + p.len()) == p
}

/// ASCII lowercase of a single character (`char::to_ascii_lowercase`).
pub open spec fn lower_char(c: char) -> char {
    if 0x41 <= (c as u32) <= 0x5A {
        ((c as u32) + 32) as char
    } else {
        c
    }
}

/// `str::to_ascii_lowercase`.
pub open spec fn lower_ascii(s: Seq<char>) -> Seq<char> {
    s.map_values(|c: char| lower_char(c))
}

/// Drop one trailing `'\r'` (what `str::lines` does after a `'\n'`).
pub open spec fn strip_cr(s: Seq<char>) -> Seq<char> {
    if s.len() > 0 && s.last() == '\r' {
        s.drop_last()
    } else {
        s
    }
}

/// `str::lines` on the text from index `k`: each line ends at a `'\n'`,
/// one `'\r'` before that `'\n'` is dropped, and a final line without a
/// `'\n'` is kept as it is (an empty rest yields no line).
pub open spec fn lines_from(s: Seq<char>, k: int) -> Seq<Seq<char>>
    decreases s.len() - k,
{
    if k < 0 || k >= s.len() {
        Seq::empty()
    } else {
        let e = first_from(s, k, CharClass::Newline);
        if e >= s.len() {
            seq![s.subrange(k, s.len() as int)]
        } else if e < k {
            Seq::empty()
        } else {
            seq![strip_cr(s.subrange(k, e))] + lines_from(s, e + 1)
        }
    }
}

/// `str::lines`.
pub open spec fn lines(s: Seq<char>) -> Seq<Seq<char>> {
    lines_from(s, 0)
}

/// `join(sep)` over a sequence of lines with a one-character separator.
pub open spec fn join(parts: Seq<Seq<char>>, sep: char) -> Seq<char>
    decreases parts.len(),
{
    if parts.len() == 0 {
        Seq::empty()
    } else if parts.len() == 1 {
        parts[0]
    } else {
        join(parts.drop_last(), sep).push(sep) + parts.last()
    }
}

pub proof fn lemma_utf16_count_take(s: Seq<char>, i: int)
    requires
        0 <= i < s.len(),
    ensures
        utf16_count(s.take(i + 1)) == utf16_count(s.take(i)) + utf16_len(s[i]),
{
    assert(s.take(i + 1).drop_last() =~= s.take(i));
}

pub proof fn lemma_utf16_count_mono(s: Seq<char>, i: int)
    requires
        0 <= i <= s.len(),
    ensures
        utf16_count(s.take(i)) <= utf16_count(s),
        i <= utf16_count(s.take(i)),
    decreases s.len() - i,
{
    lemma_utf16_lower(s.take(i));
    if i < s.len() {
        lemma_utf16_count_take(s, i);
        lemma_utf16_count_mono(s, i + 1);
    } else {
        assert(s.take(i) =~= s);
    }
}

pub proof fn lemma_utf16_lower(s: Seq<char>)
    ensures
        s.len() <= utf16_count(s),
    decreases s.len(),
{
    if s.len() > 0 {
        lemma_utf16_lower(s.drop_last());
    }
}

/// UTF-16 is never longer than UTF-8.
proof fn lemma_utf16_le_utf8(s: Seq<char>)
    ensures
        utf16_count(s) <= vstd::utf8::encode_utf8(s).len(),
    decreases s.len(),
{
    if s.len() > 0 {
        lemma_utf16_le_utf8(s.drop_first());
        lemma_utf16_count_first(s);
    }
}

proof fn lemma_utf16_count_first(s: Seq<char>)
    requires
        s.len() > 0,
    ensures
        utf16_count(s) == utf16_len(s[0]) + utf16_count(s.drop_first()),
    decreases s.len(),
{
    if s.len() > 1 {
        lemma_utf16_count_first(s.drop_last());
        assert(s.drop_last().drop_first() =~= s.drop_first().drop_last());
        assert(s.drop_first().last() == s.last());
        assert(utf16_count(s.drop_first()) == utf16_count(s.drop_first().drop_last())
            + utf16_len(s.drop_first().last()));
    } else {
        assert(s.drop_first().len() == 0);
        assert(s.drop_last().len() == 0);
        assert(utf16_count(s.drop_last()) == 0);
        assert(utf16_count(s.drop_first()) == 0);
    }
}

/// A text whose UTF-16 length fits in `usize`; every `&str` is one.
pub open spec fn text_fits(s: Seq<char>) -> bool {
    utf16_count(s) <= usize::MAX
}

pub proof fn lemma_text_fits_sub(s: Seq<char>, a: int, b: int)
    requires
        text_fits(s),
        0 <= a <= b <= s.len(),
    ensures
        text_fits(s.subrange(a, b)),
        s.len() <= usize::MAX,
{
    lemma_utf16_count_split(s, a);
    lemma_utf16_count_split(s.skip(a), b - a);
    assert(s.skip(a).take(b - a) =~= s.subrange(a, b));
    lemma_utf16_lower(s);
}

pub proof fn lemma_utf16_count_split(s: Seq<char>, i: int)
    requires
        0 <= i <= s.len(),
    ensures
        utf16_count(s) == utf16_count(s.take(i)) + utf16_count(s.skip(i)),
    decreases s.len() - i,
{
    if i == s.len() {
        assert(s.take(i) =~= s);
        assert(s.skip(i).len() == 0);
    } else {
        lemma_utf16_count_split(s.drop_last(), if i < s.len() { i } else { i - 1 });
        if i < s.len() {
            assert(s.drop_last().take(i) =~= s.take(i));
            assert(s.skip(i).drop_last() =~= s.drop_last().skip(i));
            assert(s.skip(i).last() == s.last());
        }
    }
}

// ---------------------------------------------------------------------------
// Conversions between `str` and `Vec<char>`
// ---------------------------------------------------------------------------

/// The characters of a string slice.
pub fn chars_of(s: &str) -> (v: Vec<char>)
    ensures
        v@ == s@,
        text_fits(s@),
{
    let bytes = s.as_bytes();
    let _byte_count = bytes.len();
    let mut v: Vec<char> = Vec::new();
    for c in it: s.chars()
        invariant
            v@ == it.seq().take(it.index() as int),
    {
        v.push(c);
    }
    proof {
        broadcast use vstd::string::group_string_axioms;

        lemma_utf16_le_utf8(s@);
        assert(bytes@ == vstd::utf8::encode_utf8(s@));
        assert(bytes@.len() <= usize::MAX);
    }
    assert(v@ =~= s@);
    v
}

/// Builds a `String` from characters (`FromIterator<&char> for String`).
#[verifier::external_body]
pub(crate) fn string_of(cs: &[char]) -> (s: String)
    ensures
        s@ == cs@,
{
    cs.iter().collect()
}

/// A copy of `s[a..b]`.
pub fn slice_copy(s: &[char], a: usize, b: usize) -> (r: Vec<char>)
    requires
        a <= b <= s@.len(),
    ensures
        r@ == s@.subrange(a as int, b as int),
{
    let mut r: Vec<char> = Vec::new();
    let mut i = a;
    while i < b
        invariant
            a <= i <= b <= s@.len(),
            r@ == s@.subrange(a as int, i as int),
        decreases b - i,
    {
        r.push(s[i]);
        i = i + 1;
        assert(r@ =~= s@.subrange(a as int, i as int));
    }
    r
}

/// `a == b` on character sequences.
pub fn chars_eq(a: &[char], b: &[char]) -> (r: bool)
    ensures
        r == (a@ == b@),
{
    if a.len() != b.len() {
        return false;
    }
    let mut i: usize = 0;
    while i < a.len()
        invariant
            a@.len() == b@.len(),
            i <= a@.len(),
            forall|j: int| 0 <= j < i ==> a@[j] == b@[j],
        decreases a@.len() - i,
    {
        if a[i] != b[i] {
            return false;
        }
        i = i + 1;
    }
    assert(a@ =~= b@);
    true
}

/// Index where `trim_start` begins.
pub fn trim_start_index(s: &[char]) -> (r: usize)
    ensures
        r == first_from(s@, 0, CharClass::NotWhitespace),
        r <= s@.len(),
        trim_start(s@) == s@.skip(r as int),
{
    proof {
        lemma_first_from(s@, 0, CharClass::NotWhitespace);
    }
    find_from(s, 0, CharClass::NotWhitespace)
}

/// Index where `trim_end` stops.
pub fn trim_end_index(s: &[char]) -> (r: usize)
    ensures
        r as int == last_before(s@, s@.len() as int, CharClass::NotWhitespace) + 1,
        r <= s@.len(),
        trim_end(s@) == s@.take(r as int),
{
    proof {
        lemma_last_before(s@, s@.len() as int, CharClass::NotWhitespace);
    }
    match rfind_before(s, s.len(), CharClass::NotWhitespace) {
        Some(k) => k + 1,
        None => 0,
    }
}

/// `str::trim`.
pub fn trimmed(s: &[char]) -> (r: Vec<char>)
    ensures
        r@ == trim(s@),
{
    let a = trim_start_index(s);
    let t = slice_copy(s, a, s.len());
    assert(t@ =~= trim_start(s@));
    let b = trim_end_index(t.as_slice());
    slice_copy(t.as_slice(), 0, b)
}

/// `str::trim_end`.
pub fn trimmed_end(s: &[char]) -> (r: Vec<char>)
    ensures
        r@ == trim_end(s@),
{
    let b = trim_end_index(s);
    let r = slice_copy(s, 0, b);
    assert(r@ =~= s@.take(b as int));
    r
}

/// `str::trim_start`.
pub fn trimmed_start(s: &[char]) -> (r: Vec<char>)
    ensures
        r@ == trim_start(s@),
{
    let a = trim_start_index(s);
    let r = slice_copy(s, a, s.len());
    assert(r@ =~= s@.skip(a as int));
    r
}

/// `s.split(':').next()`-style prefix before the first character of `cls`.
pub fn prefix_before(s: &[char], cls: CharClass) -> (r: Vec<char>)
    ensures
        r@ == before_first(s@, cls),
{
    proof {
        lemma_first_from(s@, 0, cls);
    }
    let k = find_from(s, 0, cls);
    let r = slice_copy(s, 0, k);
    assert(r@ =~= s@.take(k as int));
    r
}

/// `str::lines`.
pub fn split_lines(s: &[char]) -> (r: Vec<Vec<char>>)
    ensures
        r@.len() == lines(s@).len(),
        forall|i: int| 0 <= i < r@.len() ==> #[trigger] r@[i]@ == lines(s@)[i],
{
    let mut out: Vec<Vec<char>> = Vec::new();
    let mut start: usize = 0;
    let ghost done: Seq<Seq<char>> = Seq::empty();
    while start < s.len()
        invariant
            start <= s@.len(),
            out@.len() == done.len(),
            forall|i: int| 0 <= i < out@.len() ==> #[trigger] out@[i]@ == done[i],
            done + lines_from(s@, start as int) == lines(s@),
        decreases s@.len() - start,
    {
        let e = find_from(s, start, CharClass::Newline);
        proof {
            lemma_first_from(s@, start as int, CharClass::Newline);
        }
        if e == s.len() {
            let piece = slice_copy(s, start, e);
            proof {
                assert(lines_from(s@, start as int) == seq![s@.subrange(start as int, e as int)]);
                assert(lines_from(s@, e as int) =~= Seq::<Seq<char>>::empty());
                done = done.push(piece@);
                assert(done + lines_from(s@, e as int) =~= lines(s@));
            }
            out.push(piece);
            start = e;
        } else {
            let mut end = e;
            if end > start && s[end - 1] == '\r' {
                end = end - 1;
            }
            let piece = slice_copy(s, start, end);
            proof {
                let full = s@.subrange(start as int, e as int);
                assert(piece@ =~= strip_cr(full));
                assert(lines_from(s@, start as int) == seq![strip_cr(full)] + lines_from(
                    s@,
                    e + 1,
                ));
                done = done.push(piece@);
                assert(done + lines_from(s@, e + 1) =~= lines(s@));
            }
            out.push(piece);
            start = e + 1;
        }
    }
    proof {
        assert(lines_from(s@, start as int) =~= Seq::<Seq<char>>::empty());
        assert(done =~= lines(s@));
    }
    out
}

/// `str::to_ascii_lowercase`.
pub fn to_lower_ascii(s: &[char]) -> (r: Vec<char>)
    ensures
        r@ == lower_ascii(s@),
{
    let mut r: Vec<char> = Vec::new();
    let mut i: usize = 0;
    while i < s.len()
        invariant
            i <= s@.len(),
            r@ == lower_ascii(s@.take(i as int)),
        decreases s@.len() - i,
    {
        let c = s[i];
        let u = c as u32;
        let l = if 0x41 <= u && u <= 0x5A {
            proof {
                assert(u + 32 <= 0x7A);
            }
            let v: u32 = u + 32;
            assert(v == (u + 32) as u32);
            char_from_ascii(v)
        } else {
            c
        };
        r.push(l);
        i = i + 1;
        assert(r@ =~= lower_ascii(s@.take(i as int)));
    }
    assert(s@.take(i as int) =~= s@);
    r
}

/// The ASCII character with code `u`.
fn char_from_ascii(u: u32) -> (c: char)
    requires
        0x61 <= u <= 0x7A,
    ensures
        c == u as char,
        c as u32 == u,
{
    let b: u8 = u as u8;
    let c = b as char;
    assert(c as u32 == u);
    c
}

/// `s.starts_with(p)`.
pub fn starts_with(s: &[char], p: &[char]) -> (r: bool)
    ensures
        r == has_prefix(s@, p@),
{
    if p.len() > s.len() {
        return false;
    }
    let mut i: usize = 0;
    while i < p.len()
        invariant
            p@.len() <= s@.len(),
            i <= p@.len(),
            forall|j: int| 0 <= j < i ==> s@[j] == p@[j],
        decreases p@.len() - i,
    {
        if s[i] != p[i] {
            assert(s@.take(p@.len() as int)[i as int] != p@[i as int]);
            return false;
        }
        i = i + 1;
    }
    assert(s@.take(p@.len() as int) =~= p@);
    true
}

/// Whether `p` occurs in `s` starting at `i`.
fn occurs_at(s: &[char], p: &[char], i: usize) -> (r: bool)
    requires
        i + p@.len() <= s@.len(),
    ensures
        r == (s@.subrange(i as int, i + p@.len()) == p@),
{
    let _n = s.len();
    let mut j: usize = 0;
    while j < p.len()
        invariant
            _n == s@.len(),
            i + p@.len() <= s@.len(),
            j <= p@.len(),
            forall|k: int| 0 <= k < j ==> s@[i + k] == p@[k],
        decreases p@.len() - j,
    {
        if s[i + j] != p[j] {
            assert(s@.subrange(i as int, i + p@.len())[j as int] != p@[j as int]);
            return false;
        }
        j = j + 1;
    }
    assert(s@.subrange(i as int, i + p@.len()) =~= p@);
    true
}

/// `s.contains(p)`.
pub fn contains_chars(s: &[char], p: &[char]) -> (r: bool)
    ensures
        r == has_infix(s@, p@),
{
    if p.len() > s.len() {
        return false;
    }
    if p.len() == 0 {
        assert(s@.subrange(0, 0 + p@.len() as int) =~= p@);
        return true;
    }
    let _n = s.len();
    let last = s.len() - p.len();
    let mut i: usize = 0;
    while i <= last
        invariant
            _n == s@.len(),
            p@.len() >= 1,
            last == s@.len() - p@.len(),
            i <= last + 1,
            forall|k: int| 0 <= k < i ==> #[trigger] s@.subrange(k, k + p@.len()) != p@,
        decreases last + 1 - i,
    {
        if occurs_at(s, p, i) {
            return true;
        }
        i = i + 1;
    }
    false
}

/// Appends `src` to `dst`.
pub fn push_all(dst: &mut Vec<char>, src: &[char])
    ensures
        final(dst)@ == old(dst)@ + src@,
{
    let mut i: usize = 0;
    while i < src.len()
        invariant
            i <= src@.len(),
            dst@ == old(dst)@ + src@.take(i as int),
        decreases src@.len() - i,
    {
        dst.push(src[i]);
        i = i + 1;
        assert(dst@ =~= old(dst)@ + src@.take(i as int));
    }
    assert(src@.take(i as int) =~= src@);
}

/// Sum of UTF-16 widths of `s[..n]`.
pub fn utf16_prefix_len(s: &[char], n: usize) -> (r: usize)
    requires
        n <= s@.len(),
        text_fits(s@),
    ensures
        r == utf16_count(s@.take(n as int)),
{
    let mut total: usize = 0;
    let mut i: usize = 0;
    while i < n
        invariant
            i <= n <= s@.len(),
            text_fits(s@),
            total == utf16_count(s@.take(i as int)),
        decreases n - i,
    {
        proof {
            lemma_utf16_count_take(s@, i as int);
            lemma_utf16_count_mono(s@, i + 1);
        }
        total = total + char_utf16_len(s[i]);
        i = i + 1;
    }
    total
}

/// Decimal digits of a number (`n.to_string()`).
pub open spec fn decimal(n: nat) -> Seq<char>
    decreases n,
{
    if n < 10 {
        seq![digit_char(n)]
    } else {
        decimal(n / 10).push(digit_char(n % 10))
    }
}

pub open spec fn digit_char(d: nat) -> char {
    (0x30 + d) as char
}

fn digit(d: usize) -> (c: char)
    requires
        d < 10,
    ensures
        c == digit_char(d as nat),
{
    let b: u8 = (0x30 + d) as u8;
    let c = b as char;
    assert(c as u32 == 0x30 + d);
    c
}

/// `n.to_string()`.
pub fn decimal_chars(n: usize) -> (r: Vec<char>)
    ensures
        r@ == decimal(n as nat),
    decreases n,
{
    if n < 10 {
        let mut r: Vec<char> = Vec::new();
        r.push(digit(n));
        assert(r@ =~= decimal(n as nat));
        r
    } else {
        let mut r = decimal_chars(n / 10);
        r.push(digit(n % 10));
        r
    }
}

/// `format!("{n:05}")`: decimal digits left-padded with zeros to width 5.
pub open spec fn zero_pad5(n: nat) -> Seq<char> {
    let d = decimal(n);
    if d.len() >= 5 {
        d
    } else {
        Seq::new((5 - d.len()) as nat, |i: int| '0') + d
    }
}

pub fn zero_padded5(n: usize) -> (r: Vec<char>)
    ensures
        r@ == zero_pad5(n as nat),
{
    let d = decimal_chars(n);
    if d.len() >= 5 {
        return d;
    }
    let mut r: Vec<char> = Vec::new();
    let pad = 5 - d.len();
    let mut i: usize = 0;
    while i < pad
        invariant
            pad == 5 - d@.len(),
            i <= pad,
            r@ == Seq::new(i as nat, |k: int| '0'),
        decreases pad - i,
    {
        r.push('0');
        i = i + 1;
        assert(r@ =~= Seq::new(i as nat, |k: int| '0'));
    }
    push_all(&mut r, d.as_slice());
    r
}

} // verus!
