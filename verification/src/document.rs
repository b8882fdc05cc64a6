//! Documents held by the server, and position conversion.
use vstd::prelude::*;

use crate::lsp::Position;
use crate::pubspec::{parse_spec, PubspecModel, SectionModel};
use crate::text::{
    chars_eq, chars_of, lemma_last_before, lemma_text_fits_sub, lemma_utf16_count_mono, lines,
    lines_from, last_before, lemma_last_before_unique, rfind_before, slice_copy, split_lines, strip_cr, text_fits,
    utf16_count, utf16_prefix_len, CharClass, first_from, lemma_first_from, in_class,
};

verus! {

/// The last `/`-separated segment of a URI (`uri.rsplit('/').next()`).
pub open spec fn last_segment(uri: Seq<char>) -> Seq<char> {
    uri.skip(last_before(uri, uri.len() as int, CharClass::Slash) + 1)
}

/// The file names the server handles.
pub open spec fn is_pubspec_name(name: Seq<char>) -> bool {
    name == "pubspec.yaml"@ || name == "pubspec_overrides.yaml"@
}

/// Whether a document URI names a pubspec. The server is attached to every
/// YAML file, so everything else is ignored.
pub fn is_pubspec_uri(uri: &str) -> (r: bool)
    ensures
        r == is_pubspec_name(last_segment(uri@)),
{
    let u = chars_of(uri);
    proof {
        lemma_last_before(u@, u@.len() as int, CharClass::Slash);
    }
    let start = match rfind_before(u.as_slice(), u.len(), CharClass::Slash) {
        Some(k) => k + 1,
        None => 0,
    };
    let name = slice_copy(u.as_slice(), start, u.len());
    assert(name@ =~= last_segment(uri@));
    let a = chars_of("pubspec.yaml");
    let b = chars_of("pubspec_overrides.yaml");
    chars_eq(name.as_slice(), a.as_slice()) || chars_eq(name.as_slice(), b.as_slice())
}

/// Every line of a text whose UTF-16 length fits in `usize` fits too.
pub proof fn lemma_lines_fit(s: Seq<char>, k: int)
    requires
        text_fits(s),
        0 <= k,
    ensures
        forall|i: int| 0 <= i < lines_from(s, k).len() ==> text_fits(#[trigger] lines_from(s, k)[i]),
    decreases s.len() - k,
{
    if k < s.len() {
        let e = first_from(s, k, CharClass::Newline);
        lemma_first_from(s, k, CharClass::Newline);
        lemma_text_fits_sub(s, k, e);
        if e < s.len() {
            lemma_lines_fit(s, e + 1);
            let full = s.subrange(k, e);
            if full.len() > 0 && full.last() == '\r' {
                assert(strip_cr(full) =~= s.subrange(k, e - 1));
                lemma_text_fits_sub(s, k, e - 1);
            }
            let ls = lines_from(s, k);
            assert forall|i: int| 0 <= i < ls.len() implies text_fits(#[trigger] ls[i]) by {
                if i > 0 {
                    assert(ls[i] == lines_from(s, e + 1)[i - 1]);
                }
            }
        }
    }
}

/// The line `line0` of a text (empty past the last line).
pub open spec fn line_at(text: Seq<char>, line0: int) -> Seq<char> {
    if 0 <= line0 < lines(text).len() {
        lines(text)[line0]
    } else {
        Seq::empty()
    }
}

/// Where a 1-based line and character column of `text` fall in LSP terms:
/// the 0-based line, and the UTF-16 width of the first `col1 - 1` characters
/// of that line (of the whole line when it is shorter).
pub open spec fn position_of(text: Seq<char>, line1: int, col1: int) -> Position {
    let line0 = if line1 >= 1 { line1 - 1 } else { 0 };
    let line = line_at(text, line0);
    let n = if col1 >= 1 { col1 - 1 } else { 0 };
    let taken = if n <= line.len() { n } else { line.len() as int };
    Position { line: line0 as u32, character: utf16_count(line.take(taken)) as u32 }
}

/// Convert a marked-yaml marker (1-based line/column, counted in characters)
/// to an LSP position (0-based line, UTF-16 code-unit column).
pub fn lsp_position(text: &str, line1: usize, col1: usize) -> (p: Position)
    ensures
        p == position_of(text@, line1 as int, col1 as int),
{
    let t = chars_of(text);
    let ls = split_lines(t.as_slice());
    proof {
        lemma_lines_fit(t@, 0);
        assert forall|i: int| 0 <= i < ls@.len() implies text_fits(#[trigger] ls@[i]@) by {
            assert(ls@[i]@ == lines(t@)[i]);
        }
    }
    lsp_position_in(&ls, line1, col1)
}

/// [`lsp_position`] on a text already split into lines.
pub fn lsp_position_in(ls: &Vec<Vec<char>>, line1: usize, col1: usize) -> (p: Position)
    requires
        forall|i: int| 0 <= i < ls@.len() ==> text_fits(#[trigger] ls@[i]@),
    ensures
        p == (Position {
            line: (if line1 >= 1 { line1 - 1 } else { 0 }) as u32,
            character: utf16_count(
                {
                    let line0 = if line1 >= 1 { line1 - 1 } else { 0 };
                    let line = if line0 < ls@.len() { ls@[line0 as int]@ } else { Seq::empty() };
                    let n = if col1 >= 1 { col1 - 1 } else { 0 };
                    line.take(if n <= line.len() { n as int } else { line.len() as int })
                },
            ) as u32,
        }),
{
    let line0 = if line1 >= 1 { line1 - 1 } else { 0 };
    let n = if col1 >= 1 { col1 - 1 } else { 0 };
    let character = if line0 < ls.len() {
        let line = &ls[line0];
        let taken = if n <= line.len() { n } else { line.len() };
        utf16_prefix_len(line.as_slice(), taken)
    } else {
        0
    };
    Position { line: line0 as u32, character: character as u32 }
}

/// An open document: its text, the client's version, and the dependency
/// model when the text parses.
#[derive(Debug, Clone)]
pub struct Document {
    pub text: String,
    pub version: i32,
    pub model: Option<PubspecModel>,
}

impl Document {
    /// The document for a text: the model is parsed from it.
    pub fn new(text: String, version: i32) -> (d: Document)
        ensures
            d.text@ == text@,
            d.version == version,
            match d.model {
                Some(m) => parse_spec(text@) == Some(m.view()),
                None => parse_spec(text@) is None,
            },
    {
        let model = PubspecModel::parse(text.as_str());
        Document { text, version, model }
    }
}

/// What a document is, as values: its text, its version and the model that
/// its text parses to.
pub struct DocumentView {
    pub text: Seq<char>,
    pub version: i32,
    pub model: Option<Seq<SectionModel>>,
}

pub open spec fn doc_view(d: Document) -> DocumentView {
    DocumentView {
        text: d.text@,
        version: d.version,
        model: match d.model {
            Some(m) => Some(m.view()),
            None => None,
        },
    }
}

impl Document {
    /// A copy of the document.
    pub fn duplicate(&self) -> (r: Document)
        ensures
            doc_view(r) == doc_view(*self),
    {
        Document {
            text: self.text.clone(),
            version: self.version,
            model: match &self.model {
                Some(m) => Some(m.duplicate()),
                None => None,
            },
        }
    }
}

/// The open documents, by URI.
pub struct DocumentStore {
    docs: Vec<(String, Document)>,
}

/// No URI occurs twice.
pub open spec fn keys_distinct(s: Seq<(String, Document)>) -> bool {
    forall|i: int, j: int| 0 <= i < j < s.len() ==> (#[trigger] s[i]).0@ != (#[trigger] s[j]).0@
}

/// The documents held, by URI.
pub open spec fn store_map(s: Seq<(String, Document)>) -> Map<Seq<char>, DocumentView>
    decreases s.len(),
{
    if s.len() == 0 {
        Map::empty()
    } else {
        store_map(s.drop_last()).insert(s.last().0@, doc_view(s.last().1))
    }
}

proof fn lemma_store_absent(s: Seq<(String, Document)>, k: Seq<char>)
    requires
        forall|i: int| 0 <= i < s.len() ==> (#[trigger] s[i]).0@ != k,
    ensures
        !store_map(s).contains_key(k),
    decreases s.len(),
{
    if s.len() > 0 {
        assert(s.last() == s[s.len() - 1]);
        lemma_store_absent(s.drop_last(), k);
    }
}

proof fn lemma_store_lookup(s: Seq<(String, Document)>, i: int)
    requires
        keys_distinct(s),
        0 <= i < s.len(),
    ensures
        store_map(s).contains_key(s[i].0@),
        store_map(s)[s[i].0@] == doc_view(s[i].1),
    decreases s.len(),
{
    if i < s.len() - 1 {
        assert(s.drop_last()[i] == s[i]);
        lemma_store_lookup(s.drop_last(), i);
        assert(s[i].0@ != s[s.len() - 1].0@);
    }
}

proof fn lemma_store_remove(s: Seq<(String, Document)>, i: int)
    requires
        keys_distinct(s),
        0 <= i < s.len(),
    ensures
        store_map(s.remove(i)) == store_map(s).remove(s[i].0@),
        keys_distinct(s.remove(i)),
    decreases s.len(),
{
    let k = s[i].0@;
    let r = s.remove(i);
    assert forall|a: int, b: int| 0 <= a < b < r.len() implies (#[trigger] r[a]).0@ != (#[trigger] r[b]).0@ by {
        let a0 = if a < i { a } else { a + 1 };
        let b0 = if b < i { b } else { b + 1 };
        assert(r[a] == s[a0] && r[b] == s[b0]);
    }
    if i == s.len() - 1 {
        assert(r =~= s.drop_last());
        assert forall|j: int| 0 <= j < s.drop_last().len() implies (#[trigger] s.drop_last()[j]).0@ != k by {
            assert(s.drop_last()[j] == s[j]);
        }
        lemma_store_absent(s.drop_last(), k);
        assert(store_map(r) =~= store_map(s).remove(k));
    } else {
        let d = s.drop_last();
        assert forall|a: int, b: int| 0 <= a < b < d.len() implies (#[trigger] d[a]).0@ != (#[trigger] d[b]).0@ by {
            assert(d[a] == s[a] && d[b] == s[b]);
        }
        assert(d[i] == s[i]);
        lemma_store_remove(d, i);
        assert(r.drop_last() =~= d.remove(i));
        assert(r.last() == s.last());
        assert(s.last().0@ != k);
        assert(store_map(r) =~= store_map(s).remove(k));
    }
}

impl View for DocumentStore {
    type V = Map<Seq<char>, DocumentView>;

    closed spec fn view(&self) -> Map<Seq<char>, DocumentView> {
        store_map(self.docs@)
    }
}

impl DocumentStore {
    #[verifier::type_invariant]
    spec fn inv(self) -> bool {
        keys_distinct(self.docs@)
    }

    /// Where `uri` is held, if it is.
    fn find(&self, uri: &String) -> (r: Option<usize>)
        ensures
            match r {
                Some(i) => i < self.docs@.len() && self.docs@[i as int].0@ == uri@,
                None => forall|j: int| 0 <= j < self.docs@.len() ==> (#[trigger] self.docs@[j]).0@ != uri@,
            },
    {
        let mut i: usize = 0;
        while i < self.docs.len()
            invariant
                i <= self.docs@.len(),
                forall|j: int| 0 <= j < i ==> (#[trigger] self.docs@[j]).0@ != uri@,
            decreases self.docs@.len() - i,
        {
            if self.docs[i].0 == *uri {
                return Some(i);
            }
            i = i + 1;
        }
        None
    }

    /// Store a document's text and version under its URI, with the model
    /// parsed from the text, replacing what was there.
    pub fn upsert(&mut self, uri: &str, text: String, version: i32)
        ensures
            final(self)@ == old(self)@.insert(
                uri@,
                DocumentView { text: text@, version, model: parse_spec(text@) },
            ),
    {
        proof {
            use_type_invariant(&*self);
        }
        let key = uri.to_owned();
        let doc = Document::new(text, version);
        let ghost v = DocumentView { text: text@, version, model: parse_spec(text@) };
        assert(doc_view(doc) == v);
        let ghost m0 = self@;
        let found = self.find(&key);
        let mut docs: Vec<(String, Document)> = Vec::new();
        std::mem::swap(&mut docs, &mut self.docs);
        if let Some(i) = found {
            proof {
                lemma_store_remove(docs@, i as int);
            }
            docs.remove(i);
        } else {
            proof {
                lemma_store_absent(docs@, key@);
            }
        }
        let ghost before = docs@;
        assert(forall|j: int| 0 <= j < before.len() ==> (#[trigger] before[j]).0@ != key@);
        docs.push((key, doc));
        assert(docs@.drop_last() == before);
        assert(keys_distinct(docs@));
        assert(store_map(docs@) =~= m0.insert(uri@, v));
        self.docs = docs;
    }

    /// Take a document's text when its URI names a pubspec, and ignore it
    /// otherwise (the server is attached to every YAML file). Returns
    /// whether the document was taken.
    pub fn accept(&mut self, uri: &str, text: String, version: i32) -> (taken: bool)
        ensures
            taken == is_pubspec_name(last_segment(uri@)),
            taken ==> final(self)@ == old(self)@.insert(
                uri@,
                DocumentView { text: text@, version, model: parse_spec(text@) },
            ),
            !taken ==> final(self)@ == old(self)@,
    {
        if is_pubspec_uri(uri) {
            self.upsert(uri, text, version);
            true
        } else {
            false
        }
    }

    /// Forget the document at `uri`.
    pub fn remove(&mut self, uri: &str)
        ensures
            final(self)@ == old(self)@.remove(uri@),
    {
        proof {
            use_type_invariant(&*self);
        }
        let key = uri.to_owned();
        match self.find(&key) {
            Some(i) => {
                let mut docs: Vec<(String, Document)> = Vec::new();
        std::mem::swap(&mut docs, &mut self.docs);
                proof {
                    lemma_store_remove(docs@, i as int);
                }
                docs.remove(i);
                self.docs = docs;
            },
            None => {
                proof {
                    lemma_store_absent(self.docs@, key@);
                    assert(self@ =~= self@.remove(uri@));
                }
            },
        }
    }

    /// A copy of the document at `uri`, if there is one.
    pub fn get(&self, uri: &str) -> (r: Option<Document>)
        ensures
            match r {
                Some(d) => self@.contains_key(uri@) && doc_view(d) == self@[uri@],
                None => !self@.contains_key(uri@),
            },
    {
        proof {
            use_type_invariant(self);
        }
        let key = uri.to_owned();
        match self.find(&key) {
            Some(i) => {
                proof {
                    lemma_store_lookup(self.docs@, i as int);
                }
                Some(self.docs[i].1.duplicate())
            },
            None => {
                proof {
                    lemma_store_absent(self.docs@, key@);
                }
                None
            },
        }
    }
}

impl Default for DocumentStore {
    fn default() -> (r: DocumentStore)
        ensures
            r@ == Map::<Seq<char>, DocumentView>::empty(),
    {
        let r = DocumentStore { docs: Vec::new() };
        assert(store_map(r.docs@) =~= Map::<Seq<char>, DocumentView>::empty());
        r
    }
}

/// A read gives back what the last write stored under the same URI, with
/// the model parsed from that text; a write or a removal under one URI
/// leaves every other URI as it was; after a removal a read finds nothing.
pub proof fn law_store_read_after_write(
    m: Map<Seq<char>, DocumentView>,
    uri: Seq<char>,
    text: Seq<char>,
    version: i32,
    other: Seq<char>,
)
    ensures
        ({
            let w = m.insert(uri, DocumentView { text, version, model: parse_spec(text) });
            &&& w.contains_key(uri)
            &&& w[uri].text == text
            &&& w[uri].version == version
            &&& w[uri].model == parse_spec(text)
            &&& other != uri ==> (w.contains_key(other) == m.contains_key(other) && (m.contains_key(other) ==> w[other] == m[other]))
        }),
        !m.remove(uri).contains_key(uri),
        other != uri ==> (m.remove(uri).contains_key(other) == m.contains_key(other)
            && (m.contains_key(other) ==> m.remove(uri)[other] == m[other])),
{
}


/// Only the text after the last `/` decides whether a URI names a pubspec:
/// for a last segment `s` (no `/` in it) after any prefix `d`, the URI
/// `d/s` has last segment `s`, as does `s` alone.
pub proof fn law_pubspec_uri_last_segment(d: Seq<char>, s: Seq<char>)
    requires
        forall|i: int| 0 <= i < s.len() ==> #[trigger] s[i] != '/',
    ensures
        last_segment(d + "/"@ + s) == s,
        last_segment(s) == s,
        is_pubspec_name(last_segment(d + "/"@ + s)) == is_pubspec_name(last_segment(s)),
{
    reveal_strlit("/");
    let u = d + "/"@ + s;
    assert(u[d.len() as int] == '/');
    assert forall|j: int| d.len() < j < u.len() implies !in_class(CharClass::Slash, #[trigger] u[j]) by {
        assert(u[j] == s[j - d.len() - 1]);
    }
    lemma_last_before_unique(u, u.len() as int, d.len() as int, CharClass::Slash);
    assert(u.skip(d.len() as int + 1) =~= s);
    assert forall|j: int| -1 < j < s.len() implies !in_class(CharClass::Slash, #[trigger] s[j]) by {}
    lemma_last_before_unique(s, s.len() as int, -1, CharClass::Slash);
    assert(s.skip(0) =~= s);
}

} // verus!
