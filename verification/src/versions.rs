//! Whether a dependency constraint is outdated with respect to the latest
//! published version. Version and constraint semantics come from `semver`.
use vstd::prelude::*;

use crate::text::{
    chars_of, find_from, first_from, last_before, lemma_first_from, lemma_last_before,
    push_all, rfind_before, slice_copy, string_of, trim, trimmed, CharClass, in_class, is_ws,
    lemma_first_from_unique, lemma_last_before_unique, trim_start, trim_end,
};

verus! {

broadcast use {vstd::seq::group_seq_axioms, vstd::slice::group_slice_axioms};

// ---------------------------------------------------------------------------
// What `semver` decides
// ---------------------------------------------------------------------------

/// Whether `semver::Version::parse` accepts the text.
pub uninterp spec fn semver_version_ok(s: Seq<char>) -> bool;

/// `semver::Version::parse(a) > semver::Version::parse(b)` (semver precedence,
/// build metadata included as `semver` orders it).
pub uninterp spec fn semver_gt(a: Seq<char>, b: Seq<char>) -> bool;

/// `semver::Version::parse(v) > semver::Version::new(major, minor, patch)`.
pub uninterp spec fn semver_gt_release(v: Seq<char>, major: u64, minor: u64, patch: u64) -> bool;

/// The comparators (`major`, `minor`, `patch`) of `semver::VersionReq::parse`,
/// or `None` when it fails.
pub uninterp spec fn semver_req(s: Seq<char>) -> Option<Seq<(u64, Option<u64>, Option<u64>)>>;

/// `semver::VersionReq::parse(req).matches(&semver::Version::parse(v))`.
pub uninterp spec fn semver_req_matches(req: Seq<char>, v: Seq<char>) -> bool;

/// Calls `semver::Version::parse` and reports whether it succeeded; the
/// answer is the named result `semver_version_ok` of the text.
#[verifier::external_body]
fn version_ok(s: &str) -> (r: bool)
    ensures
        r == semver_version_ok(s@),
{
    semver::Version::parse(s).is_ok()
}

/// Parses both texts with `semver::Version::parse` and compares them with
/// `semver::Version`'s `>` (a strict order: a version is not greater than
/// itself). The result is the named `semver_gt` of the two texts.
#[verifier::external_body]
fn version_gt(a: &str, b: &str) -> (r: bool)
    requires
        semver_version_ok(a@),
        semver_version_ok(b@),
    ensures
        r == semver_gt(a@, b@),
        a@ == b@ ==> !r,
{
    semver::Version::parse(a).unwrap() > semver::Version::parse(b).unwrap()
}

/// Parses `v` with `semver::Version::parse` and compares it with `>` against
/// `semver::Version::new(major, minor, patch)`; the result is the named
/// `semver_gt_release`.
#[verifier::external_body]
fn version_gt_release(v: &str, major: u64, minor: u64, patch: u64) -> (r: bool)
    requires
        semver_version_ok(v@),
    ensures
        r == semver_gt_release(v@, major, minor, patch),
{
    semver::Version::parse(v).unwrap() > semver::Version::new(major, minor, patch)
}

/// `semver::VersionReq::parse`, handing out each comparator's `major`,
/// `minor` and `patch` in order; the result is the named `semver_req`.
#[verifier::external_body]
fn req_comparators(s: &str) -> (r: Option<Vec<(u64, Option<u64>, Option<u64>)>>)
    ensures
        match r {
            Some(v) => semver_req(s@) == Some(v@),
            None => semver_req(s@) is None,
        },
{
    semver::VersionReq::parse(s).ok().map(
        |req| req.comparators.iter().map(|c| (c.major, c.minor, c.patch)).collect(),
    )
}

/// `semver::VersionReq::parse(req)` matched against
/// `semver::Version::parse(v)` with `VersionReq::matches`; the result is the
/// named `semver_req_matches`.
#[verifier::external_body]
fn req_matches(req: &str, v: &str) -> (r: bool)
    requires
        semver_req(req@) is Some,
        semver_version_ok(v@),
    ensures
        r == semver_req_matches(req@, v@),
{
    semver::VersionReq::parse(req).unwrap().matches(&semver::Version::parse(v).unwrap())
}

// ---------------------------------------------------------------------------
// Specification
// ---------------------------------------------------------------------------

/// `s.trim_matches(|c| c == '"' || c == '\'')`.
pub open spec fn strip_quotes(s: Seq<char>) -> Seq<char> {
    let a = first_from(s, 0, CharClass::NotQuote);
    if a >= s.len() {
        Seq::empty()
    } else {
        s.subrange(a, last_before(s, s.len() as int, CharClass::NotQuote) + 1)
    }
}

/// The whitespace-separated words of `s` from index `i` (`split_whitespace`).
pub open spec fn words_from(s: Seq<char>, i: int) -> Seq<Seq<char>>
    decreases s.len() - i,
{
    let a = first_from(s, i, CharClass::NotWhitespace);
    if i < 0 || i >= s.len() || a >= s.len() || a < i {
        Seq::empty()
    } else {
        let b = first_from(s, a, CharClass::Whitespace);
        if b <= a || b > s.len() {
            Seq::empty()
        } else {
            seq![s.subrange(a, b)] + words_from(s, b)
        }
    }
}

/// Joins parts with a separator.
pub open spec fn join_with(parts: Seq<Seq<char>>, sep: Seq<char>) -> Seq<char>
    decreases parts.len(),
{
    if parts.len() == 0 {
        Seq::empty()
    } else if parts.len() == 1 {
        parts[0]
    } else {
        join_with(parts.drop_last(), sep) + sep + parts.last()
    }
}

/// Dart separates comparators with spaces (`>=1.0.0 <2.0.0`); `semver`
/// wants commas.
pub open spec fn comma_separated(raw: Seq<char>) -> Seq<char> {
    join_with(words_from(raw, 0), ", "@)
}

/// The release version a comparator sits at (missing parts are 0).
pub open spec fn floor_of(c: (u64, Option<u64>, Option<u64>)) -> (u64, u64, u64) {
    (
        c.0,
        match c.1 {
            Some(m) => m,
            None => 0,
        },
        match c.2 {
            Some(p) => p,
            None => 0,
        },
    )
}

/// Release versions are ordered by major, then minor, then patch.
pub open spec fn triple_lt(a: (u64, u64, u64), b: (u64, u64, u64)) -> bool {
    a.0 < b.0 || (a.0 == b.0 && (a.1 < b.1 || (a.1 == b.1 && a.2 < b.2)))
}

/// The lowest floor among the comparators (the first one among equals).
pub open spec fn min_floor(cs: Seq<(u64, Option<u64>, Option<u64>)>) -> (u64, u64, u64)
    decreases cs.len(),
{
    if cs.len() <= 1 {
        floor_of(cs[0])
    } else {
        let m = min_floor(cs.drop_last());
        let x = floor_of(cs.last());
        if triple_lt(x, m) { x } else { m }
    }
}

/// The constraint text as it is judged: trimmed, then unquoted.
pub open spec fn constraint_text(c: Seq<char>) -> Seq<char> {
    strip_quotes(trim(c))
}

/// Whether a dependency constraint is outdated with respect to the latest
/// published version; `None` when that cannot be told.
///
/// - `None` when `latest` is not a version, the constraint is missing,
///   empty or `any`, or it is neither a version nor a requirement.
/// - An exact version (`1.2.3`, Dart's exact constraint) is outdated when
///   `latest` is greater.
/// - A requirement that admits `latest` is not outdated; one that rejects it
///   is outdated only when it sits below `latest` (its lowest comparator
///   floor is smaller), so `^9.0.0` against `1.0.0` is not outdated.
pub open spec fn outdated(constraint: Option<Seq<char>>, latest: Seq<char>) -> Option<bool> {
    if !semver_version_ok(latest) {
        None
    } else {
        match constraint {
            None => None,
            Some(c) => {
                let raw = constraint_text(c);
                if raw.len() == 0 || raw == "any"@ {
                    None
                } else if semver_version_ok(raw) {
                    Some(semver_gt(latest, raw))
                } else {
                    let req = comma_separated(raw);
                    match semver_req(req) {
                        None => None,
                        Some(cs) => if semver_req_matches(req, latest) {
                            Some(false)
                        } else if cs.len() == 0 {
                            None
                        } else {
                            let f = min_floor(cs);
                            Some(semver_gt_release(latest, f.0, f.1, f.2))
                        },
                    }
                }
            },
        }
    }
}

// ---------------------------------------------------------------------------
// Executable code
// ---------------------------------------------------------------------------

pub fn strip_quotes_exec(s: &[char]) -> (r: Vec<char>)
    ensures
        r@ == strip_quotes(s@),
{
    proof {
        lemma_first_from(s@, 0, CharClass::NotQuote);
        lemma_last_before(s@, s@.len() as int, CharClass::NotQuote);
    }
    let a = find_from(s, 0, CharClass::NotQuote);
    if a >= s.len() {
        return Vec::new();
    }
    let b = match rfind_before(s, s.len(), CharClass::NotQuote) {
        Some(k) => k + 1,
        None => 0,
    };
    proof {
        if b < a {
            assert(!(s@[a as int] == '"' || s@[a as int] == '\''));
        }
    }
    slice_copy(s, a, b)
}

/// `split_whitespace().collect::<Vec<_>>().join(", ")`.
fn comma_separated_exec(raw: &[char]) -> (r: Vec<char>)
    ensures
        r@ == comma_separated(raw@),
{
    let sep = chars_of(", ");
    let mut out: Vec<char> = Vec::new();
    let ghost mut done: Seq<Seq<char>> = Seq::empty();
    let mut i: usize = 0;
    let mut any_word = false;
    let _n = raw.len();
    while i < raw.len()
        invariant
            any_word == (done.len() > 0),
            _n == raw@.len(),
            i <= raw@.len(),
            sep@ == ", "@,
            out@ == join_with(done, ", "@),
            done + words_from(raw@, i as int) == words_from(raw@, 0),
        decreases raw@.len() - i,
    {
        proof {
            lemma_first_from(raw@, i as int, CharClass::NotWhitespace);
        }
        let a = find_from(raw, i, CharClass::NotWhitespace);
        if a >= raw.len() {
            proof {
                assert(words_from(raw@, i as int) =~= Seq::<Seq<char>>::empty());
                assert(done =~= words_from(raw@, 0));
            }
            return out;
        }
        proof {
            lemma_first_from(raw@, a as int, CharClass::Whitespace);
        }
        let b = find_from(raw, a, CharClass::Whitespace);
        let word = slice_copy(raw, a, b);
        if any_word {
            push_all(&mut out, sep.as_slice());
        }
        any_word = true;
        push_all(&mut out, word.as_slice());
        proof {
            let nd = done.push(word@);
            assert(nd.drop_last() =~= done);
            if done.len() == 0 {
                assert(out@ =~= join_with(nd, ", "@));
            }
            assert(words_from(raw@, i as int) == seq![raw@.subrange(a as int, b as int)]
                + words_from(raw@, b as int));
            assert(nd + words_from(raw@, b as int) =~= done + words_from(raw@, i as int));
            done = nd;
        }
        i = b;
    }
    proof {
        assert(words_from(raw@, i as int) =~= Seq::<Seq<char>>::empty());
        assert(done =~= words_from(raw@, 0));
    }
    out
}

fn floor_exec(c: (u64, Option<u64>, Option<u64>)) -> (r: (u64, u64, u64))
    ensures
        r == floor_of(c),
{
    let minor = match c.1 {
        Some(m) => m,
        None => 0,
    };
    let patch = match c.2 {
        Some(p) => p,
        None => 0,
    };
    (c.0, minor, patch)
}

fn lowest_floor(cs: &Vec<(u64, Option<u64>, Option<u64>)>) -> (r: (u64, u64, u64))
    requires
        cs@.len() > 0,
    ensures
        r == min_floor(cs@),
{
    let mut m = floor_exec(cs[0]);
    let mut i: usize = 1;
    assert(cs@.take(1) =~= seq![cs@[0]]);
    while i < cs.len()
        invariant
            1 <= i <= cs@.len(),
            m == min_floor(cs@.take(i as int)),
        decreases cs@.len() - i,
    {
        let x = floor_exec(cs[i]);
        assert(cs@.take(i + 1).drop_last() =~= cs@.take(i as int));
        if x.0 < m.0 || (x.0 == m.0 && (x.1 < m.1 || (x.1 == m.1 && x.2 < m.2))) {
            m = x;
        }
        i = i + 1;
    }
    assert(cs@.take(i as int) =~= cs@);
    m
}

/// Decide whether a dependency constraint is outdated with respect to the
/// latest published version. Returns `None` when the constraint is
/// unparseable, unbounded (`any`, missing) or `latest` is not a version;
/// callers emit a diagnostic only on `Some(true)`.
pub fn is_outdated(constraint: Option<&str>, latest: &str) -> (r: Option<bool>)
    ensures
        r == outdated(
            match constraint {
                Some(c) => Some(c@),
                None => None,
            },
            latest@,
        ),
        constraint matches Some(c) && constraint_text(c@) == latest@ && semver_version_ok(latest@)
            && latest@.len() > 0 && latest@ != "any"@ ==> r == Some(false),
{
    if !version_ok(latest) {
        return None;
    }
    let c = match constraint {
        Some(c) => c,
        None => return None,
    };
    let cs = chars_of(c);
    let t = trimmed(cs.as_slice());
    let raw = strip_quotes_exec(t.as_slice());
    let any = chars_of("any");
    if raw.len() == 0 || crate::text::chars_eq(raw.as_slice(), any.as_slice()) {
        return None;
    }
    let raw_s = string_of(raw.as_slice());
    if version_ok(raw_s.as_str()) {
        return Some(version_gt(latest, raw_s.as_str()));
    }
    let req = comma_separated_exec(raw.as_slice());
    let req_s = string_of(req.as_slice());
    let comps = match req_comparators(req_s.as_str()) {
        Some(v) => v,
        None => return None,
    };
    if req_matches(req_s.as_str(), latest) {
        return Some(false);
    }
    if comps.len() == 0 {
        return None;
    }
    let f = lowest_floor(&comps);
    Some(version_gt_release(latest, f.0, f.1, f.2))
}


// ---------------------------------------------------------------------------
// Laws
// ---------------------------------------------------------------------------

/// Trimming drops only the whitespace around a text whose ends are not
/// whitespace.
proof fn lemma_trim_wrapped(t: Seq<char>, pre: Seq<char>, post: Seq<char>)
    requires
        forall|i: int| 0 <= i < pre.len() ==> is_ws(#[trigger] pre[i]),
        forall|i: int| 0 <= i < post.len() ==> is_ws(#[trigger] post[i]),
        t.len() > 0 ==> !is_ws(t[0]) && !is_ws(t.last()),
    ensures
        trim(pre + t + post) == t,
{
    let u = pre + t + post;
    if t.len() > 0 {
        assert forall|j: int| 0 <= j < pre.len() implies !in_class(CharClass::NotWhitespace, #[trigger] u[j]) by {
            assert(u[j] == pre[j]);
        }
        assert(u[pre.len() as int] == t[0]);
        lemma_first_from_unique(u, 0, pre.len() as int, CharClass::NotWhitespace);
        let v = u.skip(pre.len() as int);
        assert(v =~= t + post);
        assert(trim_start(u) == v);
        assert forall|j: int| t.len() - 1 < j < v.len() implies !in_class(CharClass::NotWhitespace, #[trigger] v[j]) by {
            assert(v[j] == post[j - t.len()]);
        }
        assert(v[t.len() - 1] == t.last());
        lemma_last_before_unique(v, v.len() as int, t.len() - 1, CharClass::NotWhitespace);
        assert(v.take(t.len() as int) =~= t);
    } else {
        assert forall|j: int| 0 <= j < u.len() implies !in_class(CharClass::NotWhitespace, #[trigger] u[j]) by {
            if j < pre.len() {
                assert(u[j] == pre[j]);
            } else {
                assert(u[j] == post[j - pre.len()]);
            }
        }
        lemma_first_from_unique(u, 0, u.len() as int, CharClass::NotWhitespace);
        let v = u.skip(u.len() as int);
        assert(v.len() == 0);
        assert(trim_end(v) =~= t);
    }
}

/// Stripping quotes drops only the quotes around a text whose ends are not
/// quotes.
proof fn lemma_strip_wrapped(t: Seq<char>, pre: Seq<char>, post: Seq<char>)
    requires
        forall|i: int| 0 <= i < pre.len() ==> #[trigger] pre[i] == '"' || pre[i] == '\'',
        forall|i: int| 0 <= i < post.len() ==> #[trigger] post[i] == '"' || post[i] == '\'',
        t.len() > 0 ==> !(t[0] == '"' || t[0] == '\'') && !(t.last() == '"' || t.last() == '\''),
    ensures
        strip_quotes(pre + t + post) == t,
{
    let u = pre + t + post;
    if t.len() > 0 {
        assert forall|j: int| 0 <= j < pre.len() implies !in_class(CharClass::NotQuote, #[trigger] u[j]) by {
            assert(u[j] == pre[j]);
        }
        assert(u[pre.len() as int] == t[0]);
        lemma_first_from_unique(u, 0, pre.len() as int, CharClass::NotQuote);
        let e = pre.len() + t.len() - 1;
        assert forall|j: int| e < j < u.len() implies !in_class(CharClass::NotQuote, #[trigger] u[j]) by {
            assert(u[j] == post[j - pre.len() - t.len()]);
        }
        assert(u[e] == t.last());
        lemma_last_before_unique(u, u.len() as int, e, CharClass::NotQuote);
        assert(u.subrange(pre.len() as int, e + 1) =~= t);
    } else {
        assert forall|j: int| 0 <= j < u.len() implies !in_class(CharClass::NotQuote, #[trigger] u[j]) by {
            if j < pre.len() {
                assert(u[j] == pre[j]);
            } else {
                assert(u[j] == post[j - pre.len()]);
            }
        }
        lemma_first_from_unique(u, 0, u.len() as int, CharClass::NotQuote);
    }
}

/// A trimmed text is empty or has no whitespace at its ends.
proof fn lemma_trimmed_ends(c: Seq<char>)
    requires
        trim(c) == c,
    ensures
        c.len() > 0 ==> !is_ws(c[0]) && !is_ws(c.last()),
{
    if c.len() > 0 {
        let f = first_from(c, 0, CharClass::NotWhitespace);
        lemma_first_from(c, 0, CharClass::NotWhitespace);
        let ts = trim_start(c);
        let b = last_before(ts, ts.len() as int, CharClass::NotWhitespace);
        lemma_last_before(ts, ts.len() as int, CharClass::NotWhitespace);
        assert(trim(c).len() == b + 1);
        assert(f == 0);
        assert(ts == c);
        assert(b == c.len() - 1);
    }
}

/// Quotes around a constraint do not matter: wrapped in double quotes, or
/// in single quotes with spaces around, a trimmed constraint that neither
/// starts nor ends with a quote is outdated exactly when it is bare.
pub proof fn law_quotes_do_not_matter(c: Seq<char>, latest: Seq<char>)
    requires
        trim(c) == c,
        c.len() > 0 ==> !(c[0] == '"' || c[0] == '\'') && !(c.last() == '"' || c.last() == '\''),
    ensures
        outdated(Some("\""@ + c + "\""@), latest) == outdated(Some(c), latest),
        outdated(Some(" '"@ + c + "' "@), latest) == outdated(Some(c), latest),
{
    reveal_strlit("\"");
    reveal_strlit(" '");
    reveal_strlit("' ");
    lemma_trimmed_ends(c);
    let e: Seq<char> = Seq::empty();
    // The bare constraint.
    assert(e + c + e =~= c);
    lemma_trim_wrapped(c, e, e);
    lemma_strip_wrapped(c, e, e);
    assert(constraint_text(c) == c);
    // In double quotes.
    let q = "\""@;
    assert(!is_ws(q[0]));
    lemma_trim_wrapped(q + c + q, e, e);
    assert(e + (q + c + q) + e =~= q + c + q);
    lemma_strip_wrapped(c, q, q);
    assert(constraint_text(q + c + q) == c);
    // In single quotes with spaces around.
    let a = " '"@;
    let b = "' "@;
    let sq = seq!['\''];
    let sp = seq![' '];
    assert(a =~= sp + sq);
    assert(b =~= sq + sp);
    assert(a + c + b =~= sp + (sq + c + sq) + sp);
    assert(!is_ws('\''));
    lemma_trim_wrapped(sq + c + sq, sp, sp);
    lemma_strip_wrapped(c, sq, sq);
    assert(constraint_text(a + c + b) == c);
}


proof fn lemma_min_floor_is_least(cs: Seq<(u64, Option<u64>, Option<u64>)>)
    requires
        cs.len() > 0,
    ensures
        exists|k: int| 0 <= k < cs.len() && #[trigger] floor_of(cs[k]) == min_floor(cs),
        forall|k: int| 0 <= k < cs.len() ==> !triple_lt(#[trigger] floor_of(cs[k]), min_floor(cs)),
    decreases cs.len(),
{
    if cs.len() > 1 {
        let d = cs.drop_last();
        lemma_min_floor_is_least(d);
        let kd = choose|k: int| 0 <= k < d.len() && #[trigger] floor_of(d[k]) == min_floor(d);
        assert(cs[kd] == d[kd]);
        assert(cs[cs.len() - 1] == cs.last());
        assert forall|k: int| 0 <= k < cs.len() implies !triple_lt(#[trigger] floor_of(cs[k]), min_floor(cs)) by {
            if k < cs.len() - 1 {
                assert(cs[k] == d[k]);
            }
        }
    } else {
        assert(floor_of(cs[0]) == min_floor(cs));
    }
}

/// A requirement that rejects `latest` is judged by its lowest floor: when
/// the constraint is neither empty, `any` nor a plain version, and its
/// requirement parses but does not admit `latest`, the constraint is
/// outdated exactly when `latest` is greater than the release version
/// `m` that is the floor of one of its comparators and no greater than the
/// floor of any of them (lexicographically by major, minor, patch).
pub proof fn law_rejecting_requirement_judged_by_lowest_floor(
    c: Seq<char>,
    latest: Seq<char>,
    cs: Seq<(u64, Option<u64>, Option<u64>)>,
    m: (u64, u64, u64),
)
    requires
        semver_version_ok(latest),
        constraint_text(c).len() > 0,
        constraint_text(c) != "any"@,
        !semver_version_ok(constraint_text(c)),
        semver_req(comma_separated(constraint_text(c))) == Some(cs),
        !semver_req_matches(comma_separated(constraint_text(c)), latest),
        exists|k: int| 0 <= k < cs.len() && #[trigger] floor_of(cs[k]) == m,
        forall|k: int|
            0 <= k < cs.len() ==> {
                let f = #[trigger] floor_of(cs[k]);
                m.0 < f.0 || (m.0 == f.0 && (m.1 < f.1 || (m.1 == f.1 && m.2 <= f.2)))
            },
    ensures
        outdated(Some(c), latest) == Some(semver_gt_release(latest, m.0, m.1, m.2)),
{
    let k0 = choose|k: int| 0 <= k < cs.len() && #[trigger] floor_of(cs[k]) == m;
    lemma_min_floor_is_least(cs);
    let mf = min_floor(cs);
    let k1 = choose|k: int| 0 <= k < cs.len() && #[trigger] floor_of(cs[k]) == mf;
    assert(!triple_lt(floor_of(cs[k0]), mf));
    let f1 = floor_of(cs[k1]);
    assert(m.0 < f1.0 || (m.0 == f1.0 && (m.1 < f1.1 || (m.1 == f1.1 && m.2 <= f1.2))));
    assert(mf == m);
}

} // verus!
