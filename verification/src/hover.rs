//! Hover on a package name: description, latest version, pub.dev link.
//!
//! The server fetches the package metadata; which entry is hovered and what
//! is shown is here.
use vstd::prelude::*;

use crate::lsp::{Position, Range};
use crate::pubdev::{package_url, PackageInfo};
use crate::pubspec::{entry_at_spec, entry_model, lemma_entry_at, DepEntry, DepSource, PubspecModel, SourceModel};
use crate::text::{chars_of, push_all, string_of};

verus! {

/// Hover contents (Markdown) and the range they are about.
#[derive(Debug, Clone)]
pub struct Hover {
    pub markdown: String,
    pub range: Option<Range>,
}

/// The hovered entry: the one whose name is under `pos`, unless it is of
/// unknown shape. Git, path and SDK dependencies take part in hover too:
/// they often share a name with a published package.
pub open spec fn hover_target_spec(model: PubspecModel, pos: Position) -> Option<(int, int)> {
    match entry_at_spec(model.view(), pos) {
        Some((i, j)) => match model.view()[i].entries[j].source {
            SourceModel::Unknown => None,
            _ => Some((i, j)),
        },
        None => None,
    }
}

/// The entry to show pub.dev information for at `pos`.
pub fn hover_target(model: &PubspecModel, pos: Position) -> (r: Option<&DepEntry>)
    ensures
        match (r, hover_target_spec(*model, pos)) {
            (Some(e), Some((i, j))) => *e == model.sections@[i].entries@[j],
            (None, None) => true,
            _ => false,
        },
{
    proof {
        lemma_entry_at(model.view(), pos);
    }
    let (section, entry) = match model.entry_at(pos) {
        Some(p) => p,
        None => return None,
    };
    let ghost ij = entry_at_spec(model.view(), pos).unwrap();
    assert(model.view()[ij.0].entries[ij.1] == entry_model(*entry));
    match entry.source {
        DepSource::Unknown => None,
        _ => Some(entry),
    }
}

/// The Markdown shown for a package.
pub open spec fn hover_markdown(
    name: Seq<char>,
    description: Option<Seq<char>>,
    latest: Seq<char>,
    is_discontinued: bool,
    replaced_by: Option<Seq<char>>,
) -> Seq<char> {
    let head = "**"@ + name + "**"@;
    let desc = match description {
        Some(d) => " — "@ + d,
        None => Seq::empty(),
    };
    let body = "\n\nLatest: `"@ + latest + "` · [pub.dev]("@ + package_url(name) + ")"@;
    let disc = if is_discontinued {
        "\n\n⚠️ **Discontinued**"@ + match replaced_by {
            Some(r) => " — replaced by ["@ + r + "]("@ + package_url(r) + ")"@,
            None => Seq::empty(),
        }
    } else {
        Seq::empty()
    };
    head + desc + body + disc
}

fn url_chars(name: &str) -> (r: Vec<char>)
    ensures
        r@ == package_url(name@),
{
    let mut v = chars_of("https://pub.dev/packages/");
    push_all(&mut v, chars_of(name).as_slice());
    v
}

/// The hover for a package's metadata over `range`.
pub fn hover_content(info: &PackageInfo, range: Range) -> (r: Hover)
    ensures
        r.markdown@ == hover_markdown(
            info.name@,
            match info.description {
                Some(d) => Some(d@),
                None => None,
            },
            info.latest@,
            info.is_discontinued,
            match info.replaced_by {
                Some(d) => Some(d@),
                None => None,
            },
        ),
        r.range == Some(range),
{
    let name = info.name.as_str();
    let mut md = chars_of("**");
    push_all(&mut md, chars_of(name).as_slice());
    push_all(&mut md, chars_of("**").as_slice());
    let ghost head = md@;
    if let Some(description) = &info.description {
        push_all(&mut md, chars_of(" — ").as_slice());
        push_all(&mut md, chars_of(description.as_str()).as_slice());
    }
    let ghost with_desc = md@;
    let mut body = chars_of("\n\nLatest: `");
    push_all(&mut body, chars_of(info.latest.as_str()).as_slice());
    push_all(&mut body, chars_of("` · [pub.dev](").as_slice());
    push_all(&mut body, url_chars(name).as_slice());
    push_all(&mut body, chars_of(")").as_slice());
    push_all(&mut md, body.as_slice());
    let ghost with_body = md@;
    let mut disc: Vec<char> = Vec::new();
    if info.is_discontinued {
        push_all(&mut disc, chars_of("\n\n⚠️ **Discontinued**").as_slice());
        if let Some(replacement) = &info.replaced_by {
            push_all(&mut disc, chars_of(" — replaced by [").as_slice());
            push_all(&mut disc, chars_of(replacement.as_str()).as_slice());
            push_all(&mut disc, chars_of("](").as_slice());
            push_all(&mut disc, url_chars(replacement.as_str()).as_slice());
            push_all(&mut disc, chars_of(")").as_slice());
        }
    }
    push_all(&mut md, disc.as_slice());
    Hover { markdown: string_of(md.as_slice()), range: Some(range) }
}

} // verus!
