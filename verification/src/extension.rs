//! Where the editor extension finds the language server binary of a GitHub
//! release: the release target of a platform, the archive to download, and
//! the paths it unpacks to.
use vstd::prelude::*;

use crate::text::{chars_eq, chars_of, push_all, string_of};

verus! {

pub const SERVER_BINARY: &'static str = "pubspec-language-server";

pub const GITHUB_REPO: &'static str = "FrantisekGazo/pubspec-lsp";

#[derive(Debug, Clone, Copy, PartialEq, Eq, Structural)]
pub enum Os {
    Mac,
    Linux,
    Windows,
}

#[derive(Debug, Clone, Copy, PartialEq, Eq, Structural)]
pub enum Architecture {
    Aarch64,
    X86,
    X8664,
}

/// The release target triple built for a platform.
pub open spec fn target_spec(os: Os, arch: Architecture) -> Seq<char> {
    match (os, arch) {
        (Os::Mac, Architecture::Aarch64) => "aarch64-apple-darwin"@,
        (Os::Mac, _) => "x86_64-apple-darwin"@,
        (Os::Linux, Architecture::Aarch64) => "aarch64-unknown-linux-musl"@,
        (Os::Linux, _) => "x86_64-unknown-linux-musl"@,
        (Os::Windows, _) => "x86_64-pc-windows-msvc"@,
    }
}

/// The release archive of a platform (named as the release workflow names
/// them).
pub open spec fn asset_name_spec(os: Os, arch: Architecture) -> Seq<char> {
    "pubspec-language-server-"@ + target_spec(os, arch) + if os == Os::Windows {
        ".zip"@
    } else {
        ".tar.gz"@
    }
}

/// The directory a release is unpacked into.
pub open spec fn version_dir_spec(version: Seq<char>) -> Seq<char> {
    "pubspec-language-server-"@ + version
}

/// The server binary inside a release directory.
pub open spec fn binary_path_spec(os: Os, version: Seq<char>) -> Seq<char> {
    version_dir_spec(version) + "/pubspec-language-server"@ + if os == Os::Windows {
        ".exe"@
    } else {
        Seq::empty()
    }
}

/// The release target triple built for a platform.
pub fn release_target(os: Os, arch: Architecture) -> (r: &'static str)
    ensures
        r@ == target_spec(os, arch),
{
    match (os, arch) {
        (Os::Mac, Architecture::Aarch64) => "aarch64-apple-darwin",
        (Os::Mac, _) => "x86_64-apple-darwin",
        (Os::Linux, Architecture::Aarch64) => "aarch64-unknown-linux-musl",
        (Os::Linux, _) => "x86_64-unknown-linux-musl",
        (Os::Windows, _) => "x86_64-pc-windows-msvc",
    }
}

/// The release archive to download for a platform.
pub fn asset_name(os: Os, arch: Architecture) -> (r: String)
    ensures
        r@ == asset_name_spec(os, arch),
{
    let mut v = chars_of(SERVER_BINARY);
    push_all(&mut v, chars_of("-").as_slice());
    push_all(&mut v, chars_of(release_target(os, arch)).as_slice());
    let ext = match os {
        Os::Windows => "zip",
        _ => "tar.gz",
    };
    push_all(&mut v, chars_of(".").as_slice());
    push_all(&mut v, chars_of(ext).as_slice());
    proof {
        reveal_strlit("pubspec-language-server");
        reveal_strlit("-");
        reveal_strlit("pubspec-language-server-");
        reveal_strlit(".");
        reveal_strlit("zip");
        reveal_strlit(".zip");
        reveal_strlit("tar.gz");
        reveal_strlit(".tar.gz");
        assert(v@ =~= asset_name_spec(os, arch));
    }
    string_of(v.as_slice())
}

/// The directory a release is unpacked into.
pub fn version_dir(version: &str) -> (r: String)
    ensures
        r@ == version_dir_spec(version@),
{
    let mut v = chars_of(SERVER_BINARY);
    push_all(&mut v, chars_of("-").as_slice());
    push_all(&mut v, chars_of(version).as_slice());
    proof {
        reveal_strlit("pubspec-language-server");
        reveal_strlit("-");
        reveal_strlit("pubspec-language-server-");
        assert(v@ =~= version_dir_spec(version@));
    }
    string_of(v.as_slice())
}

/// The server binary inside a release directory.
pub fn binary_path(os: Os, version: &str) -> (r: String)
    ensures
        r@ == binary_path_spec(os, version@),
{
    let mut v = chars_of(version_dir(version).as_str());
    push_all(&mut v, chars_of("/").as_slice());
    push_all(&mut v, chars_of(SERVER_BINARY).as_slice());
    if os == Os::Windows {
        push_all(&mut v, chars_of(".exe").as_slice());
    }
    proof {
        reveal_strlit("pubspec-language-server");
        reveal_strlit("/");
        reveal_strlit("/pubspec-language-server");
        assert(v@ =~= binary_path_spec(os, version@));
    }
    string_of(v.as_slice())
}

/// Index of the first asset with the wanted name, or -1.
pub open spec fn first_named(names: Seq<Seq<char>>, wanted: Seq<char>) -> int
    decreases names.len(),
{
    if names.len() == 0 {
        -1
    } else {
        let r = first_named(names.drop_last(), wanted);
        if r >= 0 {
            r
        } else if names.last() == wanted {
            names.len() - 1
        } else {
            -1
        }
    }
}

proof fn lemma_first_named_prefix(names: Seq<Seq<char>>, n: int, wanted: Seq<char>)
    requires
        0 <= n <= names.len(),
        first_named(names.take(n), wanted) >= 0,
    ensures
        first_named(names, wanted) == first_named(names.take(n), wanted),
    decreases names.len() - n,
{
    if n < names.len() {
        assert(names.take(n + 1).drop_last() =~= names.take(n));
        lemma_first_named_prefix(names, n + 1, wanted);
    } else {
        assert(names.take(n) =~= names);
    }
}

/// The release asset with the given name, if the release has one.
pub fn find_asset(asset_names: &[String], wanted: &str) -> (r: Option<usize>)
    ensures
        match r {
            Some(i) => first_named(asset_names@.map_values(|s: String| s@), wanted@) == i as int,
            None => first_named(asset_names@.map_values(|s: String| s@), wanted@) == -1,
        },
{
    let ghost nv = asset_names@.map_values(|s: String| s@);
    let w = chars_of(wanted);
    let mut i: usize = 0;
    while i < asset_names.len()
        invariant
            i <= asset_names@.len(),
            nv == asset_names@.map_values(|s: String| s@),
            w@ == wanted@,
            first_named(nv.take(i as int), wanted@) == -1,
        decreases asset_names@.len() - i,
    {
        assert(nv.take(i + 1).drop_last() =~= nv.take(i as int));
        if chars_eq(chars_of(asset_names[i].as_str()).as_slice(), w.as_slice()) {
            proof {
                lemma_first_named_prefix(nv, i as int + 1, wanted@);
            }
            return Some(i);
        }
        i = i + 1;
    }
    assert(nv.take(i as int) =~= nv);
    None
}

/// Whether a directory entry is a stale release directory: anything but the
/// current release's directory.
pub fn is_stale_entry(entry_name: &str, current_dir: &str) -> (r: bool)
    ensures
        r == (entry_name@ != current_dir@),
{
    !chars_eq(chars_of(entry_name).as_slice(), chars_of(current_dir).as_slice())
}

/// Where the language server binary comes from.
#[derive(Debug, Clone, PartialEq, Eq)]
pub enum BinarySource {
    /// The path set in the editor's settings.
    Settings(String),
    /// A binary found on the `PATH`.
    OnPath(String),
    /// The binary downloaded before, still on disk.
    Cached(String),
    /// None of these: download the latest release.
    Release,
}

fn copy_str(s: &str) -> (r: String)
    ensures
        r@ == s@,
{
    s.to_owned()
}

/// The binary to run, in the order of precedence: the settings' path, then
/// a binary on the `PATH`, then the binary downloaded before when it is
/// still a file, and only then the latest GitHub release.
pub fn resolve_binary(
    settings_path: Option<&str>,
    on_path: Option<&str>,
    cached: Option<&str>,
    cached_is_file: bool,
) -> (r: BinarySource)
    ensures
        match r {
            BinarySource::Settings(p) => settings_path matches Some(s) && p@ == s@,
            BinarySource::OnPath(p) => settings_path is None && (on_path matches Some(s) && p@ == s@),
            BinarySource::Cached(p) => settings_path is None && on_path is None && cached_is_file && (
            cached matches Some(c) && p@ == c@),
            BinarySource::Release => settings_path is None && on_path is None && !(cached is Some
                && cached_is_file),
        },
{
    if let Some(s) = settings_path {
        return BinarySource::Settings(copy_str(s));
    }
    if let Some(s) = on_path {
        return BinarySource::OnPath(copy_str(s));
    }
    if let Some(c) = cached {
        if cached_is_file {
            return BinarySource::Cached(copy_str(c));
        }
    }
    BinarySource::Release
}

/// The message when a release lacks the platform's archive.
pub open spec fn missing_asset_message(version: Seq<char>, os: Os, arch: Architecture) -> Seq<char> {
    "release "@ + version + " has no asset "@ + asset_name_spec(os, arch)
}

/// What to do with the latest release `version`, whose assets are named
/// `asset_names`: the index of the platform's archive, the path of the
/// binary it unpacks to, and whether to download it (only when that binary
/// is not there yet). An error when the release has no archive for the
/// platform.
pub fn release_plan(
    os: Os,
    arch: Architecture,
    version: &str,
    asset_names: &[String],
    binary_exists: bool,
) -> (r: Result<(usize, String, bool), String>)
    ensures
        match r {
            Ok((i, p, dl)) => i as int == first_named(
                asset_names@.map_values(|s: String| s@),
                asset_name_spec(os, arch),
            ) && p@ == binary_path_spec(os, version@) && dl == !binary_exists,
            Err(e) => first_named(asset_names@.map_values(|s: String| s@), asset_name_spec(os, arch))
                == -1 && e@ == missing_asset_message(version@, os, arch),
        },
{
    let wanted = asset_name(os, arch);
    match find_asset(asset_names, wanted.as_str()) {
        Some(i) => Ok((i, binary_path(os, version), !binary_exists)),
        None => {
            let mut v = chars_of("release ");
            push_all(&mut v, chars_of(version).as_slice());
            push_all(&mut v, chars_of(" has no asset ").as_slice());
            push_all(&mut v, chars_of(wanted.as_str()).as_slice());
            assert(v@ =~= missing_asset_message(version@, os, arch));
            Err(string_of(v.as_slice()))
        },
    }
}

} // verus!
