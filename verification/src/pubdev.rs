//! Package metadata from pub.dev, as the rest of the library reads it.
//!
//! Fetching and caching are the server's I/O; this module holds the data and
//! what is derived from it without I/O.
use vstd::prelude::*;

use crate::text::{chars_of, push_all, string_of, trim, trimmed};

verus! {

pub const PUB_DEV_URL: &'static str = "https://pub.dev";

/// One published version of a package.
#[derive(Debug, Clone)]
pub struct VersionEntry {
    pub version: String,
    pub retracted: bool,
}

/// What the server knows of a package.
#[derive(Debug, Clone)]
pub struct PackageInfo {
    pub name: String,
    pub description: Option<String>,
    pub latest: String,
    /// All published versions, in API order (oldest first).
    pub versions: Vec<VersionEntry>,
    pub is_discontinued: bool,
    pub replaced_by: Option<String>,
}

/// The pub.dev page of a package.
pub open spec fn package_url(name: Seq<char>) -> Seq<char> {
    "https://pub.dev/packages/"@ + name
}

impl PackageInfo {
    /// The package's page on pub.dev.
    pub fn pub_dev_url(&self) -> (r: String)
        ensures
            r@ == package_url(self.name@),
    {
        let mut v = chars_of("https://pub.dev/packages/");
        push_all(&mut v, chars_of(self.name.as_str()).as_slice());
        string_of(v.as_slice())
    }
}

/// The description a package's latest pubspec gives: trimmed, and absent
/// when blank.
pub open spec fn description_spec(raw: Option<Seq<char>>) -> Option<Seq<char>> {
    match raw {
        Some(d) => if trim(d).len() > 0 {
            Some(trim(d))
        } else {
            None
        },
        None => None,
    }
}

/// The description of a package from the `description` string of its
/// latest pubspec, if it has one.
pub fn description_from(raw: Option<&str>) -> (r: Option<String>)
    ensures
        match r {
            Some(d) => description_spec(
                match raw {
                    Some(s) => Some(s@),
                    None => None,
                },
            ) == Some(d@),
            None => description_spec(
                match raw {
                    Some(s) => Some(s@),
                    None => None,
                },
            ) is None,
        },
{
    match raw {
        Some(s) => {
            let t = trimmed(chars_of(s).as_slice());
            if t.len() > 0 {
                Some(string_of(t.as_slice()))
            } else {
                None
            }
        },
        None => None,
    }
}

/// How long the package-name list stays fresh, in seconds: pub.dev asks
/// clients to cache it for 8 hours.
pub const NAME_LIST_TTL_SECS: u64 = 28800;

/// How long package metadata is cached, in seconds.
pub const PACKAGE_TTL_SECS: u64 = 900;

/// How many packages' metadata is cached at most.
pub const PACKAGE_CACHE_CAPACITY: u64 = 2048;

/// How many metadata requests a diagnostics run makes at once.
pub const MAX_CONCURRENT_FETCHES: usize = 8;

/// A name list fetched `age_secs` seconds ago may be served without a
/// refresh.
pub open spec fn name_list_is_fresh_spec(age_secs: u64) -> bool {
    age_secs < NAME_LIST_TTL_SECS
}

/// Whether a name list fetched `age_secs` seconds ago may be served
/// without a refresh.
pub fn name_list_is_fresh(age_secs: u64) -> (r: bool)
    ensures
        r == name_list_is_fresh_spec(age_secs),
{
    age_secs < NAME_LIST_TTL_SECS
}

/// The age to record for a name list read from disk: its real age, but at
/// most twice the freshness period, so a stale copy is served while a
/// refresh is tried.
pub fn disk_list_age(age_secs: u64) -> (r: u64)
    ensures
        r == if age_secs < 2 * NAME_LIST_TTL_SECS { age_secs } else { (2 * NAME_LIST_TTL_SECS) as u64 },
        r >= NAME_LIST_TTL_SECS <==> !name_list_is_fresh_spec(age_secs),
{
    if age_secs < 2 * NAME_LIST_TTL_SECS {
        age_secs
    } else {
        2 * NAME_LIST_TTL_SECS
    }
}

/// What a request for the package-name list does first.
#[derive(Debug, Clone, Copy, PartialEq, Eq, Structural)]
pub enum NamesPlan {
    /// Serve the list held in memory.
    ServeMemory,
    /// Nothing is held yet: read the copy on disk.
    ReadDisk,
    /// Fetch a fresh list from pub.dev.
    Fetch,
}

/// The first step for a name-list request, from the age of the list held in
/// memory (`None` when none is held): a fresh list is served, a stale one
/// is refreshed, and without one the disk copy is read first.
pub fn names_plan(memory_age_secs: Option<u64>) -> (r: NamesPlan)
    ensures
        r == match memory_age_secs {
            Some(a) => if name_list_is_fresh_spec(a) {
                NamesPlan::ServeMemory
            } else {
                NamesPlan::Fetch
            },
            None => NamesPlan::ReadDisk,
        },
{
    match memory_age_secs {
        Some(a) => if name_list_is_fresh(a) {
            NamesPlan::ServeMemory
        } else {
            NamesPlan::Fetch
        },
        None => NamesPlan::ReadDisk,
    }
}

/// After reading the disk copy (`None` when there is none or it cannot be
/// read): whether to serve it without a fetch, which is when it is fresh.
pub fn names_after_disk(disk_age_secs: Option<u64>) -> (serve: bool)
    ensures
        serve == (disk_age_secs matches Some(d) && name_list_is_fresh_spec(d)),
{
    match disk_age_secs {
        Some(d) => name_list_is_fresh(d),
        None => false,
    }
}

/// What a name-list request serves after a fetch: the fetched list, or,
/// when the fetch failed, whatever list is held, however stale (offline,
/// completions keep working once a list was fetched).
pub fn names_after_fetch(fetched: Option<Vec<String>>, held: Option<Vec<String>>) -> (r: Option<Vec<String>>)
    ensures
        r is Some == (fetched is Some || held is Some),
        fetched matches Some(f) ==> r == Some(f),
        fetched is None ==> r == held,
{
    match fetched {
        Some(f) => Some(f),
        None => held,
    }
}

} // verus!
