//! Watching database files: the header information last scanned for every file,
//! and when a new scan replaces it.
use dashmap::DashMap;
use vstd::prelude::*;

use crate::defines::DbPageBasicInfo;

verus! {

#[verifier::external_type_specification]
#[verifier::external_body]
#[verifier::reject_recursive_types(K)]
#[verifier::reject_recursive_types(V)]
#[verifier::reject_recursive_types(S)]
pub struct ExDashMap<K, V, S>(DashMap<K, V, S>);

/// File path → header information of the last scan.
pub type HeaderMap = DashMap<String, DbPageBasicInfo>;

/// What a header map holds.
pub uninterp spec fn header_map(m: HeaderMap) -> Map<Seq<char>, DbPageBasicInfo>;

/// No file known.
pub open spec fn no_headers() -> Map<Seq<char>, DbPageBasicInfo> {
    Map::empty()
}

/// `dashmap::DashMap::new`: a map without entries.
#[verifier::external_body]
fn headers_new() -> (r: HeaderMap)
    ensures
        header_map(r) == no_headers(),
{
    DashMap::new()
}

/// `dashmap::DashMap::get`, the entry copied out: the value stored under `key`,
/// `None` when there is none.
#[verifier::external_body]
fn headers_get(m: &HeaderMap, key: &String) -> (r: Option<DbPageBasicInfo>)
    ensures
        header_map(*m).contains_key(key@) ==> r == Some(header_map(*m)[key@]),
        !header_map(*m).contains_key(key@) ==> r is None,
{
    m.get(key).map(|entry| *entry)
}

/// `dashmap::DashMap::insert`: `key` maps to `value` afterwards, every other key
/// keeps its entry.
#[verifier::external_body]
fn headers_insert(m: &mut HeaderMap, key: String, value: DbPageBasicInfo)
    ensures
        header_map(*final(m)) == header_map(*old(m)).insert(key@, value),
{
    m.insert(key, value);
}

/// A new scan of a file is news unless the file was scanned before with the same
/// header page number.
pub open spec fn header_is_news(known: Map<Seq<char>, DbPageBasicInfo>, path: Seq<char>, info: DbPageBasicInfo) -> bool {
    !(known.contains_key(path) && known[path].pdms_header.page_no == info.pdms_header.page_no)
}

/// The directories watched and the header information last scanned for every file
/// under them.
pub struct PdmsWatcher {
    pub watch_dirs: Vec<String>,
    pub headers: HeaderMap,
}

impl PdmsWatcher {
    /// A watcher of the given directories that knows no file yet.
    pub fn new(dirs: Vec<String>) -> (r: PdmsWatcher)
        ensures
            r.watch_dirs@ == dirs@,
            header_map(r.headers) == no_headers(),
    {
        PdmsWatcher { watch_dirs: dirs, headers: headers_new() }
    }

    /// The header information last recorded for `path`.
    pub fn header_of(&self, path: &String) -> (r: Option<DbPageBasicInfo>)
        ensures
            header_map(self.headers).contains_key(path@) ==> r == Some(header_map(self.headers)[path@]),
            !header_map(self.headers).contains_key(path@) ==> r is None,
    {
        headers_get(&self.headers, path)
    }

    /// Records a scan of `path`: it replaces the known header information unless the
    /// header page number is unchanged (see `header_is_news`). Returns whether it did.
    pub fn record_header(&mut self, path: String, basic_info: DbPageBasicInfo) -> (r: bool)
        ensures
            final(self).watch_dirs@ == old(self).watch_dirs@,
            r == header_is_news(header_map(old(self).headers), path@, basic_info),
            r ==> header_map(final(self).headers) == header_map(old(self).headers).insert(path@, basic_info),
            !r ==> header_map(final(self).headers) == header_map(old(self).headers),
    {
        match headers_get(&self.headers, &path) {
            Some(old) => {
                if old.pdms_header.page_no == basic_info.pdms_header.page_no {
                    return false;
                }
            },
            None => {},
        }
        headers_insert(&mut self.headers, path, basic_info);
        true
    }
}


/// A scan of a file right after a scan with the same header page number is no news:
/// the record of an unchanged file is never replaced.
pub proof fn law_rescan_without_change_is_no_news(
    known: Map<Seq<char>, DbPageBasicInfo>,
    path: Seq<char>,
    first: DbPageBasicInfo,
    second: DbPageBasicInfo,
)
    requires
        first.pdms_header.page_no == second.pdms_header.page_no,
    ensures
        !header_is_news(known.insert(path, first), path, second),
{
}

} // verus!
