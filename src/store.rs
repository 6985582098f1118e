//! The concurrent maps the index keeps its state in, each given a contract
//! over what it holds.

use vstd::prelude::*;

use dashmap::DashMap;

use crate::pattern::GlobPattern;

verus! {

/// A concurrent hash map, held opaque; what it holds is named below for each
/// use of it.
#[verifier::external_type_specification]
#[verifier::external_body]
#[verifier::reject_recursive_types(K)]
#[verifier::reject_recursive_types(V)]
#[verifier::reject_recursive_types(S)]
pub struct ExDashMap<K, V, S>(DashMap<K, V, S>);

/// Metadata of one path: size in bytes, modification time in nanoseconds
/// since the Unix epoch, whether it is a directory, and whether its first
/// bytes look binary.
#[derive(Clone, Copy, Debug, PartialEq, Eq)]
pub struct FileMetadata {
    pub size: u64,
    pub mtime_ns: u64,
    pub is_dir: bool,
    pub is_binary: bool,
}

/// What an entry map holds: path to metadata.
pub uninterp spec fn entry_map(m: DashMap<String, FileMetadata>) -> Map<Seq<char>, FileMetadata>;

/// What a children map holds: directory to the paths recorded below it.
pub uninterp spec fn children_map(m: DashMap<String, Vec<String>>) -> Map<Seq<char>, Seq<String>>;

/// What a glob cache holds: pattern text to compiled pattern.
pub uninterp spec fn glob_map(m: DashMap<String, GlobPattern>) -> Map<Seq<char>, GlobPattern>;

// Entry map.

/// Relies on DashMap::new: an empty map.
#[verifier::external_body]
pub(crate) fn entries_new() -> (r: DashMap<String, FileMetadata>)
    ensures
        entry_map(r).dom() == Set::<Seq<char>>::empty(),
{
    DashMap::new()
}

/// Relies on DashMap::clear: every entry removed.
#[verifier::external_body]
pub(crate) fn entries_clear(m: &mut DashMap<String, FileMetadata>)
    ensures
        entry_map(*final(m)).dom() == Set::<Seq<char>>::empty(),
{
    m.clear()
}

/// Relies on DashMap::insert: the key now maps to the value, the rest unchanged.
#[verifier::external_body]
pub(crate) fn entries_insert(m: &mut DashMap<String, FileMetadata>, k: String, v: FileMetadata)
    ensures
        entry_map(*final(m)) == entry_map(*old(m)).insert(k@, v),
{
    m.insert(k, v);
}

/// Relies on DashMap::get: the value for the key, copied out, if there is one.
#[verifier::external_body]
pub(crate) fn entries_get(m: &DashMap<String, FileMetadata>, k: &str) -> (r: Option<FileMetadata>)
    ensures
        r == (if entry_map(*m).contains_key(k@) {
            Some(entry_map(*m)[k@])
        } else {
            None
        }),
{
    m.get(k).map(|e| *e.value())
}

/// Relies on DashMap::remove: the key no longer maps to anything; its value,
/// if it had one, is returned.
#[verifier::external_body]
pub(crate) fn entries_remove(m: &mut DashMap<String, FileMetadata>, k: &str) -> (r: Option<FileMetadata>)
    ensures
        entry_map(*final(m)) == entry_map(*old(m)).remove(k@),
        r == (if entry_map(*old(m)).contains_key(k@) {
            Some(entry_map(*old(m))[k@])
        } else {
            None
        }),
{
    m.remove(k).map(|(_, v)| v)
}

/// Relies on DashMap::len: the number of entries.
#[verifier::external_body]
pub(crate) fn entries_len(m: &DashMap<String, FileMetadata>) -> (r: usize)
    ensures
        r == entry_map(*m).len(),
{
    m.len()
}

/// Relies on DashMap::iter: every key once, in the map's own order.
#[verifier::external_body]
pub(crate) fn entries_keys(m: &DashMap<String, FileMetadata>) -> (r: Vec<String>)
    ensures
        forall|i: int, j: int| 0 <= i < j < r@.len() ==> r@[i]@ != r@[j]@,
        forall|i: int| 0 <= i < r@.len() ==> entry_map(*m).contains_key(#[trigger] r@[i]@),
        forall|k: Seq<char>|
            entry_map(*m).contains_key(k) ==> exists|i: int| 0 <= i < r@.len() && #[trigger] r@[i]@ == k,
{
    m.iter().map(|e| e.key().clone()).collect()
}

// Children map.

/// Relies on DashMap::new: an empty map.
#[verifier::external_body]
pub(crate) fn children_new() -> (r: DashMap<String, Vec<String>>)
    ensures
        children_map(r).dom() == Set::<Seq<char>>::empty(),
{
    DashMap::new()
}

/// Relies on DashMap::clear: every entry removed.
#[verifier::external_body]
pub(crate) fn children_clear(m: &mut DashMap<String, Vec<String>>)
    ensures
        children_map(*final(m)).dom() == Set::<Seq<char>>::empty(),
{
    m.clear()
}

/// Relies on DashMap::get: a copy of the list for the key, if there is one.
#[verifier::external_body]
pub(crate) fn children_get(m: &DashMap<String, Vec<String>>, k: &str) -> (r: Option<Vec<String>>)
    ensures
        match r {
            Some(v) => children_map(*m).contains_key(k@) && v@ == children_map(*m)[k@],
            None => !children_map(*m).contains_key(k@),
        },
{
    m.get(k).map(|e| e.value().clone())
}

/// Relies on DashMap::insert: the key now maps to the list, the rest unchanged.
#[verifier::external_body]
pub(crate) fn children_insert(m: &mut DashMap<String, Vec<String>>, k: String, v: Vec<String>)
    ensures
        children_map(*final(m)) == children_map(*old(m)).insert(k@, v@),
{
    m.insert(k, v);
}

/// Relies on DashMap::remove: the key no longer maps to anything.
#[verifier::external_body]
pub(crate) fn children_remove(m: &mut DashMap<String, Vec<String>>, k: &str)
    ensures
        children_map(*final(m)) == children_map(*old(m)).remove(k@),
{
    m.remove(k);
}

// Glob cache.

/// Relies on DashMap::with_capacity: an empty map.
#[verifier::external_body]
pub(crate) fn globs_with_capacity(capacity: usize) -> (r: DashMap<String, GlobPattern>)
    ensures
        glob_map(r).dom() == Set::<Seq<char>>::empty(),
{
    DashMap::with_capacity(capacity)
}

/// Relies on DashMap::get: a copy of the compiled pattern for the key, if there is one.
#[verifier::external_body]
pub(crate) fn globs_get(m: &DashMap<String, GlobPattern>, k: &str) -> (r: Option<GlobPattern>)
    ensures
        match r {
            Some(g) => glob_map(*m).contains_key(k@) && g.pattern() == glob_map(*m)[k@].pattern(),
            None => !glob_map(*m).contains_key(k@),
        },
{
    m.get(k).map(|e| e.value().duplicate())
}

/// Relies on DashMap::insert: the key now maps to the compiled pattern.
#[verifier::external_body]
pub(crate) fn globs_insert(m: &mut DashMap<String, GlobPattern>, k: String, v: GlobPattern)
    ensures
        glob_map(*final(m)) == glob_map(*old(m)).insert(k@, v),
{
    m.insert(k, v);
}

/// Relies on DashMap::remove: the key no longer maps to anything.
#[verifier::external_body]
pub(crate) fn globs_remove(m: &mut DashMap<String, GlobPattern>, k: &str)
    ensures
        glob_map(*final(m)) == glob_map(*old(m)).remove(k@),
{
    m.remove(k);
}

/// Relies on DashMap::len: the number of entries.
#[verifier::external_body]
pub(crate) fn globs_len(m: &DashMap<String, GlobPattern>) -> (r: usize)
    ensures
        r == glob_map(*m).len(),
{
    m.len()
}

/// Relies on DashMap::iter: the first key it yields, which is some key of a
/// map that holds any.
#[verifier::external_body]
pub(crate) fn globs_first_key(m: &DashMap<String, GlobPattern>) -> (r: Option<String>)
    ensures
        match r {
            Some(k) => glob_map(*m).contains_key(k@),
            None => glob_map(*m).dom() == Set::<Seq<char>>::empty(),
        },
{
    m.iter().next().map(|e| e.key().clone())
}

} // verus!
