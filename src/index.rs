//! The in-memory file index: metadata per path, the children recorded under
//! each directory, the ordered list of files, readiness, and a bounded cache
//! of compiled globs.

use vstd::prelude::*;

use dashmap::DashMap;
use rayon::iter::{IntoParallelRefIterator, ParallelIterator};

use crate::error::AgentGearError;
use crate::paths::{parent_of, parent_path, relative_path, relative_to};
use crate::pattern::{glob_accepts, glob_depth, glob_depth_ok, glob_matches, GlobPattern, MAX_GLOB_DEPTH};
use crate::store::{
    children_clear, children_get, children_insert, children_map, children_new, children_remove,
    entries_clear, entries_get, entries_insert, entries_keys, entries_len, entries_new, entries_remove,
    entry_map,
    glob_map, globs_first_key, globs_get, globs_insert, globs_len, globs_remove, globs_with_capacity,
    FileMetadata,
};
use crate::text::chars_of;
use crate::watcher::{ChangeKind, FileChange};

verus! {

/// The most compiled globs the cache keeps.
pub const GLOB_CACHE_SIZE: usize = 128;

/// From this many files on, queries share the files out among threads.
pub const PARALLEL_ITER_THRESHOLD: usize = 500;

/// One entry of a directory walk: a path below the root and its metadata.
#[derive(Clone, Debug)]
pub struct WalkEntry {
    pub path: String,
    pub metadata: FileMetadata,
}

/// The index's contents: metadata per path, the list of files, and the
/// children recorded per directory.
pub type IndexState = (Map<Seq<char>, FileMetadata>, Seq<String>, Map<Seq<char>, Seq<String>>);

/// The views of some strings.
pub open spec fn path_views(v: Seq<String>) -> Seq<Seq<char>> {
    v.map_values(|s: String| s@)
}

/// No two of the strings are equal.
pub open spec fn distinct_paths(v: Seq<String>) -> bool {
    forall|i: int, j: int| 0 <= i < v.len() && 0 <= j < v.len() && i != j ==> v[i]@ != v[j]@
}

/// Some string of `v` is `p`.
pub open spec fn lists(v: Seq<String>, p: Seq<char>) -> bool {
    exists|i: int| 0 <= i < v.len() && v[i]@ == p
}

/// `files` lists exactly the entries that are not directories, each once.
pub open spec fn files_agree(entries: Map<Seq<char>, FileMetadata>, files: Seq<String>) -> bool {
    &&& distinct_paths(files)
    &&& forall|i: int|
        0 <= i < files.len() ==> entries.contains_key(#[trigger] files[i]@) && !entries[files[i]@].is_dir
    &&& forall|p: Seq<char>| entries.contains_key(p) && !entries[p].is_dir ==> lists(files, p)
}

/// `keys` names every key of `entries` once, and nothing else.
pub open spec fn lists_exactly(keys: Seq<String>, entries: Map<Seq<char>, FileMetadata>) -> bool {
    &&& distinct_paths(keys)
    &&& forall|i: int| 0 <= i < keys.len() ==> entries.contains_key(#[trigger] keys[i]@)
    &&& forall|k: Seq<char>| #[trigger] entries.contains_key(k) ==> lists(keys, k)
}

/// `v` without the strings equal to `p`.
pub open spec fn without_path(v: Seq<String>, p: Seq<char>) -> Seq<String> {
    v.filter(|s: String| s@ != p)
}

/// The file list after `p` is recorded as a directory or as a file.
pub open spec fn files_synced(files: Seq<String>, p: String, is_dir: bool) -> Seq<String> {
    if is_dir {
        without_path(files, p@)
    } else if lists(files, p@) {
        files
    } else {
        files.push(p)
    }
}

/// The children after `p` is recorded below its parent directory.
pub open spec fn child_added(children: Map<Seq<char>, Seq<String>>, p: String) -> Map<
    Seq<char>,
    Seq<String>,
> {
    match parent_of(p@) {
        Some(d) => children.insert(
            d,
            (if children.contains_key(d) {
                children[d]
            } else {
                Seq::<String>::empty()
            }).push(p),
        ),
        None => children,
    }
}

/// The children after `p` is taken out of its parent's list and its own list
/// is dropped.
pub open spec fn child_removed(children: Map<Seq<char>, Seq<String>>, p: Seq<char>) -> Map<
    Seq<char>,
    Seq<String>,
> {
    let trimmed = match parent_of(p) {
        Some(d) => if children.contains_key(d) {
            children.insert(d, without_path(children[d], p))
        } else {
            children
        },
        None => children,
    };
    trimmed.remove(p)
}

/// The contents after `p` is added with metadata `m`.
pub open spec fn path_added(st: IndexState, p: String, m: FileMetadata) -> IndexState {
    (st.0.insert(p@, m), files_synced(st.1, p, m.is_dir), child_added(st.2, p))
}

/// The contents after the metadata of `p` is replaced by `m`.
pub open spec fn path_updated(st: IndexState, p: String, m: FileMetadata) -> IndexState {
    (st.0.insert(p@, m), files_synced(st.1, p, m.is_dir), st.2)
}

/// The contents after `p` is removed.
pub open spec fn path_removed(st: IndexState, p: Seq<char>) -> IndexState {
    (st.0.remove(p), without_path(st.1, p), child_removed(st.2, p))
}

/// The contents after the walk `ws` is recorded over `st`: each entry other
/// than the root itself, the first time its path comes up.
pub open spec fn walked_into(st: IndexState, root: Seq<char>, ws: Seq<WalkEntry>) -> IndexState
    decreases ws.len(),
{
    if ws.len() == 0 {
        st
    } else {
        let s = walked_into(st, root, ws.drop_last());
        let w = ws.last();
        if w.path@ == root || s.0.contains_key(w.path@) {
            s
        } else {
            path_added(s, w.path, w.metadata)
        }
    }
}

/// Nothing recorded.
pub open spec fn empty_state() -> IndexState {
    (Map::<Seq<char>, FileMetadata>::empty(), Seq::<String>::empty(), Map::<Seq<char>, Seq<String>>::empty())
}

/// The path whose metadata applying the change needs: the path itself for a
/// creation or a modification, the target of a rename, none for a deletion.
pub open spec fn stat_target_of(c: FileChange) -> Option<Seq<char>> {
    match c.kind {
        ChangeKind::Deleted => None,
        ChangeKind::Renamed { from, to } => Some(to@),
        _ => Some(c.path@),
    }
}

/// The contents after one change from the watcher, where `stat` is the
/// metadata found for the path the change leaves in place (none where that
/// path no longer exists).
pub open spec fn change_applied(st: IndexState, c: FileChange, stat: Option<FileMetadata>) -> IndexState {
    match c.kind {
        ChangeKind::Created => match stat {
            Some(m) => path_added(st, c.path, m),
            None => st,
        },
        ChangeKind::Modified => match stat {
            Some(m) => path_updated(st, c.path, m),
            None => st,
        },
        ChangeKind::Deleted => path_removed(st, c.path@),
        ChangeKind::Renamed { from, to } => {
            let s = path_removed(st, from@);
            match stat {
                Some(m) => path_added(s, to, m),
                None => s,
            }
        },
    }
}

/// The pattern that lists everything without compiling a glob.
pub open spec fn matches_everything(pattern: Seq<char>) -> bool {
    pattern == seq!['*', '*', '/', '*'] || pattern == seq!['*', '*']
}

/// The paths of `files` below `root`, in order.
pub open spec fn relative_all(root: Seq<char>, files: Seq<String>) -> Seq<Seq<char>> {
    files.map_values(|f: String| relative_to(root, f@))
}

/// The paths of `files` below `root` that match the glob `pattern`, in order.
pub open spec fn relative_matching(root: Seq<char>, files: Seq<String>, pattern: Seq<char>) -> Seq<
    Seq<char>,
>
    decreases files.len(),
{
    if files.len() == 0 {
        Seq::<Seq<char>>::empty()
    } else {
        let before = relative_matching(root, files.drop_last(), pattern);
        let r = relative_to(root, files.last()@);
        if glob_matches(pattern, r) {
            before.push(r)
        } else {
            before
        }
    }
}

/// Whether the absolute path `f` is among those that a glob query keeps.
pub open spec fn kept(
    root: Seq<char>,
    entries: Map<Seq<char>, FileMetadata>,
    pattern: Seq<char>,
    skip_binary: bool,
    f: Seq<char>,
) -> bool {
    (matches_everything(pattern) || glob_matches(pattern, relative_to(root, f))) && !(skip_binary
        && entries.contains_key(f) && entries[f].is_binary)
}

/// The files a glob query keeps, as absolute paths, in order.
pub open spec fn kept_files(
    root: Seq<char>,
    entries: Map<Seq<char>, FileMetadata>,
    files: Seq<String>,
    pattern: Seq<char>,
    skip_binary: bool,
) -> Seq<Seq<char>>
    decreases files.len(),
{
    if files.len() == 0 {
        Seq::<Seq<char>>::empty()
    } else {
        let before = kept_files(root, entries, files.drop_last(), pattern, skip_binary);
        if kept(root, entries, pattern, skip_binary, files.last()@) {
            before.push(files.last()@)
        } else {
            before
        }
    }
}

/// Compiled globs by pattern text, at most `capacity` of them.
struct GlobCache {
    cache: DashMap<String, GlobPattern>,
    capacity: usize,
}

impl GlobCache {
    closed spec fn wf(&self) -> bool {
        let m = glob_map(self.cache);
        &&& m.dom().finite()
        &&& m.len() <= self.capacity
        &&& self.capacity == GLOB_CACHE_SIZE
        &&& forall|k: Seq<char>| #[trigger] m.contains_key(k) ==> m[k].pattern() == k && glob_accepts(k)
    }

    fn new() -> (r: Self)
        ensures
            r.wf(),
    {
        GlobCache { cache: globs_with_capacity(GLOB_CACHE_SIZE), capacity: GLOB_CACHE_SIZE }
    }

    /// The compiled glob for `pattern`, from the cache or compiled and cached;
    /// when the cache is full, one entry makes room.
    ///
    /// A hit or a rejected pattern leaves the cache as it was. Otherwise the
    /// pattern is cached afterwards, no other entry changes, and at most one
    /// entry is evicted, none while the cache had room.
    fn compile(&mut self, pattern: &str) -> (r: Result<GlobPattern, globset::Error>)
        requires
            old(self).wf(),
            glob_depth(pattern@) <= MAX_GLOB_DEPTH,
        ensures
            final(self).wf(),
            final(self).capacity == old(self).capacity,
            r is Ok <==> glob_accepts(pattern@),
            r matches Ok(g) ==> g.pattern() == pattern@,
            glob_map(old(self).cache).contains_key(pattern@) || r is Err ==> glob_map(final(self).cache)
                == glob_map(old(self).cache),
            r is Ok ==> glob_map(final(self).cache).contains_key(pattern@),
            forall|k: Seq<char>|
                k != pattern@ && #[trigger] glob_map(final(self).cache).contains_key(k) ==> glob_map(
                    old(self).cache,
                ).contains_key(k) && glob_map(final(self).cache)[k] == glob_map(old(self).cache)[k],
            glob_map(final(self).cache).len() + 1 >= glob_map(old(self).cache).len() + (if r is Ok
                && !glob_map(old(self).cache).contains_key(pattern@) {
                1int
            } else {
                0int
            }),
            glob_map(old(self).cache).len() < old(self).capacity ==> forall|k: Seq<char>|
                #[trigger] glob_map(old(self).cache).contains_key(k) ==> glob_map(
                    final(self).cache,
                ).contains_key(k),
    {
        match globs_get(&self.cache, pattern) {
            Some(g) => {
                return Ok(g);
            },
            None => {},
        }
        let g = match GlobPattern::compile(pattern) {
            Ok(g) => g,
            Err(e) => {
                return Err(e);
            },
        };
        let ghost start = glob_map(self.cache);
        let n = globs_len(&self.cache);
        if n >= self.capacity {
            match globs_first_key(&self.cache) {
                Some(k) => {
                    globs_remove(&mut self.cache, &k);
                    proof {
                        assert(glob_map(self.cache).dom() =~= start.dom().remove(k@));
                    }
                },
                None => {
                    proof {
                        assert(start.dom().len() == 0);
                    }
                },
            }
        }
        let copy = g.duplicate();
        let key = pattern.to_string();
        let ghost before = glob_map(self.cache);
        globs_insert(&mut self.cache, key, copy);
        proof {
            let m = glob_map(self.cache);
            assert(m.dom() =~= before.dom().insert(pattern@));
            assert(!before.contains_key(pattern@));
            assert forall|k: Seq<char>| #[trigger] m.contains_key(k) implies m[k].pattern() == k
                && glob_accepts(k) by {
                if k != pattern@ {
                    assert(before.contains_key(k));
                }
            }
        }
        Ok(g)
    }
}

/// The index of the files below one root.
pub struct FileIndex {
    root: String,
    entries: DashMap<String, FileMetadata>,
    dir_children: DashMap<String, Vec<String>>,
    all_files: Vec<String>,
    ready: bool,
    building: bool,
    glob_cache: GlobCache,
}

impl FileIndex {
    /// The root directory, as text.
    pub closed spec fn root_path(&self) -> Seq<char> {
        self.root@
    }

    /// Metadata per indexed path, files and directories alike.
    pub closed spec fn entries(&self) -> Map<Seq<char>, FileMetadata> {
        entry_map(self.entries)
    }

    /// The paths recorded below each directory.
    pub closed spec fn children(&self) -> Map<Seq<char>, Seq<String>> {
        children_map(self.dir_children)
    }

    /// The indexed files, in the order they were recorded.
    pub closed spec fn files(&self) -> Seq<String> {
        self.all_files@
    }

    /// The contents as one value.
    pub open spec fn state(&self) -> IndexState {
        (self.entries(), self.files(), self.children())
    }

    /// Whether a build has completed since the index was made or last refreshed.
    pub closed spec fn ready_flag(&self) -> bool {
        self.ready
    }

    /// Whether a build is under way.
    pub closed spec fn building_flag(&self) -> bool {
        self.building
    }

    /// The entry map is finite, the file list agrees with it, and the glob
    /// cache holds at most its capacity of correctly compiled globs.
    pub closed spec fn wf(&self) -> bool {
        &&& self.entries().dom().finite()
        &&& files_agree(self.entries(), self.files())
        &&& self.glob_cache.wf()
    }

    /// An empty index of the files below `root`, not ready.
    pub fn new(root: String) -> (r: Self)
        ensures
            r.wf(),
            r.root_path() == root@,
            r.state() == empty_state(),
            !r.ready_flag(),
            !r.building_flag(),
    {
        let r = FileIndex {
            root,
            entries: entries_new(),
            dir_children: children_new(),
            all_files: Vec::new(),
            ready: false,
            building: false,
            glob_cache: GlobCache::new(),
        };
        proof {
            assert(r.files() =~= Seq::<String>::empty());
        }
        r
    }

    /// Claims the index for a build and empties it; does nothing and answers
    /// false where a build is already under way.
    pub fn begin_build(&mut self) -> (started: bool)
        requires
            old(self).wf(),
        ensures
            final(self).wf(),
            final(self).root_path() == old(self).root_path(),
            final(self).ready_flag() == old(self).ready_flag(),
            started == !old(self).building_flag(),
            final(self).building_flag(),
            started ==> final(self).state() == empty_state(),
            !started ==> final(self).state() == old(self).state(),
    {
        if self.building {
            return false;
        }
        self.building = true;
        entries_clear(&mut self.entries);
        children_clear(&mut self.dir_children);
        self.all_files = Vec::new();
        proof {
            assert(self.files() =~= Seq::<String>::empty());
        }
        true
    }

    /// Records the walk `walked` of the tree below the root: every entry
    /// other than the root itself, once. The index is then ready.
    pub fn finish_build(&mut self, walked: Vec<WalkEntry>)
        requires
            old(self).wf(),
        ensures
            final(self).wf(),
            final(self).root_path() == old(self).root_path(),
            final(self).state() == walked_into(old(self).state(), old(self).root_path(), walked@),
            final(self).ready_flag(),
            !final(self).building_flag(),
    {
        let ghost st0 = self.state();
        let ghost root = self.root@;
        for w in it: walked
            invariant
                self.wf(),
                self.root@ == root,
                self.state() == walked_into(st0, root, it.seq().take(it.index() as int)),
        {
            let ghost k = it.index() as int;
            proof {
                assert(it.seq().take(k + 1).drop_last() =~= it.seq().take(k));
                assert(it.seq().take(k + 1).last() == w);
            }
            if w.path == self.root {
            } else if entries_get(&self.entries, w.path.as_str()).is_some() {
            } else {
                self.add_path(w.path, w.metadata);
            }
        }
        proof {
            assert(walked@.take(walked@.len() as int) =~= walked@);
        }
        self.ready = true;
        self.building = false;
    }

    /// Builds the index from the walk `walked` of the tree below the root,
    /// unless a build is already under way, in which case nothing changes.
    pub fn build(&mut self, walked: Vec<WalkEntry>) -> (r: Result<(), AgentGearError>)
        requires
            old(self).wf(),
        ensures
            r is Ok,
            final(self).wf(),
            final(self).root_path() == old(self).root_path(),
            old(self).building_flag() ==> final(self).state() == old(self).state()
                && final(self).ready_flag() == old(self).ready_flag() && final(self).building_flag(),
            !old(self).building_flag() ==> final(self).state() == walked_into(
                empty_state(),
                old(self).root_path(),
                walked@,
            ) && final(self).ready_flag() && !final(self).building_flag(),
    {
        if self.begin_build() {
            self.finish_build(walked);
        }
        Ok(())
    }

    /// Marks the index not ready and claims it for a rebuild; answers false,
    /// leaving the contents, where a build is already under way.
    pub fn begin_refresh(&mut self) -> (started: bool)
        requires
            old(self).wf(),
        ensures
            final(self).wf(),
            final(self).root_path() == old(self).root_path(),
            !final(self).ready_flag(),
            final(self).building_flag(),
            started == !old(self).building_flag(),
            started ==> final(self).state() == empty_state(),
            !started ==> final(self).state() == old(self).state(),
    {
        self.ready = false;
        self.begin_build()
    }

    /// Rebuilds the index from the walk `walked`; where a build is already
    /// under way, only marks the index not ready.
    pub fn refresh(&mut self, walked: Vec<WalkEntry>) -> (r: Result<(), AgentGearError>)
        requires
            old(self).wf(),
        ensures
            r is Ok,
            final(self).wf(),
            final(self).root_path() == old(self).root_path(),
            old(self).building_flag() ==> final(self).state() == old(self).state()
                && !final(self).ready_flag() && final(self).building_flag(),
            !old(self).building_flag() ==> final(self).state() == walked_into(
                empty_state(),
                old(self).root_path(),
                walked@,
            ) && final(self).ready_flag() && !final(self).building_flag(),
    {
        if self.begin_refresh() {
            self.finish_build(walked);
        }
        Ok(())
    }

    /// Whether a build has completed since the index was made or last refreshed.
    pub fn is_ready(&self) -> (r: bool)
        ensures
            r == self.ready_flag(),
    {
        self.ready
    }

    /// Whether a build is under way.
    pub fn is_building(&self) -> (r: bool)
        ensures
            r == self.building_flag(),
    {
        self.building
    }

    /// The root directory.
    pub fn root(&self) -> (r: &str)
        ensures
            r@ == self.root_path(),
    {
        self.root.as_str()
    }

    /// The number of indexed paths, files and directories alike.
    pub fn len(&self) -> (r: usize)
        requires
            self.wf(),
        ensures
            r == self.entries().len(),
    {
        entries_len(&self.entries)
    }

    /// Whether nothing is indexed.
    pub fn is_empty(&self) -> (r: bool)
        requires
            self.wf(),
        ensures
            r == (self.entries().len() == 0),
    {
        entries_len(&self.entries) == 0
    }

    /// The metadata recorded for `path`, if it is indexed.
    pub fn get_metadata(&self, path: &str) -> (r: Option<FileMetadata>)
        ensures
            r == (if self.entries().contains_key(path@) {
                Some(self.entries()[path@])
            } else {
                None
            }),
    {
        entries_get(&self.entries, path)
    }

    /// Brings the file list in line after `path` is recorded as a directory
    /// or as a file.
    fn sync_file(&mut self, path: &String, is_dir: bool)
        ensures
            final(self).files() == files_synced(old(self).files(), *path, is_dir),
            final(self).root == old(self).root,
            final(self).entries == old(self).entries,
            final(self).dir_children == old(self).dir_children,
            final(self).ready == old(self).ready,
            final(self).building == old(self).building,
            final(self).glob_cache == old(self).glob_cache,
    {
        if is_dir {
            let kept = retain_other(&self.all_files, path.as_str());
            self.all_files = kept;
        } else if position_in(&self.all_files, path.as_str()).is_none() {
            self.all_files.push(path.clone());
        }
    }

    /// Records `path` with `metadata`: its entry, its place in its parent's
    /// list of children, and, for a file, its place in the file list, which
    /// never lists a path twice.
    pub fn add_path(&mut self, path: String, metadata: FileMetadata)
        requires
            old(self).wf(),
        ensures
            final(self).wf(),
            final(self).root_path() == old(self).root_path(),
            final(self).ready_flag() == old(self).ready_flag(),
            final(self).building_flag() == old(self).building_flag(),
            final(self).state() == path_added(old(self).state(), path, metadata),
            distinct_paths(final(self).files()),
    {
        let ghost st = self.state();
        match parent_path(path.as_str()) {
            Some(dir) => {
                let list = match children_get(&self.dir_children, dir.as_str()) {
                    Some(v) => v,
                    None => Vec::new(),
                };
                let mut list = list;
                list.push(path.clone());
                children_insert(&mut self.dir_children, dir, list);
            },
            None => {},
        }
        self.sync_file(&path, metadata.is_dir);
        let ghost files_before = st.1;
        entries_insert(&mut self.entries, path, metadata);
        proof {
            lemma_files_agree_after_put(st.0, files_before, path, metadata);
            assert(self.children() =~= child_added(st.2, path));
        }
    }

    /// Replaces the metadata of `path` with `metadata`, and brings the file
    /// list in line with it.
    pub fn update_path(&mut self, path: String, metadata: FileMetadata)
        requires
            old(self).wf(),
        ensures
            final(self).wf(),
            final(self).root_path() == old(self).root_path(),
            final(self).ready_flag() == old(self).ready_flag(),
            final(self).building_flag() == old(self).building_flag(),
            final(self).state() == path_updated(old(self).state(), path, metadata),
    {
        let ghost st = self.state();
        self.sync_file(&path, metadata.is_dir);
        entries_insert(&mut self.entries, path, metadata);
        proof {
            lemma_files_agree_after_put(st.0, st.1, path, metadata);
        }
    }

    /// Forgets `path`: its entry, its place in its parent's list of children,
    /// its own list of children, and its place in the file list.
    pub fn remove_path(&mut self, path: &str)
        requires
            old(self).wf(),
        ensures
            final(self).wf(),
            final(self).root_path() == old(self).root_path(),
            final(self).ready_flag() == old(self).ready_flag(),
            final(self).building_flag() == old(self).building_flag(),
            final(self).state() == path_removed(old(self).state(), path@),
    {
        let ghost st = self.state();
        entries_remove(&mut self.entries, path);
        match parent_path(path) {
            Some(dir) => {
                match children_get(&self.dir_children, dir.as_str()) {
                    Some(list) => {
                        let trimmed = retain_other(&list, path);
                        children_insert(&mut self.dir_children, dir, trimmed);
                    },
                    None => {},
                }
            },
            None => {},
        }
        children_remove(&mut self.dir_children, path);
        let kept = retain_other(&self.all_files, path);
        self.all_files = kept;
        proof {
            lemma_files_agree_after_remove(st.0, st.1, path@);
        }
    }

    /// Applies one change from the watcher. `stat` is the metadata found on
    /// disk for the path the change leaves in place (the path itself, or the
    /// target of a rename), or none where that path does not exist.
    pub fn apply_change(&mut self, change: &FileChange, stat: Option<FileMetadata>)
        requires
            old(self).wf(),
        ensures
            final(self).wf(),
            final(self).root_path() == old(self).root_path(),
            final(self).ready_flag() == old(self).ready_flag(),
            final(self).building_flag() == old(self).building_flag(),
            final(self).state() == change_applied(old(self).state(), *change, stat),
    {
        match &change.kind {
            ChangeKind::Created => {
                match stat {
                    Some(m) => self.add_path(change.path.clone(), m),
                    None => {},
                }
            },
            ChangeKind::Modified => {
                match stat {
                    Some(m) => self.update_path(change.path.clone(), m),
                    None => {},
                }
            },
            ChangeKind::Deleted => {
                self.remove_path(change.path.as_str());
            },
            ChangeKind::Renamed { from, to } => {
                self.remove_path(from.as_str());
                match stat {
                    Some(m) => self.add_path(to.clone(), m),
                    None => {},
                }
            },
        }
    }
}

impl FileIndex {
    /// Whether queries may read the index: a build has completed and none is
    /// under way.
    pub open spec fn serves(&self) -> bool {
        self.ready_flag() && !self.building_flag()
    }

    /// The paths below the root of the indexed files (or of all indexed
    /// paths, without `only_files`) that match the glob `pattern`; `**/*` and
    /// `**` list everything without compiling a glob. Fails while the index
    /// is not ready or is being rebuilt, and on a rejected glob.
    pub fn list(&mut self, pattern: &str, only_files: bool) -> (r: Result<Vec<String>, AgentGearError>)
        requires
            old(self).wf(),
        ensures
            final(self).wf(),
            final(self).root_path() == old(self).root_path(),
            final(self).state() == old(self).state(),
            final(self).ready_flag() == old(self).ready_flag(),
            final(self).building_flag() == old(self).building_flag(),
            match r {
                Err(AgentGearError::IndexNotReady) => !old(self).serves(),
                Err(AgentGearError::Pattern(_)) => old(self).serves() && !matches_everything(pattern@)
                    && glob_depth(pattern@) > MAX_GLOB_DEPTH,
                Err(AgentGearError::Glob(_)) => old(self).serves() && !matches_everything(pattern@)
                    && glob_depth(pattern@) <= MAX_GLOB_DEPTH && !glob_accepts(pattern@),
                Err(_) => false,
                Ok(v) => {
                    let root = old(self).root_path();
                    let all = matches_everything(pattern@);
                    &&& old(self).serves()
                    &&& all || glob_accepts(pattern@)
                    &&& only_files && all ==> path_views(v@) == relative_all(root, old(self).files())
                    &&& only_files && !all ==> path_views(v@) == relative_matching(
                        root,
                        old(self).files(),
                        pattern@,
                    )
                    &&& !only_files ==> exists|keys: Seq<String>|
                        #[trigger] lists_exactly(keys, old(self).entries()) && (all ==> path_views(v@)
                            == relative_all(root, keys)) && (!all ==> path_views(v@)
                            == relative_matching(root, keys, pattern@))
                },
            },
    {
        if !self.ready || self.building {
            return Err(AgentGearError::IndexNotReady);
        }
        let all = is_match_all(pattern);
        let glob = if all {
            None
        } else {
            if !glob_depth_ok(pattern) {
                return Err(AgentGearError::Pattern(pattern_too_deep()));
            }
            match self.glob_cache.compile(pattern) {
                Ok(g) => Some(g),
                Err(e) => {
                    return Err(AgentGearError::Glob(e));
                },
            }
        };
        let out = if only_files {
            if self.all_files.len() >= PARALLEL_ITER_THRESHOLD {
                self.select_relative_parallel(&self.all_files, pattern, &glob)
            } else {
                self.select_relative(&self.all_files, pattern, &glob)
            }
        } else {
            let keys = entries_keys(&self.entries);
            let out = self.select_relative(&keys, pattern, &glob);
            proof {
                assert(lists_exactly(keys@, self.entries()));
            }
            out
        };
        Ok(out)
    }

    /// The paths of `files` below the root that `glob` keeps (all of them
    /// where there is no glob), in order.
    fn select_relative(&self, files: &Vec<String>, pattern: &str, glob: &Option<GlobPattern>) -> (out: Vec<
        String,
    >)
        requires
            glob matches Some(g) ==> g.pattern() == pattern@,
        ensures
            glob is None ==> path_views(out@) == relative_all(self.root_path(), files@),
            glob is Some ==> path_views(out@) == relative_matching(
                self.root_path(),
                files@,
                pattern@,
            ),
    {
        let ghost root = self.root@;
        let ghost all = glob is None;
        let mut out: Vec<String> = Vec::new();
        let mut i: usize = 0;
        proof {
            assert(files@.take(0) =~= Seq::<String>::empty());
            assert(path_views(out@) =~= Seq::<Seq<char>>::empty());
        }
        while i < files.len()
            invariant
                i <= files@.len(),
                root == self.root@,
                all <==> glob is None,
                glob matches Some(g) ==> g.pattern() == pattern@,
                all ==> path_views(out@) == relative_all(root, files@.take(i as int)),
                !all ==> path_views(out@) == relative_matching(
                    root,
                    files@.take(i as int),
                    pattern@,
                ),
            decreases files@.len() - i,
        {
            let ghost pre = out@;
            proof {
                assert(files@.take(i + 1).drop_last() =~= files@.take(i as int));
                assert(files@.take(i + 1).last() == files@[i as int]);
            }
            match relative_if_kept(self.root.as_str(), files[i].as_str(), pattern, glob) {
                Some(rel) => {
                    out.push(rel);
                    proof {
                        assert(path_views(out@) =~= path_views(pre).push(rel@));
                        assert(relative_all(root, files@.take(i + 1)) =~= relative_all(
                            root,
                            files@.take(i as int),
                        ).push(rel@));
                    }
                },
                None => {},
            }
            i += 1;
        }
        proof {
            assert(files@.take(files@.len() as int) =~= files@);
        }
        out
    }

    /// Like `select_relative`, with the files shared out among threads.
    ///
    /// Relies on rayon: `par_iter().filter_map(..).collect()` into a `Vec`
    /// keeps the order of `files`; the closure only calls `relative_if_kept`.
    #[verifier::external_body]
    fn select_relative_parallel(&self, files: &Vec<String>, pattern: &str, glob: &Option<GlobPattern>) -> (out:
        Vec<String>)
        requires
            glob matches Some(g) ==> g.pattern() == pattern@,
        ensures
            glob is None ==> path_views(out@) == relative_all(self.root_path(), files@),
            glob is Some ==> path_views(out@) == relative_matching(
                self.root_path(),
                files@,
                pattern@,
            ),
    {
        files.par_iter().filter_map(|f| relative_if_kept(self.root.as_str(), f.as_str(), pattern, glob)).collect()
    }

    /// Whether a glob query keeps the indexed file `f`.
    fn keeps(&self, f: &str, pattern: &str, glob: &Option<GlobPattern>, skip_binary: bool) -> (r: bool)
        requires
            glob is None <==> matches_everything(pattern@),
            glob matches Some(g) ==> g.pattern() == pattern@,
        ensures
            r == kept(self.root_path(), self.entries(), pattern@, skip_binary, f@),
    {
        let matched = match glob {
            None => true,
            Some(g) => {
                let rel = relative_path(self.root.as_str(), f);
                g.is_match(rel.as_str())
            },
        };
        let binary = match entries_get(&self.entries, f) {
            Some(m) => m.is_binary,
            None => false,
        };
        matched && !(skip_binary && binary)
    }

    /// The indexed files that a glob query keeps, one after another.
    fn kept_serial(&self, pattern: &str, glob: &Option<GlobPattern>, skip_binary: bool) -> (out: Vec<String>)
        requires
            glob is None <==> matches_everything(pattern@),
            glob matches Some(g) ==> g.pattern() == pattern@,
        ensures
            path_views(out@) == kept_files(
                self.root_path(),
                self.entries(),
                self.files(),
                pattern@,
                skip_binary,
            ),
    {
        let files = &self.all_files;
        let mut out: Vec<String> = Vec::new();
        let mut i: usize = 0;
        proof {
            assert(files@.take(0) =~= Seq::<String>::empty());
            assert(path_views(out@) =~= Seq::<Seq<char>>::empty());
        }
        while i < files.len()
            invariant
                i <= files@.len(),
                files == &self.all_files,
                glob is None <==> matches_everything(pattern@),
                glob matches Some(g) ==> g.pattern() == pattern@,
                path_views(out@) == kept_files(
                    self.root_path(),
                    self.entries(),
                    files@.take(i as int),
                    pattern@,
                    skip_binary,
                ),
            decreases files@.len() - i,
        {
            let ghost pre = out@;
            proof {
                assert(files@.take(i + 1).drop_last() =~= files@.take(i as int));
                assert(files@.take(i + 1).last() == files@[i as int]);
            }
            if self.keeps(files[i].as_str(), pattern, glob, skip_binary) {
                out.push(files[i].clone());
                proof {
                    assert(path_views(out@) =~= path_views(pre).push(files@[i as int]@));
                }
            }
            i += 1;
        }
        proof {
            assert(files@.take(files@.len() as int) =~= files@);
        }
        out
    }

    /// The indexed files that a glob query keeps, with the files shared out
    /// among threads.
    ///
    /// Relies on rayon: `par_iter().filter(..).cloned().collect()` into a
    /// `Vec` keeps the order of the file list; the closure only calls `keeps`.
    #[verifier::external_body]
    fn kept_parallel(&self, pattern: &str, glob: &Option<GlobPattern>, skip_binary: bool) -> (out: Vec<String>)
        requires
            glob is None <==> matches_everything(pattern@),
            glob matches Some(g) ==> g.pattern() == pattern@,
        ensures
            path_views(out@) == kept_files(
                self.root_path(),
                self.entries(),
                self.files(),
                pattern@,
                skip_binary,
            ),
    {
        self.all_files.par_iter().filter(|f| self.keeps(f.as_str(), pattern, glob, skip_binary)).cloned().collect()
    }

    /// The indexed files whose path below the root matches the glob `pattern`.
    pub fn glob(&mut self, pattern: &str) -> (r: Result<Vec<String>, AgentGearError>)
        requires
            old(self).wf(),
        ensures
            final(self).wf(),
            final(self).root_path() == old(self).root_path(),
            final(self).state() == old(self).state(),
            final(self).ready_flag() == old(self).ready_flag(),
            final(self).building_flag() == old(self).building_flag(),
            match r {
                Err(AgentGearError::IndexNotReady) => !old(self).serves(),
                Err(AgentGearError::Pattern(_)) => old(self).serves() && !matches_everything(pattern@)
                    && glob_depth(pattern@) > MAX_GLOB_DEPTH,
                Err(AgentGearError::Glob(_)) => old(self).serves() && !matches_everything(pattern@)
                    && glob_depth(pattern@) <= MAX_GLOB_DEPTH && !glob_accepts(pattern@),
                Err(_) => false,
                Ok(v) => {
                    &&& old(self).serves()
                    &&& matches_everything(pattern@) ==> path_views(v@) == relative_all(
                        old(self).root_path(),
                        old(self).files(),
                    )
                    &&& !matches_everything(pattern@) ==> glob_accepts(pattern@) && path_views(v@)
                        == relative_matching(old(self).root_path(), old(self).files(), pattern@)
                },
            },
    {
        self.list(pattern, true)
    }

    /// The indexed files that match the glob `pattern` and are not binary,
    /// as absolute paths.
    pub fn glob_paths(&mut self, pattern: &str) -> (r: Result<Vec<String>, AgentGearError>)
        requires
            old(self).wf(),
        ensures
            final(self).wf(),
            final(self).root_path() == old(self).root_path(),
            final(self).state() == old(self).state(),
            final(self).ready_flag() == old(self).ready_flag(),
            final(self).building_flag() == old(self).building_flag(),
            match r {
                Err(AgentGearError::IndexNotReady) => !old(self).serves(),
                Err(AgentGearError::Pattern(_)) => old(self).serves() && !matches_everything(pattern@)
                    && glob_depth(pattern@) > MAX_GLOB_DEPTH,
                Err(AgentGearError::Glob(_)) => old(self).serves() && !matches_everything(pattern@)
                    && glob_depth(pattern@) <= MAX_GLOB_DEPTH && !glob_accepts(pattern@),
                Err(_) => false,
                Ok(v) => old(self).serves() && (matches_everything(pattern@) || glob_accepts(
                    pattern@,
                )) && path_views(v@) == kept_files(
                    old(self).root_path(),
                    old(self).entries(),
                    old(self).files(),
                    pattern@,
                    true,
                ),
            },
    {
        self.glob_paths_with_options(pattern, true)
    }

    /// The indexed files that match the glob `pattern`, as absolute paths,
    /// leaving out those that look binary when `skip_binary` is set.
    pub fn glob_paths_with_options(&mut self, pattern: &str, skip_binary: bool) -> (r: Result<
        Vec<String>,
        AgentGearError,
    >)
        requires
            old(self).wf(),
        ensures
            final(self).wf(),
            final(self).root_path() == old(self).root_path(),
            final(self).state() == old(self).state(),
            final(self).ready_flag() == old(self).ready_flag(),
            final(self).building_flag() == old(self).building_flag(),
            match r {
                Err(AgentGearError::IndexNotReady) => !old(self).serves(),
                Err(AgentGearError::Pattern(_)) => old(self).serves() && !matches_everything(pattern@)
                    && glob_depth(pattern@) > MAX_GLOB_DEPTH,
                Err(AgentGearError::Glob(_)) => old(self).serves() && !matches_everything(pattern@)
                    && glob_depth(pattern@) <= MAX_GLOB_DEPTH && !glob_accepts(pattern@),
                Err(_) => false,
                Ok(v) => old(self).serves() && (matches_everything(pattern@) || glob_accepts(
                    pattern@,
                )) && path_views(v@) == kept_files(
                    old(self).root_path(),
                    old(self).entries(),
                    old(self).files(),
                    pattern@,
                    skip_binary,
                ),
            },
    {
        if !self.ready || self.building {
            return Err(AgentGearError::IndexNotReady);
        }
        let all = is_match_all(pattern);
        let glob = if all {
            None
        } else {
            if !glob_depth_ok(pattern) {
                return Err(AgentGearError::Pattern(pattern_too_deep()));
            }
            match self.glob_cache.compile(pattern) {
                Ok(g) => Some(g),
                Err(e) => {
                    return Err(AgentGearError::Glob(e));
                },
            }
        };
        let out = if self.all_files.len() >= PARALLEL_ITER_THRESHOLD {
            self.kept_parallel(pattern, &glob, skip_binary)
        } else {
            self.kept_serial(pattern, &glob, skip_binary)
        };
        Ok(out)
    }
}

/// The path of `f` below `root` where `glob` keeps it (always, where there is
/// no glob).
fn relative_if_kept(root: &str, f: &str, pattern: &str, glob: &Option<GlobPattern>) -> (r: Option<String>)
    requires
        glob matches Some(g) ==> g.pattern() == pattern@,
    ensures
        match r {
            Some(rel) => rel@ == relative_to(root@, f@) && (glob is None || glob_matches(
                pattern@,
                rel@,
            )),
            None => glob is Some && !glob_matches(pattern@, relative_to(root@, f@)),
        },
{
    let rel = relative_path(root, f);
    match glob {
        None => Some(rel),
        Some(g) => if g.is_match(rel.as_str()) {
            Some(rel)
        } else {
            None
        },
    }
}

/// The text of the error for a glob whose alternates nest too deeply to compile.
pub(crate) fn pattern_too_deep() -> (r: String) {
    "glob alternates nest too deeply".to_owned()
}

/// Whether `pattern` is one of the two that list everything.
fn is_match_all(pattern: &str) -> (r: bool)
    ensures
        r == matches_everything(pattern@),
{
    let c = chars_of(pattern);
    let r = (c.len() == 4 && c[0] == '*' && c[1] == '*' && c[2] == '/' && c[3] == '*') || (c.len()
        == 2 && c[0] == '*' && c[1] == '*');
    proof {
        if c.len() == 4 && c[0] == '*' && c[1] == '*' && c[2] == '/' && c[3] == '*' {
            assert(c@ =~= seq!['*', '*', '/', '*']);
        }
        if c.len() == 2 && c[0] == '*' && c[1] == '*' {
            assert(c@ =~= seq!['*', '*']);
        }
    }
    r
}

/// The path whose metadata `apply_change` needs for `change`.
pub fn stat_target(change: &FileChange) -> (r: Option<String>)
    ensures
        match r {
            Some(p) => stat_target_of(*change) == Some(p@),
            None => stat_target_of(*change) is None,
        },
{
    match &change.kind {
        ChangeKind::Deleted => None,
        ChangeKind::Renamed { from, to } => Some(to.clone()),
        _ => Some(change.path.clone()),
    }
}

/// The position of `p` in `v`, if it is there.
fn position_in(v: &Vec<String>, p: &str) -> (r: Option<usize>)
    ensures
        match r {
            Some(i) => i < v@.len() && v@[i as int]@ == p@,
            None => !lists(v@, p@),
        },
{
    let mut i: usize = 0;
    while i < v.len()
        invariant
            i <= v@.len(),
            forall|j: int| 0 <= j < i ==> v@[j]@ != p@,
        decreases v@.len() - i,
    {
        if same_text(v[i].as_str(), p) {
            return Some(i);
        }
        i += 1;
    }
    None
}

/// Whether two strings are equal.
fn same_text(a: &str, b: &str) -> (r: bool)
    ensures
        r == (a@ == b@),
{
    let x = chars_of(a);
    let y = chars_of(b);
    if x.len() != y.len() {
        return false;
    }
    let mut i: usize = 0;
    while i < x.len()
        invariant
            x@ == a@,
            y@ == b@,
            x@.len() == y@.len(),
            i <= x@.len(),
            forall|j: int| 0 <= j < i ==> x@[j] == y@[j],
        decreases x@.len() - i,
    {
        if x[i] != y[i] {
            return false;
        }
        i += 1;
    }
    proof {
        assert(x@ =~= y@);
    }
    true
}

/// The strings of `v` other than `p`, in order.
fn retain_other(v: &Vec<String>, p: &str) -> (r: Vec<String>)
    ensures
        r@ == without_path(v@, p@),
{
    let mut out: Vec<String> = Vec::new();
    let mut i: usize = 0;
    proof {
        reveal(Seq::filter);
        assert(v@.take(0) =~= Seq::<String>::empty());
    }
    while i < v.len()
        invariant
            i <= v@.len(),
            out@ == without_path(v@.take(i as int), p@),
        decreases v@.len() - i,
    {
        proof {
            reveal(Seq::filter);
            assert(v@.take(i + 1).drop_last() =~= v@.take(i as int));
            assert(v@.take(i + 1).last() == v@[i as int]);
        }
        if !same_text(v[i].as_str(), p) {
            out.push(v[i].clone());
        }
        i += 1;
    }
    proof {
        assert(v@.take(v@.len() as int) =~= v@);
    }
    out
}

/// Filtering out one path keeps the others, each once.
proof fn lemma_without_path(v: Seq<String>, p: Seq<char>)
    ensures
        forall|q: Seq<char>| #[trigger] lists(without_path(v, p), q) <==> (lists(v, q) && q != p),
        distinct_paths(v) ==> distinct_paths(without_path(v, p)),
        without_path(v, p).len() <= v.len(),
    decreases v.len(),
{
    reveal(Seq::filter);
    if v.len() == 0 {
        assert(without_path(v, p).len() == 0);
    } else {
        let v0 = v.drop_last();
        let last = v.last();
        lemma_without_path(v0, p);
        let w = without_path(v, p);
        let w0 = without_path(v0, p);
        assert(w == if last@ != p {
            w0.push(last)
        } else {
            w0
        });
        assert forall|q: Seq<char>| #[trigger] lists(w, q) <==> (lists(v, q) && q != p) by {
            if lists(w, q) {
                let i = choose|i: int| 0 <= i < w.len() && w[i]@ == q;
                if i < w0.len() {
                    assert(w[i] == w0[i]);
                    assert(lists(w0, q));
                    assert(lists(v0, q));
                    let j = choose|j: int| 0 <= j < v0.len() && v0[j]@ == q;
                    assert(v[j] == v0[j]);
                    assert(lists(v, q));
                } else {
                    assert(w[i] == last);
                    assert(v[v.len() - 1] == last);
                    assert(lists(v, q));
                }
            }
            if lists(v, q) && q != p {
                let j = choose|j: int| 0 <= j < v.len() && v[j]@ == q;
                if j < v.len() - 1 {
                    assert(v0[j] == v[j]);
                    assert(lists(v0, q));
                    assert(lists(w0, q));
                    let i = choose|i: int| 0 <= i < w0.len() && w0[i]@ == q;
                    assert(w[i] == w0[i]);
                    assert(lists(w, q));
                } else {
                    assert(w[w.len() - 1] == last);
                    assert(lists(w, q));
                }
            }
        }
        if distinct_paths(v) {
            assert(distinct_paths(v0)) by {
                assert forall|i: int, j: int|
                    0 <= i < v0.len() && 0 <= j < v0.len() && i != j implies v0[i]@ != v0[j]@ by {
                    assert(v0[i] == v[i] && v0[j] == v[j]);
                }
            }
            if last@ != p {
                assert forall|i: int| 0 <= i < w0.len() implies w0[i]@ != last@ by {
                    assert(lists(w0, w0[i]@));
                    assert(lists(v0, w0[i]@));
                    let j = choose|j: int| 0 <= j < v0.len() && v0[j]@ == w0[i]@;
                    assert(v[j] == v0[j]);
                    assert(v[v.len() - 1] == last);
                }
                assert forall|i: int, j: int|
                    0 <= i < w.len() && 0 <= j < w.len() && i != j implies w[i]@ != w[j]@ by {
                    if i < w0.len() && j < w0.len() {
                        assert(w[i] == w0[i] && w[j] == w0[j]);
                    } else if i < w0.len() {
                        assert(w[i] == w0[i] && w[j] == last);
                    } else if j < w0.len() {
                        assert(w[j] == w0[j] && w[i] == last);
                    }
                }
            }
        }
    }
}

/// Recording `p` with `m` in the entries and syncing the file list keeps
/// them in agreement.
proof fn lemma_files_agree_after_put(
    entries: Map<Seq<char>, FileMetadata>,
    files: Seq<String>,
    p: String,
    m: FileMetadata,
)
    requires
        files_agree(entries, files),
    ensures
        files_agree(entries.insert(p@, m), files_synced(files, p, m.is_dir)),
{
    let e = entries.insert(p@, m);
    let f = files_synced(files, p, m.is_dir);
    lemma_without_path(files, p@);
    if m.is_dir {
        assert forall|i: int| 0 <= i < f.len() implies e.contains_key(#[trigger] f[i]@)
            && !e[f[i]@].is_dir by {
            assert(lists(f, f[i]@));
            assert(lists(files, f[i]@));
            let j = choose|j: int| 0 <= j < files.len() && files[j]@ == f[i]@;
            assert(entries.contains_key(files[j]@));
        }
        assert forall|q: Seq<char>| e.contains_key(q) && !e[q].is_dir implies lists(f, q) by {
            assert(q != p@);
            assert(lists(files, q));
            assert(lists(without_path(files, p@), q));
        }
    } else if lists(files, p@) {
        assert forall|q: Seq<char>| e.contains_key(q) && !e[q].is_dir implies lists(f, q) by {
            if q != p@ {
                assert(entries.contains_key(q) && !entries[q].is_dir);
            }
        }
    } else {
        assert forall|i: int| 0 <= i < f.len() implies e.contains_key(#[trigger] f[i]@)
            && !e[f[i]@].is_dir by {
            if i < files.len() {
                assert(f[i] == files[i]);
            }
        }
        assert forall|q: Seq<char>| e.contains_key(q) && !e[q].is_dir implies lists(f, q) by {
            if q == p@ {
                assert(f[files.len() as int] == p);
            } else {
                assert(entries.contains_key(q) && !entries[q].is_dir);
                assert(lists(files, q));
                let j = choose|j: int| 0 <= j < files.len() && files[j]@ == q;
                assert(f[j] == files[j]);
            }
        }
        assert forall|i: int, j: int|
            0 <= i < f.len() && 0 <= j < f.len() && i != j implies f[i]@ != f[j]@ by {
            if i < files.len() && j < files.len() {
                assert(f[i] == files[i] && f[j] == files[j]);
            } else if i < files.len() {
                assert(f[i] == files[i] && f[j] == p);
            } else if j < files.len() {
                assert(f[j] == files[j] && f[i] == p);
            }
        }
    }
}

/// Removing `p` from the entries and the file list keeps them in agreement.
proof fn lemma_files_agree_after_remove(
    entries: Map<Seq<char>, FileMetadata>,
    files: Seq<String>,
    p: Seq<char>,
)
    requires
        files_agree(entries, files),
    ensures
        files_agree(entries.remove(p), without_path(files, p)),
{
    let e = entries.remove(p);
    let f = without_path(files, p);
    lemma_without_path(files, p);
    assert forall|i: int| 0 <= i < f.len() implies e.contains_key(#[trigger] f[i]@)
        && !e[f[i]@].is_dir by {
        assert(lists(f, f[i]@));
        assert(lists(files, f[i]@));
        let j = choose|j: int| 0 <= j < files.len() && files[j]@ == f[i]@;
        assert(entries.contains_key(files[j]@));
    }
    assert forall|q: Seq<char>| e.contains_key(q) && !e[q].is_dir implies lists(f, q) by {
        assert(lists(files, q));
        assert(lists(without_path(files, p), q));
    }
}

/// Building from a walk records exactly the walked paths other than the
/// root itself, and the file list then names exactly the recorded paths that
/// are not directories, each once.
pub proof fn lemma_build_records_walk(root: Seq<char>, ws: Seq<WalkEntry>)
    ensures
        forall|p: Seq<char>|
            #[trigger] walked_into(empty_state(), root, ws).0.contains_key(p) <==> (p != root
                && exists|i: int| 0 <= i < ws.len() && ws[i].path@ == p),
        files_agree(walked_into(empty_state(), root, ws).0, walked_into(empty_state(), root, ws).1),
    decreases ws.len(),
{
    let st = walked_into(empty_state(), root, ws);
    if ws.len() == 0 {
        assert(distinct_paths(st.1));
    } else {
        let rest = ws.drop_last();
        let w = ws.last();
        lemma_build_records_walk(root, rest);
        let s = walked_into(empty_state(), root, rest);
        if !(w.path@ == root || s.0.contains_key(w.path@)) {
            lemma_files_agree_after_put(s.0, s.1, w.path, w.metadata);
        }
        assert forall|p: Seq<char>|
            #[trigger] st.0.contains_key(p) <==> (p != root && exists|i: int|
                0 <= i < ws.len() && ws[i].path@ == p) by {
            if st.0.contains_key(p) {
                if s.0.contains_key(p) {
                    let i = choose|i: int| 0 <= i < rest.len() && rest[i].path@ == p;
                    assert(ws[i] == rest[i]);
                } else {
                    assert(p == w.path@);
                    assert(ws[ws.len() - 1] == w);
                }
            }
            if p != root && exists|i: int| 0 <= i < ws.len() && ws[i].path@ == p {
                let i = choose|i: int| 0 <= i < ws.len() && ws[i].path@ == p;
                if i < ws.len() - 1 {
                    assert(rest[i] == ws[i]);
                    assert(s.0.contains_key(p));
                } else {
                    assert(ws[i] == w);
                }
            }
        }
    }
}

/// Every path that a listing of files with any glob returns is also returned
/// by the listing of everything.
pub proof fn lemma_listing_within_everything(root: Seq<char>, files: Seq<String>, pattern: Seq<char>)
    ensures
        forall|i: int|
            0 <= i < relative_matching(root, files, pattern).len() ==> relative_all(
                root,
                files,
            ).contains(#[trigger] relative_matching(root, files, pattern)[i]),
    decreases files.len(),
{
    if files.len() > 0 {
        let rest = files.drop_last();
        lemma_listing_within_everything(root, rest, pattern);
        let m = relative_matching(root, files, pattern);
        let m0 = relative_matching(root, rest, pattern);
        let a = relative_all(root, files);
        let a0 = relative_all(root, rest);
        assert(a =~= a0.push(relative_to(root, files.last()@)));
        assert forall|i: int| 0 <= i < m.len() implies a.contains(#[trigger] m[i]) by {
            if i < m0.len() {
                assert(m[i] == m0[i]);
                assert(a0.contains(m0[i]));
                let j = choose|j: int| 0 <= j < a0.len() && a0[j] == m0[i];
                assert(a[j] == a0[j]);
            } else {
                assert(a[a.len() - 1] == m[i]);
            }
        }
    }
}

} // verus!
