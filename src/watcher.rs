//! Change events and the debouncer that merges them per path over a time window.

use std::time::Instant;
use vstd::prelude::*;

verus! {

/// What happened to a path.
#[derive(Debug, Clone, PartialEq, Eq)]
pub enum ChangeKind {
    /// The file or directory appeared.
    Created,
    /// The file's content changed.
    Modified,
    /// The file or directory went away.
    Deleted,
    /// The file or directory moved from `from` to `to`.
    Renamed { from: String, to: String },
}

/// A change to one path. `timestamp` counts nanoseconds on the clock of the
/// debouncer that recorded it.
#[derive(Debug, Clone)]
pub struct FileChange {
    pub path: String,
    pub kind: ChangeKind,
    pub timestamp: u64,
}

/// No two entries name the same path.
pub open spec fn paths_distinct(s: Seq<FileChange>) -> bool {
    forall|i: int, j: int|
        0 <= i < s.len() && 0 <= j < s.len() && i != j ==> s[i].path@ != s[j].path@
}

/// Some entry names the path `p`.
pub open spec fn holds_path(s: Seq<FileChange>, p: Seq<char>) -> bool {
    exists|i: int| 0 <= i < s.len() && s[i].path@ == p
}

/// The position of the entry for `p`, or -1 where there is none.
pub open spec fn position_of(s: Seq<FileChange>, p: Seq<char>) -> int {
    if holds_path(s, p) {
        choose|i: int| 0 <= i < s.len() && s[i].path@ == p
    } else {
        -1
    }
}

/// The pending entries after the change `e` arrives.
///
/// A creation followed by a deletion leaves nothing; a creation followed by a
/// modification stays a creation with its first timestamp and place; any
/// other arrival replaces what was pending for the path and goes last.
pub open spec fn merged(s: Seq<FileChange>, e: FileChange) -> Seq<FileChange> {
    let i = position_of(s, e.path@);
    if i < 0 {
        s.push(e)
    } else if s[i].kind is Created && e.kind is Deleted {
        s.remove(i)
    } else if s[i].kind is Created && e.kind is Modified {
        s
    } else {
        s.remove(i).push(e)
    }
}

/// The entries are in the order of their timestamps.
pub open spec fn times_ordered(s: Seq<FileChange>) -> bool {
    forall|i: int, j: int| 0 <= i < j < s.len() ==> s[i].timestamp <= s[j].timestamp
}

/// The later of two times.
pub open spec fn max_time(a: u64, b: u64) -> u64 {
    if a >= b {
        a
    } else {
        b
    }
}

/// No entry is later than `now`.
pub open spec fn none_after(s: Seq<FileChange>, now: u64) -> bool {
    forall|i: int| 0 <= i < s.len() ==> s[i].timestamp <= now
}

/// The entry has been quiet for at least `window` nanoseconds at time `now`
/// (a timestamp later than `now` counts as no time passed).
pub open spec fn settled(e: FileChange, now: u64, window: u64) -> bool {
    (if now >= e.timestamp {
        now - e.timestamp
    } else {
        0
    }) >= window
}

/// The entries that a flush at `now` hands out, in pending order.
pub open spec fn settled_part(s: Seq<FileChange>, now: u64, window: u64) -> Seq<FileChange> {
    s.filter(|e: FileChange| settled(e, now, window))
}

/// The entries that stay pending after a flush at `now`, in pending order.
pub open spec fn unsettled_part(s: Seq<FileChange>, now: u64, window: u64) -> Seq<FileChange> {
    s.filter(|e: FileChange| !settled(e, now, window))
}

/// The window in nanoseconds for a window given in milliseconds, saturating.
pub open spec fn window_nanos_of(ms: u64) -> u64 {
    if ms <= u64::MAX / 1_000_000 {
        (ms * 1_000_000) as u64
    } else {
        u64::MAX
    }
}

/// The monotonic clock's reading type, held opaque.
#[verifier::external_type_specification]
#[verifier::external_body]
pub struct ExInstant(Instant);

/// Relies on std::time::Instant::now: a reading of the monotonic clock.
#[verifier::external_body]
fn clock_origin() -> (r: Instant) {
    Instant::now()
}

/// Relies on std::time::Instant::elapsed: the time since `origin`, in nanoseconds.
/// Nothing is promised of the reading.
#[verifier::external_body]
fn nanos_since(origin: &Instant) -> (r: u64) {
    origin.elapsed().as_nanos() as u64
}

/// A raw notification from the platform watcher, by the kind it reports.
#[derive(Debug, Clone, Copy, PartialEq, Eq)]
pub enum RawEventKind {
    CreateAny,
    CreateFile,
    CreateFolder,
    CreateOther,
    ModifyAny,
    ModifyData,
    ModifyMetadata,
    RenameAny,
    RenameTo,
    RenameFrom,
    RenameBoth,
    RenameOther,
    ModifyOther,
    RemoveAny,
    RemoveFile,
    RemoveFolder,
    RemoveOther,
    Access,
    Any,
    Other,
}

/// The change that a raw notification stands for, one per path it carries;
/// `None` for the notifications that are ignored. A rename that carries both
/// paths is not listed here: it becomes one `Renamed` entry on its source path.
pub open spec fn change_for(raw: RawEventKind) -> Option<ChangeKind> {
    match raw {
        RawEventKind::CreateAny | RawEventKind::CreateFile | RawEventKind::CreateFolder => Some(
            ChangeKind::Created,
        ),
        RawEventKind::ModifyData => Some(ChangeKind::Modified),
        RawEventKind::RenameFrom => Some(ChangeKind::Deleted),
        RawEventKind::RenameTo => Some(ChangeKind::Created),
        RawEventKind::RemoveAny | RawEventKind::RemoveFile | RawEventKind::RemoveFolder => Some(
            ChangeKind::Deleted,
        ),
        _ => None,
    }
}

/// The table from raw notifications to changes.
pub fn change_for_raw(raw: RawEventKind) -> (r: Option<ChangeKind>)
    ensures
        r == change_for(raw),
{
    match raw {
        RawEventKind::CreateAny | RawEventKind::CreateFile | RawEventKind::CreateFolder => Some(
            ChangeKind::Created,
        ),
        RawEventKind::ModifyData => Some(ChangeKind::Modified),
        RawEventKind::RenameFrom => Some(ChangeKind::Deleted),
        RawEventKind::RenameTo => Some(ChangeKind::Created),
        RawEventKind::RemoveAny | RawEventKind::RemoveFile | RawEventKind::RemoveFolder => Some(
            ChangeKind::Deleted,
        ),
        _ => None,
    }
}

/// The pending entries after `kind` arrives, at time `now`, for each path in turn.
pub open spec fn merged_each(
    s: Seq<FileChange>,
    paths: Seq<String>,
    kind: ChangeKind,
    now: u64,
) -> Seq<FileChange>
    decreases paths.len(),
{
    if paths.len() == 0 {
        s
    } else {
        merged(
            merged_each(s, paths.drop_last(), kind, now),
            FileChange { path: paths.last(), kind, timestamp: now },
        )
    }
}

/// The pending entries after a raw notification of kind `raw` that carries
/// `paths` arrives at time `now`.
pub open spec fn after_raw(
    s: Seq<FileChange>,
    raw: RawEventKind,
    paths: Seq<String>,
    now: u64,
) -> Seq<FileChange> {
    if raw is RenameBoth {
        if paths.len() >= 2 {
            merged(
                s,
                FileChange {
                    path: paths[0],
                    kind: ChangeKind::Renamed { from: paths[0], to: paths[1] },
                    timestamp: now,
                },
            )
        } else {
            s
        }
    } else {
        match change_for(raw) {
            Some(k) => merged_each(s, paths, k, now),
            None => s,
        }
    }
}

impl ChangeKind {
    /// An equal change kind.
    pub fn duplicate(&self) -> (r: Self)
        ensures
            r == *self,
    {
        match self {
            ChangeKind::Created => ChangeKind::Created,
            ChangeKind::Modified => ChangeKind::Modified,
            ChangeKind::Deleted => ChangeKind::Deleted,
            ChangeKind::Renamed { from, to } => ChangeKind::Renamed {
                from: from.clone(),
                to: to.clone(),
            },
        }
    }
}

/// Merges raw change events per path and releases them once they have been
/// quiet for the debounce window.
pub struct Debouncer {
    pending: Vec<FileChange>,
    window: u64,
    origin: Instant,
    latest: u64,
}

impl Debouncer {
    /// The pending entries, at most one per path, in the order they were
    /// recorded.
    pub closed spec fn pending_seq(&self) -> Seq<FileChange> {
        self.pending@
    }

    /// The debounce window in nanoseconds.
    pub closed spec fn window_nanos(&self) -> u64 {
        self.window
    }

    /// The latest time this debouncer has seen, from its clock or given to it.
    pub closed spec fn latest_time(&self) -> u64 {
        self.latest
    }

    /// At most one pending entry per path, and none later than the latest
    /// time seen.
    pub open spec fn wf(&self) -> bool {
        &&& paths_distinct(self.pending_seq())
        &&& none_after(self.pending_seq(), self.latest_time())
    }

    /// Notes that time `now` has been seen.
    fn observe(&mut self, now: u64)
        requires
            old(self).wf(),
        ensures
            final(self).wf(),
            final(self).pending == old(self).pending,
            final(self).window == old(self).window,
            final(self).latest == max_time(old(self).latest, now),
    {
        if now > self.latest {
            self.latest = now;
        }
    }

    /// Reads this debouncer's clock; a reading earlier than a time already
    /// seen counts as that time, so readings never go back.
    fn tick(&mut self) -> (now: u64)
        requires
            old(self).wf(),
        ensures
            final(self).wf(),
            final(self).pending == old(self).pending,
            final(self).window == old(self).window,
            now >= old(self).latest,
            final(self).latest == now,
    {
        let reading = nanos_since(&self.origin);
        self.observe(reading);
        self.latest
    }

    /// A debouncer with nothing pending and a window of `window_ms` milliseconds.
    pub fn new(window_ms: u64) -> (r: Self)
        ensures
            r.wf(),
            r.latest_time() == 0,
            r.pending_seq() == Seq::<FileChange>::empty(),
            r.window_nanos() == window_nanos_of(window_ms),
    {
        let window = if window_ms <= u64::MAX / 1_000_000 {
            window_ms * 1_000_000
        } else {
            u64::MAX
        };
        Debouncer { pending: Vec::new(), window, origin: clock_origin(), latest: 0 }
    }

    /// Records `kind` for `path` as of time `now` (nanoseconds on this
    /// debouncer's clock), merging it with what is pending for the path.
    pub fn add_event_at(&mut self, path: String, kind: ChangeKind, now: u64)
        requires
            old(self).wf(),
        ensures
            final(self).wf(),
            final(self).window_nanos() == old(self).window_nanos(),
            final(self).pending_seq() == merged(
                old(self).pending_seq(),
                (FileChange { path, kind, timestamp: now }),
            ),
            final(self).latest_time() == max_time(old(self).latest_time(), now),
            times_ordered(old(self).pending_seq()) && none_after(old(self).pending_seq(), now)
                ==> times_ordered(final(self).pending_seq()),
    {
        self.observe(now);
        let ghost s = self.pending@;
        let ghost e = FileChange { path, kind, timestamp: now };
        proof {
            lemma_merged_none_after(s, e, self.latest);
        }
        match locate(&self.pending, &path) {
            None => {
                proof {
                    assert(position_of(s, path@) == -1);
                }
                self.pending.push(FileChange { path, kind, timestamp: now });
                proof {
                    assert(self.pending@ == s.push(e));
                }
            },
            Some(i) => {
                proof {
                    assert(holds_path(s, path@));
                    let j = position_of(s, path@);
                    assert(0 <= j < s.len() && s[j].path@ == path@);
                    assert(j == i);
                }
                let was_created = matches!(self.pending[i].kind, ChangeKind::Created);
                if was_created && matches!(kind, ChangeKind::Deleted) {
                    self.pending.remove(i);
                } else if was_created && matches!(kind, ChangeKind::Modified) {
                } else {
                    self.pending.remove(i);
                    self.pending.push(FileChange { path, kind, timestamp: now });
                    proof {
                        assert(self.pending@ =~= s.remove(i as int).push(e));
                    }
                }
            },
        }
    }

    /// Records `kind` for `path` at the current time on this debouncer's clock.
    pub fn add_event(&mut self, path: String, kind: ChangeKind)
        requires
            old(self).wf(),
        ensures
            final(self).wf(),
            final(self).window_nanos() == old(self).window_nanos(),
            times_ordered(old(self).pending_seq()) ==> times_ordered(final(self).pending_seq()),
            final(self).latest_time() >= old(self).latest_time(),
            final(self).pending_seq() == merged(
                old(self).pending_seq(),
                (FileChange { path, kind, timestamp: final(self).latest_time() }),
            ),
    {
        let now = self.tick();
        self.add_event_at(path, kind, now);
    }

    /// Hands out, in pending order, every entry that has been quiet for the
    /// window as of time `now`, and keeps the others pending.
    pub fn flush_at(&mut self, now: u64) -> (r: Vec<FileChange>)
        requires
            old(self).wf(),
        ensures
            final(self).wf(),
            final(self).window_nanos() == old(self).window_nanos(),
            r@ == settled_part(old(self).pending_seq(), now, old(self).window_nanos()),
            final(self).pending_seq() == unsettled_part(
                old(self).pending_seq(),
                now,
                old(self).window_nanos(),
            ),
            paths_distinct(r@),
            final(self).latest_time() == max_time(old(self).latest_time(), now),
            times_ordered(old(self).pending_seq()) ==> times_ordered(r@) && times_ordered(
                final(self).pending_seq(),
            ),
    {
        self.observe(now);
        let ghost s = self.pending@;
        let window = self.window;
        let mut entries: Vec<FileChange> = Vec::new();
        std::mem::swap(&mut entries, &mut self.pending);
        let mut ready: Vec<FileChange> = Vec::new();
        let mut rest: Vec<FileChange> = Vec::new();
        for e in it: entries
            invariant
                it.seq() == s,
                ready@ == settled_part(s.subrange(0, it.index() as int), now, window),
                rest@ == unsettled_part(s.subrange(0, it.index() as int), now, window),
        {
            let ghost k = it.index() as int;
            proof {
                assert(e == s[k]);
                assert(s.subrange(0, k + 1).drop_last() =~= s.subrange(0, k));
                assert(s.subrange(0, k + 1).last() == e);
                reveal(Seq::filter);
            }
            let age = if now >= e.timestamp {
                now - e.timestamp
            } else {
                0
            };
            if age >= window {
                ready.push(e);
            } else {
                rest.push(e);
            }
        }
        proof {
            assert(s.subrange(0, s.len() as int) =~= s);
            lemma_filter_keeps_distinct(s, |e: FileChange| settled(e, now, window));
            lemma_filter_keeps_distinct(s, |e: FileChange| !settled(e, now, window));
            lemma_filter_none_after(s, |e: FileChange| !settled(e, now, window), self.latest);
            if times_ordered(s) {
                lemma_filter_keeps_order(s, |e: FileChange| settled(e, now, window));
                lemma_filter_keeps_order(s, |e: FileChange| !settled(e, now, window));
            }
        }
        self.pending = rest;
        ready
    }

    /// Hands out every entry that has been quiet for the window as of the
    /// current time on this debouncer's clock, and keeps the others pending.
    pub fn flush(&mut self) -> (r: Vec<FileChange>)
        requires
            old(self).wf(),
        ensures
            final(self).wf(),
            final(self).window_nanos() == old(self).window_nanos(),
            paths_distinct(r@),
            times_ordered(old(self).pending_seq()) ==> times_ordered(r@) && times_ordered(
                final(self).pending_seq(),
            ),
            final(self).latest_time() >= old(self).latest_time(),
            r@ == settled_part(
                old(self).pending_seq(),
                final(self).latest_time(),
                old(self).window_nanos(),
            ),
            final(self).pending_seq() == unsettled_part(
                old(self).pending_seq(),
                final(self).latest_time(),
                old(self).window_nanos(),
            ),
    {
        let now = self.tick();
        self.flush_at(now)
    }

    /// Hands out every pending entry, whatever its age, and leaves nothing pending.
    pub fn flush_all(&mut self) -> (r: Vec<FileChange>)
        requires
            old(self).wf(),
        ensures
            final(self).wf(),
            final(self).window_nanos() == old(self).window_nanos(),
            r@ == old(self).pending_seq(),
            final(self).pending_seq() == Seq::<FileChange>::empty(),
    {
        let mut drained: Vec<FileChange> = Vec::new();
        std::mem::swap(&mut drained, &mut self.pending);
        drained
    }

    /// Feeds one raw notification, which carries `paths`, as of time `now`.
    pub fn add_raw_event_at(&mut self, raw: RawEventKind, paths: &Vec<String>, now: u64)
        requires
            old(self).wf(),
        ensures
            final(self).wf(),
            final(self).window_nanos() == old(self).window_nanos(),
            final(self).pending_seq() == after_raw(old(self).pending_seq(), raw, paths@, now),
            final(self).latest_time() == max_time(old(self).latest_time(), now),
    {
        self.observe(now);
        if matches!(raw, RawEventKind::RenameBoth) {
            if paths.len() >= 2 {
                let from = paths[0].clone();
                let to = paths[1].clone();
                let path = paths[0].clone();
                self.add_event_at(path, ChangeKind::Renamed { from, to }, now);
            }
        } else {
            match change_for_raw(raw) {
                Some(kind) => {
                    let ghost s = self.pending@;
                    let mut i: usize = 0;
                    while i < paths.len()
                        invariant
                            self.wf(),
                            self.window == old(self).window,
                            self.latest == max_time(old(self).latest, now),
                            i <= paths@.len(),
                            self.pending@ == merged_each(
                                s,
                                paths@.subrange(0, i as int),
                                kind,
                                now,
                            ),
                        decreases paths@.len() - i,
                    {
                        proof {
                            assert(paths@.subrange(0, i + 1).drop_last() =~= paths@.subrange(
                                0,
                                i as int,
                            ));
                        }
                        self.add_event_at(paths[i].clone(), kind.duplicate(), now);
                        i += 1;
                    }
                    proof {
                        assert(paths@.subrange(0, paths@.len() as int) =~= paths@);
                    }
                },
                None => {},
            }
        }
    }

    /// Feeds one raw notification, which carries `paths`, at the current time
    /// on this debouncer's clock.
    pub fn add_raw_event(&mut self, raw: RawEventKind, paths: &Vec<String>)
        requires
            old(self).wf(),
        ensures
            final(self).wf(),
            final(self).window_nanos() == old(self).window_nanos(),
            final(self).latest_time() >= old(self).latest_time(),
            final(self).pending_seq() == after_raw(
                old(self).pending_seq(),
                raw,
                paths@,
                final(self).latest_time(),
            ),
    {
        let now = self.tick();
        self.add_raw_event_at(raw, paths, now);
    }

    /// Whether anything is pending.
    pub fn has_pending(&self) -> (r: bool)
        ensures
            r == (self.pending_seq().len() > 0),
    {
        self.pending.len() > 0
    }
}

/// The position of the entry for `path`, if any.
fn locate(entries: &Vec<FileChange>, path: &String) -> (r: Option<usize>)
    ensures
        match r {
            Some(i) => i < entries@.len() && entries@[i as int].path@ == path@,
            None => !holds_path(entries@, path@),
        },
{
    let mut i: usize = 0;
    while i < entries.len()
        invariant
            i <= entries@.len(),
            forall|j: int| 0 <= j < i ==> entries@[j].path@ != path@,
        decreases entries@.len() - i,
    {
        if entries[i].path == *path {
            return Some(i);
        }
        i += 1;
    }
    None
}

/// Merging keeps the paths distinct, and unless the arrival cancels a
/// creation, the merged entries hold an entry for the arriving path, which is
/// the arrival itself or the creation it left standing.
pub proof fn lemma_merged_entry(s: Seq<FileChange>, e: FileChange)
    requires
        paths_distinct(s),
    ensures
        paths_distinct(merged(s, e)),
        ({
            let m = merged(s, e);
            let i = position_of(s, e.path@);
            if i >= 0 && s[i].kind is Created && e.kind is Deleted {
                !holds_path(m, e.path@)
            } else if i >= 0 && s[i].kind is Created && e.kind is Modified {
                m[position_of(m, e.path@)] == s[i]
            } else {
                m[position_of(m, e.path@)] == e
            }
        }),
        !(position_of(s, e.path@) >= 0 && s[position_of(s, e.path@)].kind is Created
            && e.kind is Deleted) ==> holds_path(merged(s, e), e.path@),
{
    let m = merged(s, e);
    let p = e.path@;
    let i = position_of(s, p);
    if i < 0 {
        assert(m == s.push(e));
        assert(m[s.len() as int].path@ == p);
        assert(holds_path(m, p));
        let j = position_of(m, p);
        assert(j == s.len());
    } else {
        assert(0 <= i < s.len() && s[i].path@ == p);
        if s[i].kind is Created && e.kind is Deleted {
            assert(m == s.remove(i));
            if holds_path(m, p) {
                let j = choose|j: int| 0 <= j < m.len() && m[j].path@ == p;
                if j < i {
                    assert(s[j] == m[j]);
                } else {
                    assert(s[j + 1] == m[j]);
                }
            }
        } else if s[i].kind is Created && e.kind is Modified {
            assert(m == s);
        } else {
            let r = s.remove(i);
            assert(m == r.push(e));
            assert(!holds_path(r, p)) by {
                if holds_path(r, p) {
                    let j = choose|j: int| 0 <= j < r.len() && r[j].path@ == p;
                    if j < i {
                        assert(s[j] == r[j]);
                    } else {
                        assert(s[j + 1] == r[j]);
                    }
                }
            }
            assert(paths_distinct(r)) by {
                assert forall|a: int, b: int|
                    0 <= a < r.len() && 0 <= b < r.len() && a != b implies r[a].path@ != r[b].path@ by {
                    let sa = if a < i { a } else { a + 1 };
                    let sb = if b < i { b } else { b + 1 };
                    assert(r[a] == s[sa] && r[b] == s[sb]);
                }
            }
            assert(m[r.len() as int].path@ == p);
            assert(holds_path(m, p));
            let j = position_of(m, p);
            assert(j == r.len());
        }
    }
}

/// A creation followed by a deletion of the same path leaves nothing pending
/// for the path, so flushing everything afterwards hands out no event for it.
pub proof fn lemma_create_then_delete_collapses(s: Seq<FileChange>, p: String, t1: u64, t2: u64)
    requires
        paths_distinct(s),
    ensures
        !holds_path(
            merged(
                merged(s, FileChange { path: p, kind: ChangeKind::Created, timestamp: t1 }),
                FileChange { path: p, kind: ChangeKind::Deleted, timestamp: t2 },
            ),
            p@,
        ),
{
    let c = FileChange { path: p, kind: ChangeKind::Created, timestamp: t1 };
    let d = FileChange { path: p, kind: ChangeKind::Deleted, timestamp: t2 };
    lemma_merged_entry(s, c);
    let s1 = merged(s, c);
    assert(holds_path(s1, p@));
    lemma_merged_entry(s1, d);
}

/// A modification after a creation of the same path leaves the creation, with
/// its own timestamp, pending; once the window has passed since the creation,
/// a flush hands out exactly one event for the path, and it is a creation,
/// and nothing stays pending for the path.
pub proof fn lemma_create_dominates_modify(
    s: Seq<FileChange>,
    p: String,
    t1: u64,
    t2: u64,
    now: u64,
    window: u64,
)
    requires
        paths_distinct(s),
        now >= t1,
        now - t1 >= window,
    ensures
        ({
            let r = settled_part(
                merged(
                    merged(s, FileChange { path: p, kind: ChangeKind::Created, timestamp: t1 }),
                    FileChange { path: p, kind: ChangeKind::Modified, timestamp: t2 },
                ),
                now,
                window,
            );
            &&& holds_path(r, p@)
            &&& paths_distinct(r)
            &&& forall|i: int|
                0 <= i < r.len() && r[i].path@ == p@ ==> r[i].kind == ChangeKind::Created
                    && r[i].timestamp == t1
            &&& !holds_path(
                unsettled_part(
                    merged(
                        merged(s, FileChange { path: p, kind: ChangeKind::Created, timestamp: t1 }),
                        FileChange { path: p, kind: ChangeKind::Modified, timestamp: t2 },
                    ),
                    now,
                    window,
                ),
                p@,
            )
        }),
{
    let c = FileChange { path: p, kind: ChangeKind::Created, timestamp: t1 };
    let m = FileChange { path: p, kind: ChangeKind::Modified, timestamp: t2 };
    lemma_merged_entry(s, c);
    let s1 = merged(s, c);
    assert(holds_path(s1, p@));
    lemma_merged_entry(s1, m);
    let s2 = merged(s1, m);
    assert(s2 == s1);
    let j = position_of(s2, p@);
    assert(s2[j] == c);
    let pred = |e: FileChange| settled(e, now, window);
    assert(pred(s2[j]));
    s2.lemma_filter_contains(pred, j);
    let r = s2.filter(pred);
    assert(r.contains(c));
    assert(holds_path(r, p@));
    lemma_filter_keeps_distinct(s2, pred);
    assert forall|i: int| 0 <= i < r.len() && r[i].path@ == p@ implies r[i].kind
        == ChangeKind::Created && r[i].timestamp == t1 by {
        assert(r.contains(r[i]));
        s2.lemma_filter_contains_rev(pred, r[i]);
        let k = choose|k: int| 0 <= k < s2.len() && s2[k] == r[i];
        assert(k == j);
    }
    let busy = |e: FileChange| !settled(e, now, window);
    let u = s2.filter(busy);
    if holds_path(u, p@) {
        let i = choose|i: int| 0 <= i < u.len() && u[i].path@ == p@;
        assert(u.contains(u[i]));
        s2.lemma_filter_contains_rev(busy, u[i]);
        let k = choose|k: int| 0 <= k < s2.len() && s2[k] == u[i];
        assert(k == j);
        s2.lemma_filter_pred(busy, i);
    }
}

/// Filtering keeps the entries in the order of their timestamps.
proof fn lemma_filter_keeps_order(s: Seq<FileChange>, pred: spec_fn(FileChange) -> bool)
    requires
        times_ordered(s),
    ensures
        times_ordered(s.filter(pred)),
    decreases s.len(),
{
    reveal(Seq::filter);
    if s.len() > 0 {
        let rest = s.drop_last();
        lemma_filter_keeps_order(rest, pred);
        if pred(s.last()) {
            let f = rest.filter(pred);
            assert forall|i: int| 0 <= i < f.len() implies f[i].timestamp <= s.last().timestamp by {
                assert(f.contains(f[i]));
                rest.lemma_filter_contains_rev(pred, f[i]);
                let j = choose|j: int| 0 <= j < rest.len() && rest[j] == f[i];
                assert(s[j] == rest[j]);
            }
        }
    }
}

/// Merging an entry no later than `t` keeps every entry no later than `t`.
proof fn lemma_merged_none_after(s: Seq<FileChange>, e: FileChange, t: u64)
    requires
        none_after(s, t),
        e.timestamp <= t,
    ensures
        none_after(merged(s, e), t),
{
    let m = merged(s, e);
    let i = position_of(s, e.path@);
    if i >= 0 {
        assert(0 <= i < s.len() && s[i].path@ == e.path@);
        assert forall|k: int| 0 <= k < s.remove(i).len() implies s.remove(i)[k].timestamp <= t by {
            if k < i {
                assert(s.remove(i)[k] == s[k]);
            } else {
                assert(s.remove(i)[k] == s[k + 1]);
            }
        }
    }
}

/// Filtering keeps every entry no later than `t`.
proof fn lemma_filter_none_after(s: Seq<FileChange>, pred: spec_fn(FileChange) -> bool, t: u64)
    requires
        none_after(s, t),
    ensures
        none_after(s.filter(pred), t),
{
    let f = s.filter(pred);
    assert forall|k: int| 0 <= k < f.len() implies f[k].timestamp <= t by {
        assert(f.contains(f[k]));
        s.lemma_filter_contains_rev(pred, f[k]);
    }
}

/// Filtering keeps the paths distinct.
proof fn lemma_filter_keeps_distinct(s: Seq<FileChange>, pred: spec_fn(FileChange) -> bool)
    requires
        paths_distinct(s),
    ensures
        paths_distinct(s.filter(pred)),
    decreases s.len(),
{
    reveal(Seq::filter);
    if s.len() > 0 {
        let rest = s.drop_last();
        assert(paths_distinct(rest));
        lemma_filter_keeps_distinct(rest, pred);
        if pred(s.last()) {
            let f = rest.filter(pred);
            assert forall|i: int| 0 <= i < f.len() implies f[i].path@ != s.last().path@ by {
                assert(f.contains(f[i]));
                rest.lemma_filter_contains_rev(pred, f[i]);
                let j = choose|j: int| 0 <= j < rest.len() && rest[j] == f[i];
                assert(s[j] == rest[j]);
            }
        }
    }
}

} // verus!
