//! Watched directories, and what the cache does when files change.

use crate::cache;
use crate::cache::registry;
use crate::cache::CacheState;
use crate::cache::SearchCache;
use crate::text;
use vstd::prelude::*;

verus! {

/// The directories that are watched.
pub struct FileWatcher {
    pub watched_roots: Vec<String>,
}

/// What to do when a directory is to be watched.
pub enum WatchStep {
    /// It is watched already.
    AlreadyWatched,
    /// It does not exist.
    Missing(String),
    /// Watching is to be started.
    Start,
}

impl View for FileWatcher {
    type V = Set<Seq<char>>;

    open spec fn view(&self) -> Set<Seq<char>> {
        text::views(self.watched_roots@).to_set()
    }
}

impl FileWatcher {
    /// A watcher of nothing.
    pub fn new() -> (r: FileWatcher)
        ensures
            r@.is_empty(),
    {
        let r = FileWatcher { watched_roots: Vec::new() };
        assert(r@ =~= Set::<Seq<char>>::empty());
        r
    }

    /// Decides whether watching a directory has to be started.
    pub fn watch(&self, path: &str, exists: bool) -> (r: WatchStep)
        ensures
            r is AlreadyWatched <==> self@.contains(path@),
            r is Missing <==> !self@.contains(path@) && !exists,
            r matches WatchStep::Missing(e) ==> e@ == "Path does not exist: "@ + path@,
    {
        if registry::is_listed(&self.watched_roots, path) {
            WatchStep::AlreadyWatched
        } else if !exists {
            let mut e = text::copy("Path does not exist: ");
            e.append(path);
            WatchStep::Missing(e)
        } else {
            WatchStep::Start
        }
    }

    /// Notes that a directory is watched.
    pub fn started(&mut self, path: &str)
        ensures
            final(self)@ == old(self)@.insert(path@),
    {
        let ghost before = self.watched_roots@;
        self.watched_roots.push(text::copy(path));
        proof {
            text::lemma_views_push(before, self.watched_roots@.last());
            registry::lemma_push_to_set(text::views(before), path@);
        }
    }
}

/// A changed file, with the root of its project where it has one.
pub struct Change {
    pub path: String,
    pub root: Option<String>,
}

/// What a change holds.
pub open spec fn change_view(c: Change) -> (Seq<char>, Option<Seq<char>>) {
    (
        c.path@,
        match c.root {
            Some(r) => Some(r@),
            None => None,
        },
    )
}

/// What a list of changes holds.
pub open spec fn change_views(v: Seq<Change>) -> Seq<(Seq<char>, Option<Seq<char>>)> {
    Seq::new(v.len(), |i: int| change_view(v[i]))
}

/// The state after one change: stale entries are gone, and the file is on record.
pub open spec fn after_change(
    s: CacheState,
    c: (Seq<char>, Option<Seq<char>>),
) -> CacheState {
    let t = cache::invalidated(s, c.0);
    match c.1 {
        Some(root) => CacheState { modified: cache::recorded(t.modified, root, c.0), ..t },
        None => t,
    }
}

/// The state after some changes, in order.
pub open spec fn after_changes(
    s: CacheState,
    cs: Seq<(Seq<char>, Option<Seq<char>>)>,
) -> CacheState
    decreases cs.len(),
{
    if cs.len() == 0 {
        s
    } else {
        after_change(after_changes(s, cs.drop_last()), cs.last())
    }
}

/// The state after an event. Where earlier events were lost, the active projects are flushed
/// first.
pub open spec fn after_event(
    s: CacheState,
    overflowed: bool,
    cs: Seq<(Seq<char>, Option<Seq<char>>)>,
) -> CacheState {
    after_changes(
        if overflowed {
            cache::active_flushed(s)
        } else {
            s
        },
        cs,
    )
}

/// Applies an event to the cache. `overflowed` tells that earlier events were lost.
pub fn process_event(search_cache: &mut SearchCache, overflowed: bool, changes: &Vec<Change>)
    requires
        old(search_cache).wf(),
    ensures
        final(search_cache).wf(),
        final(search_cache)@ == after_event(
            old(search_cache)@,
            overflowed,
            change_views(changes@),
        ),
{
    let ghost s = search_cache@;
    if overflowed {
        search_cache.clear_volatile_for_active_projects();
    }
    let ghost base = search_cache@;
    let ghost all = change_views(changes@);
    let mut i: usize = 0;
    while i < changes.len()
        invariant
            i <= changes@.len(),
            all == change_views(changes@),
            search_cache.wf(),
            search_cache@ == after_changes(base, all.take(i as int)),
        decreases changes@.len() - i,
    {
        proof {
            assert(all.take(i + 1).drop_last() == all.take(i as int));
            assert(all.take(i + 1).last() == change_view(changes@[i as int]));
        }
        let change = &changes[i];
        search_cache.invalidate_path(change.path.as_str());
        if let Some(root) = &change.root {
            search_cache.record_modified(root.as_str(), change.path.as_str());
        }
        i += 1;
    }
    assert(all.take(all.len() as int) == all);
}

/// Changes only ever remove cached outputs.
pub proof fn law_changes_add_no_content(s: CacheState, cs: Seq<(Seq<char>, Option<Seq<char>>)>)
    ensures
        after_changes(s, cs).content.submap_of(s.content),
    decreases cs.len(),
{
    if cs.len() > 0 {
        law_changes_add_no_content(s, cs.drop_last());
    }
}

proof fn lemma_changes_evict(
    s: CacheState,
    cs: Seq<(Seq<char>, Option<Seq<char>>)>,
    i: int,
    mode: Seq<char>,
)
    requires
        0 <= i < cs.len(),
        mode == "skeleton"@ || mode == "compressed"@ || mode == "full"@,
    ensures
        !after_changes(s, cs).content.dom().contains(cache::read_key(cs[i].0, mode)),
    decreases cs.len(),
{
    if i < cs.len() - 1 {
        lemma_changes_evict(s, cs.drop_last(), i, mode);
        assert(cs.drop_last()[i] == cs[i]);
    } else {
        cache::law_a_change_evicts_the_reads_of_the_file(
            after_changes(s, cs.drop_last()),
            cs.last().0,
            mode,
        );
    }
}

/// After an event, no read of any file that changed is returned.
pub proof fn law_an_event_evicts_its_files(
    s: CacheState,
    overflowed: bool,
    cs: Seq<(Seq<char>, Option<Seq<char>>)>,
    i: int,
    mode: Seq<char>,
)
    requires
        0 <= i < cs.len(),
        mode == "skeleton"@ || mode == "compressed"@ || mode == "full"@,
    ensures
        !after_event(s, overflowed, cs).content.dom().contains(cache::read_key(cs[i].0, mode)),
{
    let base = if overflowed {
        cache::active_flushed(s)
    } else {
        s
    };
    lemma_changes_evict(base, cs, i, mode);
}

proof fn lemma_changes_concat(
    s: CacheState,
    a: Seq<(Seq<char>, Option<Seq<char>>)>,
    b: Seq<(Seq<char>, Option<Seq<char>>)>,
)
    ensures
        after_changes(s, a + b) == after_changes(after_changes(s, a), b),
    decreases b.len(),
{
    if b.len() == 0 {
        assert(a + b =~= a);
    } else {
        lemma_changes_concat(s, a, b.drop_last());
        assert((a + b).drop_last() =~= a + b.drop_last());
    }
}

/// It makes no difference whether changes come in one event or in two.
pub proof fn law_events_can_be_split(
    s: CacheState,
    overflowed: bool,
    a: Seq<(Seq<char>, Option<Seq<char>>)>,
    b: Seq<(Seq<char>, Option<Seq<char>>)>,
)
    ensures
        after_event(s, overflowed, a + b) == after_event(after_event(s, overflowed, a), false, b),
{
    lemma_changes_concat(
        if overflowed {
            cache::active_flushed(s)
        } else {
            s
        },
        a,
        b,
    );
}

/// A file of a project that changes is put on record as modified; one without a project is not.
pub proof fn law_a_changed_file_is_put_on_record(
    s: CacheState,
    path: Seq<char>,
    root: Seq<char>,
)
    requires
        s.modified.dom().contains(root) ==> s.modified[root].len() < 50,
        !s.modified.dom().contains(root) ==> s.modified.dom().len() < 20,
    ensures
        after_event(s, false, seq![(path, Some(root))]).modified.dom().contains(root),
        after_event(s, false, seq![(path, Some(root))]).modified[root].contains(path),
        after_event(s, false, seq![(path, None)]).modified == s.modified,
{
    let known = seq![(path, Some(root))];
    let unknown = seq![(path, None::<Seq<char>>)];
    assert(known.drop_last() =~= Seq::empty());
    assert(unknown.drop_last() =~= Seq::empty());
    reveal_with_fuel(after_changes, 2);
    cache::law_modified_files_are_recorded_while_there_is_room(s.modified, root, path, root);
}

/// Where events were lost, nothing is returned that was cached before for a project with modified
/// files, or at all where no project has any.
pub proof fn law_lost_events_flush_the_cache(
    s: CacheState,
    cs: Seq<(Seq<char>, Option<Seq<char>>)>,
    key: Seq<char>,
)
    requires
        forall|p: Seq<char>| !s.modified.dom().contains(p),
    ensures
        !after_event(s, true, cs).content.dom().contains(key),
{
    cache::law_a_flush_without_active_projects_drops_all_outputs(s, key);
    law_changes_add_no_content(cache::active_flushed(s), cs);
}

/// Changes are listed one by one, with the path and the root of each.
pub proof fn law_changes_are_listed_one_by_one(v: Seq<Change>, i: int)
    requires
        0 <= i < v.len(),
    ensures
        change_views(v).len() == v.len(),
        change_views(v)[i].0 == v[i].path@,
        v[i].root matches Some(r) ==> change_views(v)[i].1 == Some(r@),
        v[i].root is None ==> change_views(v)[i].1 is None,
{
}

} // verus!
