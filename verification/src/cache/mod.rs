//! Cached reads, searches and symbol indexes, and their eviction when files change.

use crate::cache::registry::Group;
use crate::cache::registry::Registry;
use crate::paths;
use crate::text;
use crate::tools::index::ProjectIndex;
use std::sync::Arc;
use vstd::prelude::*;

pub mod registry;
pub mod store;
pub mod watcher;

verus! {

/// The cached reads, searches and symbol indexes of all projects.
pub struct SearchCache {
    /// Outputs of reads and searches by key.
    pub content: moka::sync::Cache<String, String>,
    /// What was last sent, by agent and file.
    pub last_sent: moka::sync::Cache<(String, String), String>,
    /// Symbol indexes by project root.
    pub symbol_index: moka::sync::Cache<String, Arc<ProjectIndex>>,
    /// The search keys of each project.
    pub search_keys: Registry,
    /// The agents that a file was sent to.
    pub last_sent_agents: Registry,
    /// The files of each project that were modified.
    pub modified_files: Registry,
}

/// What a cache may still return, and its registries.
pub struct CacheState {
    pub content: Map<Seq<char>, Seq<char>>,
    pub last_sent: Map<(Seq<char>, Seq<char>), Seq<char>>,
    pub symbol_index: Map<Seq<char>, Map<Seq<char>, Seq<(Seq<char>, nat, Seq<char>)>>>,
    pub search_keys: Map<Seq<char>, Set<Seq<char>>>,
    pub agents: Map<Seq<char>, Set<Seq<char>>>,
    pub modified: Map<Seq<char>, Set<Seq<char>>>,
}

impl View for SearchCache {
    type V = CacheState;

    open spec fn view(&self) -> CacheState {
        CacheState {
            content: store::text_entries(self.content),
            last_sent: store::pair_entries(self.last_sent),
            symbol_index: store::index_entries(self.symbol_index),
            search_keys: self.search_keys@,
            agents: self.last_sent_agents@,
            modified: self.modified_files@,
        }
    }
}

// ---------------------------------------------------------------------------
// Keys
// ---------------------------------------------------------------------------

/// The key of a search.
pub open spec fn search_key(
    path: Seq<char>,
    query: Seq<char>,
    case_insensitive: bool,
    glob: Option<Seq<char>>,
) -> Seq<char> {
    "search:"@ + path + ":"@ + query + ":"@ + (if case_insensitive {
        "true"@
    } else {
        "false"@
    }) + ":"@ + (match glob {
        Some(g) => g,
        None => ""@,
    })
}

/// The key of a read.
pub open spec fn read_key(path: Seq<char>, mode: Seq<char>) -> Seq<char> {
    "read:"@ + path + ":"@ + mode
}

/// Whether a key is that of a read.
pub open spec fn is_read_key(key: Seq<char>) -> bool {
    text::begins_with(key, "read:"@)
}

proof fn lemma_read_key(path: Seq<char>, mode: Seq<char>)
    ensures
        is_read_key(read_key(path, mode)),
{
    let k = read_key(path, mode);
    let p = "read:"@;
    assert(k.subrange(0, p.len() as int) =~= p);
}

/// A search never has the key of a read.
pub proof fn law_searches_and_reads_have_different_keys(
    path: Seq<char>,
    query: Seq<char>,
    case_insensitive: bool,
    glob: Option<Seq<char>>,
)
    ensures
        !is_read_key(search_key(path, query, case_insensitive, glob)),
{
    let k = search_key(path, query, case_insensitive, glob);
    reveal_strlit("search:");
    reveal_strlit("read:");
    assert(k[0] == 's');
    if is_read_key(k) {
        assert(k.subrange(0, 5)[0] == 'r');
    }
}

/// The keys of the reads of a file.
pub open spec fn read_keys(path: Seq<char>) -> Set<Seq<char>> {
    set![
        read_key(path, "skeleton"@),
        read_key(path, "compressed"@),
        read_key(path, "full"@),
    ]
}

// ---------------------------------------------------------------------------
// States
// ---------------------------------------------------------------------------

/// How many projects may have modified files on record.
pub const MAX_MODIFIED_PROJECTS: usize = 20;

/// How many modified files of one project are kept on record.
pub const MAX_MODIFIED_FILES: usize = 50;

/// How many search keys a project may have before the registries are compacted.
pub const COMPACTION_THRESHOLD: usize = 200;

/// Whether a key is registered under some project.
pub open spec fn is_registered(keys: Map<Seq<char>, Set<Seq<char>>>, key: Seq<char>) -> bool {
    exists|p: Seq<char>| #[trigger] keys.dom().contains(p) && keys[p].contains(key)
}

/// What holds of every state: a cached output that is not a read is registered under a project,
/// what was sent to an agent is registered under its file, and the record of modified files
/// keeps its limits.
pub open spec fn consistent(s: CacheState) -> bool {
    &&& forall|k: Seq<char>| #[trigger]
        s.content.dom().contains(k) ==> is_read_key(k) || is_registered(s.search_keys, k)
    &&& forall|a: Seq<char>, f: Seq<char>| #[trigger]
        s.last_sent.dom().contains((a, f)) ==> registry::under(s.agents, f).contains(a)
    &&& within_limits(s.modified)
}

/// The limits of the record of modified files.
pub open spec fn within_limits(m: Map<Seq<char>, Set<Seq<char>>>) -> bool {
    &&& m.dom().len() <= MAX_MODIFIED_PROJECTS
    &&& registry::members_capped(m, MAX_MODIFIED_FILES as nat)
}

/// Whether a cached key is registered under a given project.
pub open spec fn followed(s: CacheState, project: Seq<char>, key: Seq<char>) -> bool {
    s.content.dom().contains(key) ==> registry::under(s.search_keys, project).contains(key)
}

/// The state after a file changed.
pub open spec fn invalidated(s: CacheState, path: Seq<char>) -> CacheState {
    CacheState {
        content: s.content.remove_keys(
            read_keys(path).union(registry::members_around(s.search_keys, path)),
        ),
        last_sent: Map::new(
            |k: (Seq<char>, Seq<char>)|
                s.last_sent.dom().contains(k) && !(k.1 == path && registry::under(
                    s.agents,
                    path,
                ).contains(k.0)),
            |k: (Seq<char>, Seq<char>)| s.last_sent[k],
        ),
        symbol_index: store::roots_outside(s.symbol_index, path),
        search_keys: registry::outside(s.search_keys, path),
        agents: s.agents.remove(path),
        modified: s.modified,
    }
}

/// The state without reads and searches.
pub open spec fn volatile_cleared(s: CacheState) -> CacheState {
    CacheState { content: Map::empty(), search_keys: Map::empty(), ..s }
}

/// The keys of the searches and reads of the projects with modified files.
pub open spec fn active_keys(s: CacheState) -> Set<Seq<char>> {
    Set::new(
        |k: Seq<char>|
            exists|p: Seq<char>| #[trigger]
                s.modified.dom().contains(p) && (registry::under(s.search_keys, p).contains(k)
                    || exists|f: Seq<char>| #[trigger]
                    s.modified[p].contains(f) && read_keys(f).contains(k)),
    )
}

/// The state after the cached outputs of the projects with modified files are dropped: all of
/// them where no project has any.
pub open spec fn active_flushed(s: CacheState) -> CacheState {
    if s.modified.dom().is_empty() {
        volatile_cleared(s)
    } else {
        CacheState {
            content: s.content.remove_keys(active_keys(s)),
            search_keys: s.search_keys.remove_keys(s.modified.dom()),
            modified: Map::empty(),
            ..s
        }
    }
}

/// The record of modified files with one more file, within its limits.
pub open spec fn recorded(
    m: Map<Seq<char>, Set<Seq<char>>>,
    root: Seq<char>,
    file: Seq<char>,
) -> Map<Seq<char>, Set<Seq<char>>> {
    if (m.dom().contains(root) || m.dom().len() < MAX_MODIFIED_PROJECTS) && registry::under(
        m,
        root,
    ).len() < MAX_MODIFIED_FILES {
        m.insert(root, registry::under(m, root).insert(file))
    } else {
        m
    }
}

/// What compaction leaves of a registry: `q` has no member that `r` had not, none that the cache
/// had lost before, and all that the cache still has afterwards; and no name without members.
pub open spec fn pruned(
    r: Map<Seq<char>, Set<Seq<char>>>,
    q: Map<Seq<char>, Set<Seq<char>>>,
    before: spec_fn(Seq<char>, Seq<char>) -> bool,
    after: spec_fn(Seq<char>, Seq<char>) -> bool,
) -> bool {
    &&& forall|n: Seq<char>, k: Seq<char>| #[trigger]
        registry::under(q, n).contains(k) ==> registry::under(r, n).contains(k) && before(n, k)
    &&& forall|n: Seq<char>, k: Seq<char>| #[trigger]
        registry::under(r, n).contains(k) && after(n, k) ==> registry::under(q, n).contains(k)
    &&& forall|n: Seq<char>| #[trigger] q.dom().contains(n) ==> exists|k: Seq<char>| q[n].contains(k)
}

/// Whether a state has a key, whatever the project.
pub open spec fn has_content(s: CacheState) -> spec_fn(Seq<char>, Seq<char>) -> bool {
    |p: Seq<char>, k: Seq<char>| s.content.dom().contains(k)
}

/// Whether a state has what was sent of a file to an agent.
pub open spec fn has_sent(s: CacheState) -> spec_fn(Seq<char>, Seq<char>) -> bool {
    |f: Seq<char>, a: Seq<char>| s.last_sent.dom().contains((a, f))
}

/// The state with only the registered keys and agents that are listed as live. What is cached stays.
pub open spec fn with_retained(
    s: CacheState,
    searches: Map<Seq<char>, Set<Seq<char>>>,
    agents: Map<Seq<char>, Set<Seq<char>>>,
) -> CacheState {
    CacheState {
        search_keys: registry::retained(s.search_keys, searches),
        agents: registry::retained(s.agents, agents),
        ..s
    }
}

/// Whether every registered key and agent whose entry is cached is listed as live.
pub open spec fn covers(
    s: CacheState,
    searches: Map<Seq<char>, Set<Seq<char>>>,
    agents: Map<Seq<char>, Set<Seq<char>>>,
) -> bool {
    &&& forall|p: Seq<char>, k: Seq<char>| #[trigger]
        registry::under(s.search_keys, p).contains(k) && s.content.dom().contains(k)
            ==> registry::under(searches, p).contains(k)
    &&& forall|f: Seq<char>, a: Seq<char>| #[trigger]
        registry::under(s.agents, f).contains(a) && s.last_sent.dom().contains((a, f))
            ==> registry::under(agents, f).contains(a)
}

proof fn lemma_retaining_keeps_the_state_consistent(
    s: CacheState,
    searches: Map<Seq<char>, Set<Seq<char>>>,
    agents: Map<Seq<char>, Set<Seq<char>>>,
)
    requires
        consistent(s),
        covers(s, searches, agents),
    ensures
        consistent(with_retained(s, searches, agents)),
{
    let t = with_retained(s, searches, agents);
    assert forall|k: Seq<char>| #[trigger] t.content.dom().contains(k) implies is_read_key(k)
        || is_registered(t.search_keys, k) by {
        assert(s.content.dom().contains(k));
        if !is_read_key(k) {
            let p = choose|p: Seq<char>| #[trigger]
                s.search_keys.dom().contains(p) && s.search_keys[p].contains(k);
            assert(registry::under(s.search_keys, p).contains(k));
            assert(registry::under(searches, p).contains(k));
            assert(t.search_keys.dom().contains(p));
        }
    }
    assert forall|a: Seq<char>, f: Seq<char>| #[trigger]
        t.last_sent.dom().contains((a, f)) implies registry::under(t.agents, f).contains(a) by {
        assert(s.last_sent.dom().contains((a, f)));
        assert(registry::under(s.agents, f).contains(a));
        assert(registry::under(agents, f).contains(a));
        assert(t.agents.dom().contains(f));
    }
}

/// Compaction from `s` to `t`. Nothing happens as long as no project has too many search keys.
/// Otherwise each registered key is looked up, and those that are gone leave the registries.
pub open spec fn compacted(s: CacheState, t: CacheState) -> bool {
    if registry::members_capped(s.search_keys, COMPACTION_THRESHOLD as nat) {
        t == s
    } else {
        &&& t.content.submap_of(s.content)
        &&& forall|k: Seq<char>|
            #![trigger t.content.dom().contains(k)]
            s.content.dom().contains(k) && !t.content.dom().contains(k) ==> is_registered(
                s.search_keys,
                k,
            )
        &&& pruned(s.search_keys, t.search_keys, has_content(s), has_content(t))
        &&& t.last_sent.submap_of(s.last_sent)
        &&& forall|a: Seq<char>, f: Seq<char>|
            #![trigger t.last_sent.dom().contains((a, f))]
            s.last_sent.dom().contains((a, f)) && !t.last_sent.dom().contains((a, f))
                ==> registry::under(s.agents, f).contains(a)
        &&& pruned(s.agents, t.agents, has_sent(s), has_sent(t))
        &&& t.symbol_index == s.symbol_index
        &&& t.modified == s.modified
    }
}

/// The state with one more search.
pub open spec fn with_search(
    s: CacheState,
    project: Seq<char>,
    key: Seq<char>,
    value: Seq<char>,
) -> CacheState {
    CacheState {
        content: s.content.insert(key, value),
        search_keys: s.search_keys.insert(
            project,
            registry::under(s.search_keys, project).insert(key),
        ),
        ..s
    }
}

/// The state with what was last sent to an agent.
pub open spec fn with_sent(
    s: CacheState,
    agent: Seq<char>,
    file: Seq<char>,
    value: Seq<char>,
) -> CacheState {
    CacheState {
        last_sent: s.last_sent.insert((agent, file), value),
        agents: s.agents.insert(file, registry::under(s.agents, file).insert(agent)),
        ..s
    }
}

// ---------------------------------------------------------------------------
// Laws
// ---------------------------------------------------------------------------

/// After a file changed, none of its reads is returned.
pub proof fn law_a_change_evicts_the_reads_of_the_file(s: CacheState, path: Seq<char>, mode: Seq<char>)
    requires
        mode == "skeleton"@ || mode == "compressed"@ || mode == "full"@,
    ensures
        !invalidated(s, path).content.dom().contains(read_key(path, mode)),
{
}

/// After a file changed, no search in a project that the file lies in is returned.
pub proof fn law_a_change_evicts_the_searches_of_its_projects(
    s: CacheState,
    path: Seq<char>,
    project: Seq<char>,
    key: Seq<char>,
)
    requires
        paths::within(path, project),
        followed(s, project, key),
    ensures
        !invalidated(s, path).content.dom().contains(key),
{
    if s.content.dom().contains(key) {
        assert(s.search_keys.dom().contains(project));
        assert(registry::members_around(s.search_keys, path).contains(key));
    }
}

/// After a file changed, no agent's copy of it is a baseline for a diff.
pub proof fn law_a_change_evicts_the_baselines_of_the_file(
    s: CacheState,
    path: Seq<char>,
    agent: Seq<char>,
)
    requires
        consistent(s),
    ensures
        !invalidated(s, path).last_sent.dom().contains((agent, path)),
{
}

/// After a file changed, no symbol index of a root that the file lies in is returned.
pub proof fn law_a_change_evicts_the_symbol_indexes_around_it(
    s: CacheState,
    path: Seq<char>,
    root: Seq<char>,
)
    requires
        paths::within(path, root),
    ensures
        !invalidated(s, path).symbol_index.dom().contains(root),
{
}

/// A change leaves what has nothing to do with the file: other outputs, other files' baselines
/// and other roots' indexes.
pub proof fn law_a_change_keeps_unrelated_entries(
    s: CacheState,
    path: Seq<char>,
    key: Seq<char>,
    agent: Seq<char>,
    file: Seq<char>,
    root: Seq<char>,
)
    requires
        !read_keys(path).contains(key),
        forall|p: Seq<char>| #[trigger]
            s.search_keys.dom().contains(p) && paths::within(path, p) ==> !s.search_keys[p].contains(
                key,
            ),
        file != path,
        !paths::within(path, root),
    ensures
        invalidated(s, path).content.dom().contains(key) == s.content.dom().contains(key),
        s.content.dom().contains(key) ==> invalidated(s, path).content[key] == s.content[key],
        invalidated(s, path).last_sent.dom().contains((agent, file)) == s.last_sent.dom().contains(
            (agent, file),
        ),
        s.last_sent.dom().contains((agent, file)) ==> invalidated(s, path).last_sent[(agent, file)]
            == s.last_sent[(agent, file)],
        invalidated(s, path).symbol_index.dom().contains(root) == s.symbol_index.dom().contains(
            root,
        ),
        s.symbol_index.dom().contains(root) ==> invalidated(s, path).symbol_index[root]
            == s.symbol_index[root],
{
}

/// A change keeps the state consistent, and every key registered that was.
pub proof fn law_a_change_keeps_the_state_consistent(
    s: CacheState,
    path: Seq<char>,
    project: Seq<char>,
    key: Seq<char>,
)
    ensures
        consistent(s) ==> consistent(invalidated(s, path)),
        followed(s, project, key) ==> followed(invalidated(s, path), project, key),
{
    let t = invalidated(s, path);
    if consistent(s) {
        assert forall|k: Seq<char>| #[trigger] t.content.dom().contains(k) implies is_read_key(k)
            || is_registered(t.search_keys, k) by {
            assert(s.content.dom().contains(k));
            if !is_read_key(k) {
                let p = choose|p: Seq<char>| #[trigger]
                    s.search_keys.dom().contains(p) && s.search_keys[p].contains(k);
                assert(!paths::within(path, p)) by {
                    if paths::within(path, p) {
                        assert(registry::members_around(s.search_keys, path).contains(k));
                    }
                }
                assert(t.search_keys.dom().contains(p));
            }
        }
        assert forall|a: Seq<char>, f: Seq<char>| #[trigger]
            t.last_sent.dom().contains((a, f)) implies registry::under(t.agents, f).contains(a) by {
            assert(s.last_sent.dom().contains((a, f)));
            assert(f != path);
        }
    }
    if followed(s, project, key) && t.content.dom().contains(key) {
        assert(s.content.dom().contains(key));
        if paths::within(path, project) {
            assert(s.search_keys.dom().contains(project));
            assert(registry::members_around(s.search_keys, path).contains(key));
        }
    }
}

/// A flush drops the searches of each project with modified files, and the reads of those files.
pub proof fn law_a_flush_evicts_active_projects(
    s: CacheState,
    project: Seq<char>,
    key: Seq<char>,
    file: Seq<char>,
    mode: Seq<char>,
)
    requires
        s.modified.dom().contains(project),
        followed(s, project, key),
        s.modified[project].contains(file),
        mode == "skeleton"@ || mode == "compressed"@ || mode == "full"@,
    ensures
        !active_flushed(s).content.dom().contains(key),
        !active_flushed(s).content.dom().contains(read_key(file, mode)),
{
    assert(!s.modified.dom().is_empty()) by {
        if s.modified.dom().is_empty() {
            assert(s.modified.dom() =~= Set::<Seq<char>>::empty());
        }
    }
    assert(read_keys(file).contains(read_key(file, mode)));
    assert(active_keys(s).contains(read_key(file, mode)));
    if s.content.dom().contains(key) {
        assert(active_keys(s).contains(key));
    }
}

/// A flush of active projects keeps the searches of every other project, all symbol indexes and
/// all baselines.
pub proof fn law_a_flush_keeps_other_projects(s: CacheState, key: Seq<char>)
    requires
        !s.modified.dom().is_empty(),
        !active_keys(s).contains(key),
    ensures
        active_flushed(s).content.dom().contains(key) == s.content.dom().contains(key),
        s.content.dom().contains(key) ==> active_flushed(s).content[key] == s.content[key],
        active_flushed(s).symbol_index == s.symbol_index,
        active_flushed(s).last_sent == s.last_sent,
{
}

/// A flush keeps the state consistent, and every key registered that was.
pub proof fn law_a_flush_keeps_the_state_consistent(
    s: CacheState,
    project: Seq<char>,
    key: Seq<char>,
)
    ensures
        consistent(s) ==> consistent(active_flushed(s)),
        followed(s, project, key) ==> followed(active_flushed(s), project, key),
{
    let t = active_flushed(s);
    if !s.modified.dom().is_empty() {
        if consistent(s) {
            assert forall|k: Seq<char>| #[trigger] t.content.dom().contains(k) implies is_read_key(
                k,
            ) || is_registered(t.search_keys, k) by {
                assert(s.content.dom().contains(k));
                if !is_read_key(k) {
                    let p = choose|p: Seq<char>| #[trigger]
                        s.search_keys.dom().contains(p) && s.search_keys[p].contains(k);
                    assert(!s.modified.dom().contains(p)) by {
                        if s.modified.dom().contains(p) {
                            assert(active_keys(s).contains(k));
                        }
                    }
                    assert(t.search_keys.dom().contains(p));
                }
            }
            assert(t.modified.dom() =~= Set::<Seq<char>>::empty());
        }
        if followed(s, project, key) && t.content.dom().contains(key) {
            if s.modified.dom().contains(project) {
                assert(active_keys(s).contains(key));
            }
        }
    }
}

/// Dropping all reads and searches keeps the state consistent.
pub proof fn law_clearing_keeps_the_state_consistent(s: CacheState)
    requires
        consistent(s),
    ensures
        consistent(volatile_cleared(s)),
{
    let t = volatile_cleared(s);
    assert forall|a: Seq<char>, f: Seq<char>| #[trigger]
        t.last_sent.dom().contains((a, f)) implies registry::under(t.agents, f).contains(a) by {
        assert(s.last_sent.dom().contains((a, f)));
    }
}

/// The record of modified files keeps its limits.
pub proof fn law_the_record_keeps_its_limits(
    m: Map<Seq<char>, Set<Seq<char>>>,
    root: Seq<char>,
    file: Seq<char>,
)
    requires
        m.dom().finite(),
        forall|p: Seq<char>| #[trigger] m.dom().contains(p) ==> m[p].finite(),
        within_limits(m),
    ensures
        within_limits(recorded(m, root, file)),
{
    let t = recorded(m, root, file);
    if t != m {
        assert(t.dom() =~= m.dom().insert(root));
        assert forall|p: Seq<char>| #[trigger] t.dom().contains(p) implies t[p].len()
            <= MAX_MODIFIED_FILES by {
            if p != root {
                assert(m.dom().contains(p));
            }
        }
    }
}

/// Compaction keeps the state consistent, and every key registered that was.
pub proof fn law_compaction_keeps_the_state_consistent(
    s: CacheState,
    t: CacheState,
    project: Seq<char>,
    key: Seq<char>,
)
    requires
        compacted(s, t),
    ensures
        consistent(s) ==> consistent(t),
        followed(s, project, key) ==> followed(t, project, key),
{
    if !registry::members_capped(s.search_keys, COMPACTION_THRESHOLD as nat) {
        if consistent(s) {
            assert forall|k: Seq<char>| #[trigger] t.content.dom().contains(k) implies is_read_key(
                k,
            ) || is_registered(t.search_keys, k) by {
                assert(s.content.dom().contains(k));
                if !is_read_key(k) {
                    let p = choose|p: Seq<char>| #[trigger]
                        s.search_keys.dom().contains(p) && s.search_keys[p].contains(k);
                    assert(registry::under(s.search_keys, p).contains(k));
                    assert(has_content(t)(p, k));
                    assert(registry::under(t.search_keys, p).contains(k));
                    assert(t.search_keys.dom().contains(p));
                }
            }
            assert forall|a: Seq<char>, f: Seq<char>| #[trigger]
                t.last_sent.dom().contains((a, f)) implies registry::under(t.agents, f).contains(
                a,
            ) by {
                assert(s.last_sent.dom().contains((a, f)));
                assert(has_sent(t)(f, a));
                assert(registry::under(s.agents, f).contains(a));
            }
        }
        if followed(s, project, key) && t.content.dom().contains(key) {
            assert(s.content.dom().contains(key));
            assert(has_content(t)(project, key));
        }
    }
}

/// Where the caches lost nothing meanwhile, compaction keeps under each project exactly the keys
/// that are cached, and under each file exactly the agents whose copy is.
pub proof fn law_compaction_keeps_what_is_cached(
    s: CacheState,
    t: CacheState,
    name: Seq<char>,
)
    requires
        compacted(s, t),
        !registry::members_capped(s.search_keys, COMPACTION_THRESHOLD as nat),
        t.content == s.content,
        t.last_sent == s.last_sent,
    ensures
        registry::under(t.search_keys, name) == registry::under(s.search_keys, name).intersect(
            s.content.dom(),
        ),
        registry::under(t.agents, name) == registry::under(s.agents, name).filter(
            |a: Seq<char>| s.last_sent.dom().contains((a, name)),
        ),
        t.search_keys.dom().contains(name) ==> exists|k: Seq<char>|
            t.search_keys[name].contains(k),
        t.agents.dom().contains(name) ==> exists|a: Seq<char>| t.agents[name].contains(a),
{
    assert forall|k: Seq<char>| registry::under(t.search_keys, name).contains(k) == (
    registry::under(s.search_keys, name).contains(k) && s.content.dom().contains(k)) by {
        if registry::under(s.search_keys, name).contains(k) && s.content.dom().contains(k) {
            assert(has_content(t)(name, k));
        }
        if registry::under(t.search_keys, name).contains(k) {
            assert(has_content(s)(name, k));
        }
    }
    assert(registry::under(t.search_keys, name) =~= registry::under(
        s.search_keys,
        name,
    ).intersect(s.content.dom()));
    assert forall|a: Seq<char>| registry::under(t.agents, name).contains(a) == (registry::under(
        s.agents,
        name,
    ).contains(a) && s.last_sent.dom().contains((a, name))) by {
        if registry::under(s.agents, name).contains(a) && s.last_sent.dom().contains((a, name)) {
            assert(has_sent(t)(name, a));
        }
        if registry::under(t.agents, name).contains(a) {
            assert(has_sent(s)(name, a));
        }
    }
    assert(registry::under(t.agents, name) =~= registry::under(s.agents, name).filter(
        |a: Seq<char>| s.last_sent.dom().contains((a, name)),
    ));
}

// ---------------------------------------------------------------------------
// The cache
// ---------------------------------------------------------------------------

impl SearchCache {
    /// The limits of the caches, the shape of the registries, and consistency of the state.
    pub open spec fn wf(self) -> bool {
        &&& store::text_limits(self.content) == (1000nat, 300nat)
        &&& store::pair_limits(self.last_sent) == (500nat, 300nat)
        &&& store::index_limits(self.symbol_index) == (10nat, 300nat, true)
        &&& self.search_keys.wf()
        &&& self.last_sent_agents.wf()
        &&& self.modified_files.wf()
        &&& consistent(self@)
    }

    /// An empty cache.
    pub fn new() -> (r: SearchCache)
        ensures
            r.wf(),
            r@.content.is_empty(),
            r@.last_sent.is_empty(),
            r@.symbol_index.is_empty(),
            r@.search_keys.is_empty(),
            r@.agents.is_empty(),
            r@.modified.is_empty(),
    {
        SearchCache {
            content: store::new_text_cache(1000, 300),
            last_sent: store::new_pair_cache(500, 300),
            symbol_index: store::new_index_cache(10, 300),
            search_keys: Registry::new(),
            last_sent_agents: Registry::new(),
            modified_files: Registry::new(),
        }
    }

    /// The cache key of a search.
    pub fn key_search(
        path: &str,
        query: &str,
        case_insensitive: bool,
        glob: Option<&str>,
    ) -> (r: String)
        ensures
            r@ == search_key(
                path@,
                query@,
                case_insensitive,
                match glob {
                    Some(g) => Some(g@),
                    None => None,
                },
            ),
    {
        let mut key = text::copy("search:");
        key.append(path);
        key.append(":");
        key.append(query);
        key.append(":");
        key.append(if case_insensitive {
            "true"
        } else {
            "false"
        });
        key.append(":");
        key.append(match glob {
            Some(g) => g,
            None => "",
        });
        key
    }

    /// The cache key of a read.
    pub fn key_read(path: &str, mode: &str) -> (r: String)
        ensures
            r@ == read_key(path@, mode@),
    {
        let mut key = text::copy("read:");
        key.append(path);
        key.append(":");
        key.append(mode);
        key
    }

    /// Looks up a cached output. A key that is not found is found again only after it has been
    /// inserted again.
    pub fn cached(&mut self, key: &str) -> (r: Option<String>)
        requires
            old(self).wf(),
        ensures
            final(self).wf(),
            r matches Some(v) ==> old(self)@.content.dom().contains(key@) && old(self)@.content[key@] == v@ && final(self)@ == old(self)@,
            r is None ==> final(self)@ == (CacheState {
                content: old(self)@.content.remove(key@),
                ..old(self)@
            }),
            store::text_kept(final(self).content) == store::text_kept(old(self).content),
            store::pair_kept(final(self).last_sent) == store::pair_kept(old(self).last_sent),
    {
        store::text_get(&mut self.content, key)
    }

    /// Keeps the output of a read.
    pub fn insert_read(&mut self, path: &str, mode: &str, value: &str)
        requires
            old(self).wf(),
        ensures
            final(self).wf(),
            final(self)@ == (CacheState {
                content: old(self)@.content.insert(read_key(path@, mode@), value@),
                ..old(self)@
            }),
            store::text_kept(final(self).content) == store::text_kept(old(self).content).insert(
                read_key(path@, mode@),
                value@,
            ),
            store::pair_kept(final(self).last_sent) == store::pair_kept(old(self).last_sent),
    {
        proof {
            lemma_read_key(path@, mode@);
        }
        store::text_insert(&mut self.content, SearchCache::key_read(path, mode), text::copy(value));
    }

    /// Keeps the output of a search, and registers its key under the project.
    pub fn insert_search(&mut self, project_path: &str, key: String, val: String)
        requires
            old(self).wf(),
        ensures
            final(self).wf(),
            compacted(with_search(old(self)@, project_path@, key@, val@), final(self)@),
            followed(final(self)@, project_path@, key@),
            store::text_kept(final(self).content) == store::text_kept(old(self).content).insert(
                key@,
                val@,
            ),
            store::pair_kept(final(self).last_sent) == store::pair_kept(old(self).last_sent),
    {
        let ghost s = self@;
        let ghost goal = with_search(s, project_path@, key@, val@);
        let ghost k0 = key@;
        self.search_keys.add(project_path, key.as_str());
        store::text_insert(&mut self.content, key, val);
        proof {
            assert(self@ == goal);
            assert(goal.search_keys.dom().contains(project_path@));
            assert forall|k: Seq<char>| #[trigger]
                goal.content.dom().contains(k) implies is_read_key(k) || is_registered(
                goal.search_keys,
                k,
            ) by {
                if k != k0 && !is_read_key(k) {
                    assert(s.content.dom().contains(k));
                    let p = choose|p: Seq<char>| #[trigger]
                        s.search_keys.dom().contains(p) && s.search_keys[p].contains(k);
                    assert(goal.search_keys.dom().contains(p) && goal.search_keys[p].contains(k));
                }
            }
            assert(followed(goal, project_path@, k0));
        }
        self.compact_registries();
        proof {
            law_compaction_keeps_the_state_consistent(goal, self@, project_path@, k0);
        }
    }

    /// Looks up what was last sent of a file to an agent.
    pub fn last_sent(&mut self, agent_id: &str, file_path: &str) -> (r: Option<String>)
        requires
            old(self).wf(),
        ensures
            final(self).wf(),
            r matches Some(v) ==> old(self)@.last_sent.dom().contains((agent_id@, file_path@))
                && old(self)@.last_sent[(agent_id@, file_path@)] == v@ && final(self)@ == old(self)@,
            r is None ==> final(self)@ == (CacheState {
                last_sent: old(self)@.last_sent.remove((agent_id@, file_path@)),
                ..old(self)@
            }),
            store::text_kept(final(self).content) == store::text_kept(old(self).content),
            store::pair_kept(final(self).last_sent) == store::pair_kept(old(self).last_sent),
    {
        store::pair_get(&mut self.last_sent, agent_id, file_path)
    }

    /// Keeps what was sent of a file to an agent, and registers the agent under the file.
    pub fn insert_last_sent(&mut self, agent_id: String, file_path: String, content: String)
        requires
            old(self).wf(),
        ensures
            final(self).wf(),
            compacted(with_sent(old(self)@, agent_id@, file_path@, content@), final(self)@),
            store::text_kept(final(self).content) == store::text_kept(old(self).content),
            store::pair_kept(final(self).last_sent) == store::pair_kept(old(self).last_sent).insert(
                (agent_id@, file_path@),
                content@,
            ),
    {
        let ghost s = self@;
        let ghost goal = with_sent(s, agent_id@, file_path@, content@);
        let ghost a0 = agent_id@;
        let ghost f0 = file_path@;
        self.last_sent_agents.add(file_path.as_str(), agent_id.as_str());
        store::pair_insert(&mut self.last_sent, agent_id, file_path, content);
        proof {
            assert(self@ == goal);
            assert forall|a: Seq<char>, f: Seq<char>| #[trigger]
                goal.last_sent.dom().contains((a, f)) implies registry::under(
                goal.agents,
                f,
            ).contains(a) by {
                if (a, f) != (a0, f0) {
                    assert(s.last_sent.dom().contains((a, f)));
                }
            }
        }
        self.compact_registries();
    }

    /// Looks up the symbol index of a project.
    pub fn symbol_index(&mut self, root: &str) -> (r: Option<Arc<ProjectIndex>>)
        requires
            old(self).wf(),
        ensures
            final(self).wf(),
            r matches Some(v) ==> old(self)@.symbol_index.dom().contains(root@) && old(self)@.symbol_index[root@] == v@ && final(self)@ == old(self)@,
            r is None ==> final(self)@ == (CacheState {
                symbol_index: old(self)@.symbol_index.remove(root@),
                ..old(self)@
            }),
    {
        store::index_get(&mut self.symbol_index, root)
    }

    /// Keeps the symbol index of a project.
    pub fn insert_symbol_index(&mut self, root: &str, index: Arc<ProjectIndex>)
        requires
            old(self).wf(),
        ensures
            final(self).wf(),
            final(self)@ == (CacheState {
                symbol_index: old(self)@.symbol_index.insert(root@, index@),
                ..old(self)@
            }),
    {
        store::index_insert(&mut self.symbol_index, text::copy(root), index);
    }

    /// Looks up every registered search key, and lists those that are found.
    fn live_searches(&mut self) -> (live: Registry)
        requires
            old(self).search_keys.wf(),
        ensures
            live.wf(),
            store::text_limits(final(self).content) == store::text_limits(old(self).content),
            final(self).last_sent == old(self).last_sent,
            final(self).symbol_index == old(self).symbol_index,
            final(self).search_keys == old(self).search_keys,
            final(self).last_sent_agents == old(self).last_sent_agents,
            final(self).modified_files == old(self).modified_files,
            final(self)@.content.submap_of(old(self)@.content),
            forall|k: Seq<char>|
                #![trigger final(self)@.content.dom().contains(k)]
                old(self)@.content.dom().contains(k) && !final(self)@.content.dom().contains(k)
                    ==> is_registered(old(self)@.search_keys, k),
            forall|n: Seq<char>, k: Seq<char>| #[trigger]
                registry::under(live@, n).contains(k) ==> registry::under(
                    old(self)@.search_keys,
                    n,
                ).contains(k) && old(self)@.content.dom().contains(k),
            forall|n: Seq<char>, k: Seq<char>| #[trigger]
                registry::under(old(self)@.search_keys, n).contains(k)
                    && final(self)@.content.dom().contains(k) ==> registry::under(
                    live@,
                    n,
                ).contains(k),
            store::text_kept(final(self).content) == store::text_kept(old(self).content),
    {
        let ghost s = self@;
        let ghost r = self.search_keys@;
        let ghost gs = self.search_keys.groups@;
        let mut live = Registry::new();
        let mut i: usize = 0;
        while i < self.search_keys.groups.len()
            invariant
                i <= gs.len(),
                registry::distinct(gs),
                r == registry::as_map(gs),
                self.search_keys == old(self).search_keys,
                self.search_keys.groups@ == gs,
                self.last_sent == old(self).last_sent,
                self.symbol_index == old(self).symbol_index,
                self.last_sent_agents == old(self).last_sent_agents,
                self.modified_files == old(self).modified_files,
                store::text_limits(self.content) == store::text_limits(old(self).content),
                store::text_kept(self.content) == store::text_kept(old(self).content),
                live.wf(),
                self@.content.submap_of(s.content),
                forall|k: Seq<char>|
                    #![trigger self@.content.dom().contains(k)]
                    s.content.dom().contains(k) && !self@.content.dom().contains(k)
                        ==> is_registered(r, k),
                forall|n: Seq<char>, k: Seq<char>| #[trigger]
                    registry::under(live@, n).contains(k) ==> registry::under(r, n).contains(k)
                        && s.content.dom().contains(k),
                forall|a: int, b: int|
                    0 <= a < i && 0 <= b < gs[a].members@.len() ==> registry::under(
                        live@,
                        gs[a].name@,
                    ).contains(#[trigger] gs[a].members@[b]@) || !self@.content.dom().contains(
                        gs[a].members@[b]@,
                    ),
            decreases gs.len() - i,
        {
            let name = self.search_keys.groups[i].name.clone();
            proof {
                registry::lemma_at(gs, i as int);
            }
            let mut j: usize = 0;
            while j < self.search_keys.groups[i].members.len()
                invariant
                    i < gs.len(),
                    j <= gs[i as int].members@.len(),
                    name@ == gs[i as int].name@,
                    r.dom().contains(name@),
                    r[name@] == gs[i as int].set(),
                    self.search_keys == old(self).search_keys,
                    self.search_keys.groups@ == gs,
                    self.last_sent == old(self).last_sent,
                    self.symbol_index == old(self).symbol_index,
                    self.last_sent_agents == old(self).last_sent_agents,
                    self.modified_files == old(self).modified_files,
                    store::text_limits(self.content) == store::text_limits(old(self).content),
                    store::text_kept(self.content) == store::text_kept(old(self).content),
                    live.wf(),
                    self@.content.submap_of(s.content),
                    forall|k: Seq<char>|
                        #![trigger self@.content.dom().contains(k)]
                        s.content.dom().contains(k) && !self@.content.dom().contains(k)
                            ==> is_registered(r, k),
                    forall|n: Seq<char>, k: Seq<char>| #[trigger]
                        registry::under(live@, n).contains(k) ==> registry::under(r, n).contains(k)
                            && s.content.dom().contains(k),
                    forall|a: int, b: int|
                        0 <= a < i && 0 <= b < gs[a].members@.len() ==> registry::under(
                            live@,
                            gs[a].name@,
                        ).contains(#[trigger] gs[a].members@[b]@) || !self@.content.dom().contains(
                            gs[a].members@[b]@,
                        ),
                    forall|b: int|
                        0 <= b < j ==> registry::under(live@, name@).contains(
                            #[trigger] gs[i as int].members@[b]@,
                        ) || !self@.content.dom().contains(gs[i as int].members@[b]@),
                decreases gs[i as int].members@.len() - j,
            {
                let key = self.search_keys.groups[i].members[j].clone();
                let ghost before = self@.content;
                let ghost found = live@;
                proof {
                    assert(text::views(gs[i as int].members@)[j as int] == key@);
                    assert(gs[i as int].set().contains(key@));
                    assert(registry::under(r, name@).contains(key@));
                    assert(is_registered(r, key@));
                }
                if store::text_get(&mut self.content, key.as_str()).is_some() {
                    live.add(name.as_str(), key.as_str());
                    proof {
                        assert(self@.content == before);
                        assert forall|n: Seq<char>, k: Seq<char>| #[trigger]
                            registry::under(live@, n).contains(k) implies registry::under(
                            r,
                            n,
                        ).contains(k) && s.content.dom().contains(k) by {
                            if !(n == name@ && k == key@) {
                                assert(registry::under(found, n).contains(k));
                            }
                        }
                        assert forall|a: int, b: int|
                            0 <= a < i && 0 <= b < gs[a].members@.len() implies registry::under(
                            live@,
                            gs[a].name@,
                        ).contains(#[trigger] gs[a].members@[b]@) || !self@.content.dom().contains(
                            gs[a].members@[b]@,
                        ) by {
                            assert(registry::under(found, gs[a].name@).contains(
                                gs[a].members@[b]@,
                            ) || !before.dom().contains(gs[a].members@[b]@));
                        }
                    }
                } else {
                    proof {
                        assert(self@.content == before.remove(key@));
                        assert forall|a: int, b: int|
                            0 <= a < i && 0 <= b < gs[a].members@.len() implies registry::under(
                            live@,
                            gs[a].name@,
                        ).contains(#[trigger] gs[a].members@[b]@) || !self@.content.dom().contains(
                            gs[a].members@[b]@,
                        ) by {
                            assert(registry::under(found, gs[a].name@).contains(
                                gs[a].members@[b]@,
                            ) || !before.dom().contains(gs[a].members@[b]@));
                        }
                    }
                }
                j += 1;
            }
            i += 1;
        }
        proof {
            assert forall|n: Seq<char>, k: Seq<char>| #[trigger]
                registry::under(r, n).contains(k) && self@.content.dom().contains(
                    k,
                ) implies registry::under(live@, n).contains(k) by {
                let a = choose|a: int|
                    0 <= a < registry::names(gs).len() && registry::names(gs)[a] == n;
                registry::lemma_at(gs, a);
                let v = text::views(gs[a].members@);
                let b = choose|b: int| 0 <= b < v.len() && v[b] == k;
                assert(gs[a].members@[b]@ == k);
            }
        }
        live
    }

    /// Looks up what was sent to every registered agent, and lists the agents for which it is
    /// found.
    fn live_baselines(&mut self) -> (live: Registry)
        requires
            old(self).last_sent_agents.wf(),
        ensures
            live.wf(),
            store::pair_limits(final(self).last_sent) == store::pair_limits(old(self).last_sent),
            final(self).content == old(self).content,
            final(self).symbol_index == old(self).symbol_index,
            final(self).search_keys == old(self).search_keys,
            final(self).last_sent_agents == old(self).last_sent_agents,
            final(self).modified_files == old(self).modified_files,
            final(self)@.last_sent.submap_of(old(self)@.last_sent),
            forall|a: Seq<char>, f: Seq<char>|
                #![trigger final(self)@.last_sent.dom().contains((a, f))]
                old(self)@.last_sent.dom().contains((a, f)) && !final(self)@.last_sent.dom().contains((a, f)) ==> registry::under(
                    old(self)@.agents,
                    f,
                ).contains(a),
            forall|f: Seq<char>, a: Seq<char>| #[trigger]
                registry::under(live@, f).contains(a) ==> registry::under(
                    old(self)@.agents,
                    f,
                ).contains(a) && old(self)@.last_sent.dom().contains((a, f)),
            forall|f: Seq<char>, a: Seq<char>| #[trigger]
                registry::under(old(self)@.agents, f).contains(a)
                    && final(self)@.last_sent.dom().contains((a, f)) ==> registry::under(
                    live@,
                    f,
                ).contains(a),
            store::pair_kept(final(self).last_sent) == store::pair_kept(old(self).last_sent),
    {
        let ghost s = self@;
        let ghost r = self.last_sent_agents@;
        let ghost gs = self.last_sent_agents.groups@;
        let mut live = Registry::new();
        let mut i: usize = 0;
        while i < self.last_sent_agents.groups.len()
            invariant
                i <= gs.len(),
                registry::distinct(gs),
                r == registry::as_map(gs),
                self.last_sent_agents == old(self).last_sent_agents,
                self.last_sent_agents.groups@ == gs,
                self.content == old(self).content,
                self.symbol_index == old(self).symbol_index,
                self.search_keys == old(self).search_keys,
                self.modified_files == old(self).modified_files,
                store::pair_limits(self.last_sent) == store::pair_limits(old(self).last_sent),
                store::pair_kept(self.last_sent) == store::pair_kept(old(self).last_sent),
                live.wf(),
                self@.last_sent.submap_of(s.last_sent),
                forall|x: Seq<char>, f: Seq<char>|
                    #![trigger self@.last_sent.dom().contains((x, f))]
                    s.last_sent.dom().contains((x, f)) && !self@.last_sent.dom().contains((x, f))
                        ==> registry::under(r, f).contains(x),
                forall|n: Seq<char>, k: Seq<char>| #[trigger]
                    registry::under(live@, n).contains(k) ==> registry::under(r, n).contains(k)
                        && s.last_sent.dom().contains((k, n)),
                forall|a: int, b: int|
                    0 <= a < i && 0 <= b < gs[a].members@.len() ==> registry::under(
                        live@,
                        gs[a].name@,
                    ).contains(#[trigger] gs[a].members@[b]@) || !self@.last_sent.dom().contains(
                        (gs[a].members@[b]@, gs[a].name@),
                    ),
            decreases gs.len() - i,
        {
            let file = self.last_sent_agents.groups[i].name.clone();
            proof {
                registry::lemma_at(gs, i as int);
            }
            let mut j: usize = 0;
            while j < self.last_sent_agents.groups[i].members.len()
                invariant
                    i < gs.len(),
                    j <= gs[i as int].members@.len(),
                    file@ == gs[i as int].name@,
                    r.dom().contains(file@),
                    r[file@] == gs[i as int].set(),
                    self.last_sent_agents == old(self).last_sent_agents,
                    self.last_sent_agents.groups@ == gs,
                    self.content == old(self).content,
                    self.symbol_index == old(self).symbol_index,
                    self.search_keys == old(self).search_keys,
                    self.modified_files == old(self).modified_files,
                    store::pair_limits(self.last_sent) == store::pair_limits(old(self).last_sent),
                    store::pair_kept(self.last_sent) == store::pair_kept(old(self).last_sent),
                    live.wf(),
                    self@.last_sent.submap_of(s.last_sent),
                    forall|x: Seq<char>, f: Seq<char>|
                        #![trigger self@.last_sent.dom().contains((x, f))]
                        s.last_sent.dom().contains((x, f)) && !self@.last_sent.dom().contains(
                            (x, f),
                        ) ==> registry::under(r, f).contains(x),
                    forall|n: Seq<char>, k: Seq<char>| #[trigger]
                        registry::under(live@, n).contains(k) ==> registry::under(r, n).contains(k)
                            && s.last_sent.dom().contains((k, n)),
                    forall|a: int, b: int|
                        0 <= a < i && 0 <= b < gs[a].members@.len() ==> registry::under(
                            live@,
                            gs[a].name@,
                        ).contains(#[trigger] gs[a].members@[b]@)
                            || !self@.last_sent.dom().contains(
                            (gs[a].members@[b]@, gs[a].name@),
                        ),
                    forall|b: int|
                        0 <= b < j ==> registry::under(live@, file@).contains(
                            #[trigger] gs[i as int].members@[b]@,
                        ) || !self@.last_sent.dom().contains(
                            (gs[i as int].members@[b]@, file@),
                        ),
                decreases gs[i as int].members@.len() - j,
            {
                let agent = self.last_sent_agents.groups[i].members[j].clone();
                let ghost before = self@.last_sent;
                let ghost found = live@;
                proof {
                    assert(text::views(gs[i as int].members@)[j as int] == agent@);
                    assert(gs[i as int].set().contains(agent@));
                    assert(registry::under(r, file@).contains(agent@));
                }
                if store::pair_get(&mut self.last_sent, agent.as_str(), file.as_str()).is_some() {
                    live.add(file.as_str(), agent.as_str());
                    proof {
                        assert(self@.last_sent == before);
                        assert forall|n: Seq<char>, k: Seq<char>| #[trigger]
                            registry::under(live@, n).contains(k) implies registry::under(
                            r,
                            n,
                        ).contains(k) && s.last_sent.dom().contains((k, n)) by {
                            if !(n == file@ && k == agent@) {
                                assert(registry::under(found, n).contains(k));
                            }
                        }
                    }
                } else {
                    assert(self@.last_sent == before.remove((agent@, file@)));
                }
                proof {
                    assert forall|a: int, b: int|
                        0 <= a < i && 0 <= b < gs[a].members@.len() implies registry::under(
                        live@,
                        gs[a].name@,
                    ).contains(#[trigger] gs[a].members@[b]@) || !self@.last_sent.dom().contains(
                        (gs[a].members@[b]@, gs[a].name@),
                    ) by {
                        assert(registry::under(found, gs[a].name@).contains(gs[a].members@[b]@)
                            || !before.dom().contains((gs[a].members@[b]@, gs[a].name@)));
                    }
                }
                j += 1;
            }
            i += 1;
        }
        proof {
            assert forall|f: Seq<char>, k: Seq<char>| #[trigger]
                registry::under(r, f).contains(k) && self@.last_sent.dom().contains(
                    (k, f),
                ) implies registry::under(live@, f).contains(k) by {
                let a = choose|a: int|
                    0 <= a < registry::names(gs).len() && registry::names(gs)[a] == f;
                registry::lemma_at(gs, a);
                let v = text::views(gs[a].members@);
                let b = choose|b: int| 0 <= b < v.len() && v[b] == k;
                assert(gs[a].members@[b]@ == k);
            }
        }
        live
    }

    /// Keeps the search keys and the agents that are still live. What is cached stays as it is.
    pub fn retain_registered(&mut self, searches: &Registry, agents: &Registry)
        requires
            old(self).wf(),
            searches.wf(),
            agents.wf(),
        ensures
            final(self)@ == with_retained(old(self)@, searches@, agents@),
            final(self).content == old(self).content,
            final(self).last_sent == old(self).last_sent,
            final(self).symbol_index == old(self).symbol_index,
            final(self).modified_files == old(self).modified_files,
            covers(old(self)@, searches@, agents@) ==> final(self).wf(),
    {
        self.search_keys.retain_live(searches);
        self.last_sent_agents.retain_live(agents);
        proof {
            if covers(old(self)@, searches@, agents@) {
                lemma_retaining_keeps_the_state_consistent(old(self)@, searches@, agents@);
            }
        }
    }

    /// Drops registered keys whose entries the caches have lost, once a project has too many. It
    /// takes no entry out of the caches itself.
    pub fn compact_registries(&mut self)
        requires
            old(self).wf(),
        ensures
            final(self).wf(),
            compacted(old(self)@, final(self)@),
            store::text_kept(final(self).content) == store::text_kept(old(self).content),
            store::pair_kept(final(self).last_sent) == store::pair_kept(old(self).last_sent),
    {
        if !self.search_keys.any_over(COMPACTION_THRESHOLD) {
            return;
        }
        let ghost s = self@;
        let searches = self.live_searches();
        let ghost mid = self@;
        let agents = self.live_baselines();
        let ghost looked = self@;
        proof {
            assert forall|k: Seq<char>| #[trigger]
                looked.content.dom().contains(k) implies is_read_key(k) || is_registered(
                looked.search_keys,
                k,
            ) by {
                assert(s.content.dom().contains(k));
            }
            assert forall|a: Seq<char>, f: Seq<char>| #[trigger]
                looked.last_sent.dom().contains((a, f)) implies registry::under(
                looked.agents,
                f,
            ).contains(a) by {
                assert(s.last_sent.dom().contains((a, f)));
            }
            assert(self.wf());
        }
        self.retain_registered(&searches, &agents);
        proof {
            let t = self@;
            assert(looked.content == mid.content);
            assert forall|n: Seq<char>, k: Seq<char>| #[trigger]
                registry::under(t.search_keys, n).contains(k) == (registry::under(
                    s.search_keys,
                    n,
                ).contains(k) && registry::under(searches@, n).contains(k)) by {}
            assert forall|n: Seq<char>, k: Seq<char>| #[trigger]
                registry::under(t.agents, n).contains(k) == (registry::under(
                    s.agents,
                    n,
                ).contains(k) && registry::under(agents@, n).contains(k)) by {}
            assert(pruned(s.search_keys, t.search_keys, has_content(s), has_content(t))) by {
                assert forall|n: Seq<char>| #[trigger] t.search_keys.dom().contains(n) implies exists|
                    k: Seq<char>,
                |
                    t.search_keys[n].contains(k) by {
                    let k = choose|k: Seq<char>|
                        registry::under(s.search_keys, n).contains(k) && #[trigger] registry::under(
                            searches@,
                            n,
                        ).contains(k);
                    assert(t.search_keys[n].contains(k));
                }
            }
            assert(pruned(s.agents, t.agents, has_sent(s), has_sent(t))) by {
                assert forall|n: Seq<char>| #[trigger] t.agents.dom().contains(n) implies exists|
                    k: Seq<char>,
                |
                    t.agents[n].contains(k) by {
                    let k = choose|k: Seq<char>|
                        registry::under(s.agents, n).contains(k) && #[trigger] registry::under(
                            agents@,
                            n,
                        ).contains(k);
                    assert(t.agents[n].contains(k));
                }
            }
            assert(compacted(s, t));
        }
    }

    fn invalidate_keys(&mut self, keys: &Vec<String>)
        ensures
            final(self)@ == (CacheState {
                content: old(self)@.content.remove_keys(text::views(keys@).to_set()),
                ..old(self)@
            }),
            final(self).search_keys == old(self).search_keys,
            final(self).last_sent_agents == old(self).last_sent_agents,
            final(self).modified_files == old(self).modified_files,
            final(self).last_sent == old(self).last_sent,
            final(self).symbol_index == old(self).symbol_index,
            store::text_limits(final(self).content) == store::text_limits(old(self).content),
    {
        let ghost s = self@;
        let ghost all = text::views(keys@);
        let mut i: usize = 0;
        assert(all.take(0).to_set() =~= Set::<Seq<char>>::empty());
        assert(s.content.remove_keys(Set::empty()) =~= s.content);
        while i < keys.len()
            invariant
                i <= keys@.len(),
                all == text::views(keys@),
                self@ == (CacheState {
                    content: s.content.remove_keys(all.take(i as int).to_set()),
                    ..s
                }),
                self.search_keys == old(self).search_keys,
                self.last_sent_agents == old(self).last_sent_agents,
                self.modified_files == old(self).modified_files,
                self.last_sent == old(self).last_sent,
                self.symbol_index == old(self).symbol_index,
                store::text_limits(self.content) == store::text_limits(old(self).content),
            decreases keys@.len() - i,
        {
            store::text_invalidate(&mut self.content, keys[i].as_str());
            proof {
                let x = all[i as int];
                assert(all.take(i + 1) =~= all.take(i as int).push(x));
                registry::lemma_push_to_set(all.take(i as int), x);
                assert(s.content.remove_keys(all.take(i as int).to_set()).remove(x)
                    =~= s.content.remove_keys(all.take(i + 1).to_set()));
            }
            i += 1;
        }
        assert(all.take(all.len() as int) == all);
    }

    fn keys_of_reads(path: &str) -> (r: Vec<String>)
        ensures
            text::views(r@).to_set() == read_keys(path@),
    {
        let mut r: Vec<String> = Vec::new();
        r.push(SearchCache::key_read(path, "skeleton"));
        r.push(SearchCache::key_read(path, "compressed"));
        r.push(SearchCache::key_read(path, "full"));
        proof {
            let v = text::views(r@);
            assert(v =~= Seq::<Seq<char>>::empty().push(read_key(path@, "skeleton"@)).push(
                read_key(path@, "compressed"@),
            ).push(read_key(path@, "full"@)));
            let e = Seq::<Seq<char>>::empty();
            assert(e.to_set() =~= Set::<Seq<char>>::empty());
            registry::lemma_push_to_set(e, read_key(path@, "skeleton"@));
            let e1 = e.push(read_key(path@, "skeleton"@));
            registry::lemma_push_to_set(e1, read_key(path@, "compressed"@));
            registry::lemma_push_to_set(
                e1.push(read_key(path@, "compressed"@)),
                read_key(path@, "full"@),
            );
            assert(v.to_set() =~= read_keys(path@));
        }
        r
    }

    /// Evicts everything that a change of a file makes stale.
    pub fn invalidate_path(&mut self, path: &str)
        requires
            old(self).wf(),
        ensures
            final(self).wf(),
            final(self)@ == invalidated(old(self)@, path@),
    {
        let ghost s = self@;
        let reads = SearchCache::keys_of_reads(path);
        self.invalidate_keys(&reads);
        let searches = self.search_keys.take_around(path);
        self.invalidate_keys(&searches);
        proof {
            assert(self@.content =~= s.content.remove_keys(
                read_keys(path@).union(registry::members_around(s.search_keys, path@)),
            ));
        }
        let agents = self.last_sent_agents.take(path);
        let ghost all = text::views(agents@);
        let ghost mid = self@;
        let mut i: usize = 0;
        while i < agents.len()
            invariant
                i <= agents@.len(),
                all == text::views(agents@),
                self.search_keys.wf(),
                self.last_sent_agents.wf(),
                self.modified_files.wf(),
                store::text_limits(self.content) == (1000nat, 300nat),
                store::pair_limits(self.last_sent) == (500nat, 300nat),
                store::index_limits(self.symbol_index) == (10nat, 300nat, true),
                self@ == (CacheState { last_sent: self@.last_sent, ..mid }),
                forall|k: (Seq<char>, Seq<char>)| #[trigger]
                    self@.last_sent.dom().contains(k) <==> mid.last_sent.dom().contains(k) && !(k.1
                        == path@ && all.take(i as int).contains(k.0)),
                forall|k: (Seq<char>, Seq<char>)| #[trigger]
                    self@.last_sent.dom().contains(k) ==> self@.last_sent[k] == mid.last_sent[k],
            decreases agents@.len() - i,
        {
            store::pair_invalidate(&mut self.last_sent, agents[i].as_str(), path);
            proof {
                let x = all[i as int];
                let before = all.take(i as int);
                assert(all.take(i + 1) =~= before.push(x));
                assert forall|k: Seq<char>| all.take(i + 1).contains(k) == (before.contains(k) || k
                    == x) by {
                    registry::lemma_push_to_set(before, x);
                    assert(before.push(x).to_set().contains(k) == before.to_set().insert(
                        x,
                    ).contains(k));
                }
            }
            i += 1;
        }
        proof {
            assert(all.take(all.len() as int) == all);
            assert forall|k: Seq<char>| all.contains(k) == registry::under(
                s.agents,
                path@,
            ).contains(k) by {
                assert(all.to_set().contains(k) == all.contains(k));
            }
        }
        store::index_invalidate_around(&mut self.symbol_index, path);
        proof {
            let goal = invalidated(s, path@);
            assert(self@.last_sent =~= goal.last_sent);
            assert(self@.content =~= goal.content);
            assert(self@ == goal);
            law_a_change_keeps_the_state_consistent(s, path@, Seq::empty(), Seq::empty());
        }
    }

    /// Drops all reads and searches. Symbol indexes and baselines stay.
    pub fn clear_volatile(&mut self)
        requires
            old(self).wf(),
        ensures
            final(self).wf(),
            final(self)@ == volatile_cleared(old(self)@),
    {
        let ghost s = self@;
        self.content = store::new_text_cache(1000, 300);
        self.search_keys = Registry::new();
        proof {
            assert(self@.content =~= Map::<Seq<char>, Seq<char>>::empty());
            assert(self@ == volatile_cleared(s));
            law_clearing_keeps_the_state_consistent(s);
        }
    }

    /// Drops the reads and searches of the projects with modified files, or all of them where no
    /// project has any. The record of modified files is empty afterwards.
    pub fn clear_volatile_for_active_projects(&mut self)
        requires
            old(self).wf(),
        ensures
            final(self).wf(),
            final(self)@ == active_flushed(old(self)@),
    {
        let ghost s = self@;
        if self.modified_files.len() == 0 {
            self.clear_volatile();
            return;
        }
        assert(!s.modified.dom().is_empty()) by {
            if s.modified.dom().is_empty() {
                assert(s.modified.dom() =~= Set::<Seq<char>>::empty());
            }
        }
        let mut active = Registry::new();
        std::mem::swap(&mut active, &mut self.modified_files);
        let ghost gs = active.groups@;
        let mut stale: Vec<String> = Vec::new();
        let mut i: usize = 0;
        proof {
            assert(text::views(stale@).to_set() =~= Set::<Seq<char>>::empty());
        }
        while i < active.groups.len()
            invariant
                i <= active.groups@.len(),
                active.wf(),
                active@ == s.modified,
                active.groups@ == gs,
                self.search_keys.wf(),
                self@ == (CacheState {
                    search_keys: self@.search_keys,
                    modified: Map::empty(),
                    ..s
                }),
                self.last_sent_agents == old(self).last_sent_agents,
                self.modified_files.wf(),
                store::text_limits(self.content) == store::text_limits(old(self).content),
                store::pair_limits(self.last_sent) == store::pair_limits(old(self).last_sent),
                store::index_limits(self.symbol_index) == store::index_limits(
                    old(self).symbol_index,
                ),
                forall|p: Seq<char>| #[trigger]
                    self@.search_keys.dom().contains(p) <==> s.search_keys.dom().contains(p)
                        && !(exists|a: int| 0 <= a < i && (#[trigger] gs[a]).name@ == p),
                forall|p: Seq<char>| #[trigger]
                    self@.search_keys.dom().contains(p) ==> self@.search_keys[p]
                        == s.search_keys[p],
                forall|k: Seq<char>| #[trigger]
                    text::views(stale@).to_set().contains(k) ==> active_keys(s).contains(k),
                forall|a: int, k: Seq<char>|
                    0 <= a < i && #[trigger] registry::under(
                        s.search_keys,
                        gs[a].name@,
                    ).contains(k) ==> text::views(stale@).to_set().contains(k),
                forall|a: int, f: Seq<char>, k: Seq<char>|
                    0 <= a < i && #[trigger] gs[a].set().contains(f) && #[trigger] read_keys(
                        f,
                    ).contains(k) ==> text::views(stale@).to_set().contains(k),
            decreases active.groups@.len() - i,
        {
            let group: &Group = &active.groups[i];
            let ghost p = group.name@;
            proof {
                registry::lemma_at(gs, i as int);
            }
            let ghost keys_before = self@.search_keys;
            let mut found = self.search_keys.take(group.name.as_str());
            proof {
                assert(registry::under(keys_before, p) == registry::under(s.search_keys, p)) by {
                    if s.search_keys.dom().contains(p) {
                        assert(!(exists|a: int| 0 <= a < i && (#[trigger] gs[a]).name@ == p)) by {
                            if exists|a: int| 0 <= a < i && (#[trigger] gs[a]).name@ == p {
                                let a = choose|a: int| 0 <= a < i && (#[trigger] gs[a]).name@ == p;
                                assert(registry::names(gs)[a] == registry::names(gs)[i as int]);
                            }
                        }
                        assert(keys_before.dom().contains(p));
                    }
                }
            }
            let ghost stale0 = stale@;
            let ghost found0 = found@;
            stale.append(&mut found);
            proof {
                assert(text::views(stale@) =~= text::views(stale0) + text::views(found0));
                registry::lemma_add_to_set(text::views(stale0), text::views(found0));
                assert forall|k: Seq<char>| #[trigger]
                    text::views(stale@).to_set().contains(k) implies active_keys(s).contains(k) by {
                    if !text::views(stale0).to_set().contains(k) {
                        assert(s.modified.dom().contains(p));
                    }
                }
            }
            let mut j: usize = 0;
            while j < group.members.len()
                invariant
                    i < gs.len(),
                    j <= group.members@.len(),
                    *group == gs[i as int],
                    p == group.name@,
                    s.modified.dom().contains(p),
                    s.modified[p] == group.set(),
                    forall|k: Seq<char>| #[trigger]
                        text::views(stale@).to_set().contains(k) ==> active_keys(s).contains(k),
                    forall|a: int, k: Seq<char>|
                        0 <= a <= i && #[trigger] registry::under(
                            s.search_keys,
                            gs[a].name@,
                        ).contains(k) ==> text::views(stale@).to_set().contains(k),
                    forall|a: int, f: Seq<char>, k: Seq<char>|
                        0 <= a < i && #[trigger] gs[a].set().contains(f) && #[trigger] read_keys(
                            f,
                        ).contains(k) ==> text::views(stale@).to_set().contains(k),
                    forall|b: int, k: Seq<char>|
                        0 <= b < j && #[trigger] read_keys(group.members@[b]@).contains(k)
                            ==> text::views(stale@).to_set().contains(k),
                decreases group.members@.len() - j,
            {
                let mut reads = SearchCache::keys_of_reads(group.members[j].as_str());
                let ghost before = stale@;
                let ghost added = reads@;
                stale.append(&mut reads);
                proof {
                    let f = group.members@[j as int]@;
                    assert(text::views(stale@) =~= text::views(before) + text::views(added));
                    registry::lemma_add_to_set(text::views(before), text::views(added));
                    assert(text::views(group.members@)[j as int] == f);
                    assert(s.modified[p].contains(f));
                    assert forall|k: Seq<char>| #[trigger]
                        text::views(stale@).to_set().contains(k) implies active_keys(s).contains(
                        k,
                    ) by {
                        if !text::views(before).to_set().contains(k) {
                            assert(read_keys(f).contains(k));
                        }
                    }
                }
                j += 1;
            }
            proof {
                assert forall|a: int, f: Seq<char>, k: Seq<char>|
                    0 <= a < i + 1 && #[trigger] gs[a].set().contains(f) && #[trigger] read_keys(
                        f,
                    ).contains(k) implies text::views(stale@).to_set().contains(k) by {
                    if a == i {
                        let v = text::views(group.members@);
                        let b = choose|b: int| 0 <= b < v.len() && v[b] == f;
                        assert(read_keys(group.members@[b]@).contains(k));
                    }
                }
                assert forall|q: Seq<char>| #[trigger]
                    self@.search_keys.dom().contains(q) <==> s.search_keys.dom().contains(q) && !(
                    exists|a: int| 0 <= a < i + 1 && (#[trigger] gs[a]).name@ == q) by {
                    if q == p {
                        assert(gs[i as int].name@ == q);
                    } else {
                        assert(self@.search_keys.dom().contains(q) == keys_before.dom().contains(q));
                        if exists|a: int| 0 <= a < i + 1 && (#[trigger] gs[a]).name@ == q {
                            let a = choose|a: int| 0 <= a < i + 1 && (#[trigger] gs[a]).name@ == q;
                            assert(a < i);
                        }
                    }
                }
            }
            i += 1;
        }
        proof {
            assert forall|q: Seq<char>| s.modified.dom().contains(q) == (exists|a: int|
                0 <= a < gs.len() && (#[trigger] gs[a]).name@ == q) by {
                if s.modified.dom().contains(q) {
                    let a = choose|a: int|
                        0 <= a < registry::names(gs).len() && registry::names(gs)[a] == q;
                    assert(gs[a].name@ == q);
                }
                if exists|a: int| 0 <= a < gs.len() && (#[trigger] gs[a]).name@ == q {
                    let a = choose|a: int| 0 <= a < gs.len() && (#[trigger] gs[a]).name@ == q;
                    registry::lemma_at(gs, a);
                }
            }
            assert(self@.search_keys =~= s.search_keys.remove_keys(s.modified.dom()));
            assert forall|k: Seq<char>| active_keys(s).contains(k) implies text::views(
                stale@,
            ).to_set().contains(k) by {
                let p = choose|p: Seq<char>| #[trigger]
                    s.modified.dom().contains(p) && (registry::under(s.search_keys, p).contains(k)
                        || exists|f: Seq<char>| #[trigger]
                        s.modified[p].contains(f) && read_keys(f).contains(k));
                let a = choose|a: int| 0 <= a < gs.len() && (#[trigger] gs[a]).name@ == p;
                registry::lemma_at(gs, a);
                if !registry::under(s.search_keys, p).contains(k) {
                    let f = choose|f: Seq<char>| #[trigger]
                        s.modified[p].contains(f) && read_keys(f).contains(k);
                    assert(gs[a].set().contains(f));
                } else {
                    assert(registry::under(s.search_keys, gs[a].name@).contains(k));
                }
            }
            assert(text::views(stale@).to_set() =~= active_keys(s));
        }
        self.invalidate_keys(&stale);
        proof {
            assert(self@ == active_flushed(s));
            law_a_flush_keeps_the_state_consistent(s, Seq::empty(), Seq::empty());
        }
    }

    /// Drops everything.
    pub fn clear_all(&mut self)
        requires
            old(self).wf(),
        ensures
            final(self).wf(),
            final(self)@.content.is_empty(),
            final(self)@.last_sent.is_empty(),
            final(self)@.symbol_index.is_empty(),
            final(self)@.search_keys.is_empty(),
            final(self)@.agents.is_empty(),
            final(self)@.modified.is_empty(),
    {
        *self = SearchCache::new();
    }

    /// Puts a file on the record of modified files, within its limits.
    pub fn record_modified(&mut self, root: &str, file: &str)
        requires
            old(self).wf(),
        ensures
            final(self).wf(),
            final(self)@ == (CacheState {
                modified: recorded(old(self)@.modified, root@, file@),
                ..old(self)@
            }),
    {
        let ghost m = self@.modified;
        let known = self.modified_files.count(root);
        let projects: usize = self.modified_files.len();
        let files: usize = match known {
            Some(n) => n,
            None => 0,
        };
        proof {
            self.modified_files.lemma_finite();
            law_the_record_keeps_its_limits(m, root@, file@);
        }
        if (known.is_some() || projects < MAX_MODIFIED_PROJECTS) && files < MAX_MODIFIED_FILES {
            self.modified_files.add(root, file);
        }
    }

    /// Takes the modified files of a project off the record.
    pub fn take_modified(&mut self, root: &str) -> (r: Vec<String>)
        requires
            old(self).wf(),
        ensures
            final(self).wf(),
            final(self)@ == (CacheState {
                modified: old(self)@.modified.remove(root@),
                ..old(self)@
            }),
            text::views(r@).to_set() == registry::under(old(self)@.modified, root@),
            text::views(r@).no_duplicates(),
    {
        let ghost m = self@.modified;
        proof {
            self.modified_files.lemma_finite();
            let t = m.remove(root@);
            assert(t.dom() =~= m.dom().remove(root@));
            assert forall|p: Seq<char>| #[trigger] t.dom().contains(p) implies t[p].len()
                <= MAX_MODIFIED_FILES by {
                assert(m.dom().contains(p));
            }
        }
        self.modified_files.take(root)
    }
}

impl Default for SearchCache {
    fn default() -> (r: SearchCache)
        ensures
            r.wf(),
            r@.content.is_empty(),
            r@.last_sent.is_empty(),
            r@.symbol_index.is_empty(),
            r@.search_keys.is_empty(),
            r@.agents.is_empty(),
            r@.modified.is_empty(),
    {
        SearchCache::new()
    }
}

// ---------------------------------------------------------------------------
// Laws on keys and records
// ---------------------------------------------------------------------------

proof fn lemma_middle(a: Seq<char>, x: Seq<char>, y: Seq<char>, b: Seq<char>)
    requires
        a + x + b == a + y + b,
    ensures
        x == y,
{
    let l = a + x + b;
    let r = a + y + b;
    assert(l.len() == a.len() + x.len() + b.len());
    assert(r.len() == a.len() + y.len() + b.len());
    assert forall|i: int| 0 <= i < x.len() implies x[i] == y[i] by {
        assert(l[a.len() + i] == x[i]);
        assert(r[a.len() + i] == y[i]);
    }
    assert(x =~= y);
}

/// Reads of different files, or of one file in different modes, have different keys.
pub proof fn law_different_reads_have_different_keys(
    path: Seq<char>,
    mode: Seq<char>,
    other: Seq<char>,
)
    ensures
        other != mode ==> read_key(path, other) != read_key(path, mode),
        other != path ==> read_key(other, mode) != read_key(path, mode),
{
    let none = Seq::<char>::empty();
    let head = "read:"@ + path + ":"@;
    if read_key(path, other) == read_key(path, mode) {
        assert(head + other + none =~= read_key(path, other));
        assert(head + mode + none =~= read_key(path, mode));
        lemma_middle(head, other, mode, none);
    }
    let tail = ":"@ + mode;
    if read_key(other, mode) == read_key(path, mode) {
        assert("read:"@ + other + tail =~= read_key(other, mode));
        assert("read:"@ + path + tail =~= read_key(path, mode));
        lemma_middle("read:"@, other, path, tail);
    }
}

/// Searches that differ in the place, the query, the case or the filter have different keys.
pub proof fn law_different_searches_have_different_keys(
    path: Seq<char>,
    query: Seq<char>,
    case_insensitive: bool,
    glob: Seq<char>,
    other: Seq<char>,
)
    ensures
        other != path ==> search_key(other, query, case_insensitive, Some(glob)) != search_key(
            path,
            query,
            case_insensitive,
            Some(glob),
        ),
        other != query ==> search_key(path, other, case_insensitive, Some(glob)) != search_key(
            path,
            query,
            case_insensitive,
            Some(glob),
        ),
        other != glob ==> search_key(path, query, case_insensitive, Some(other)) != search_key(
            path,
            query,
            case_insensitive,
            Some(glob),
        ),
        search_key(path, query, true, Some(glob)) != search_key(path, query, false, Some(glob)),
        glob.len() > 0 ==> search_key(path, query, case_insensitive, None) != search_key(
            path,
            query,
            case_insensitive,
            Some(glob),
        ),
{
    let none = Seq::<char>::empty();
    let flag = if case_insensitive {
        "true"@
    } else {
        "false"@
    };
    let key = search_key(path, query, case_insensitive, Some(glob));
    let by_path = search_key(other, query, case_insensitive, Some(glob));
    if by_path == key {
        let tail = ":"@ + query + ":"@ + flag + ":"@ + glob;
        assert("search:"@ + other + tail =~= by_path);
        assert("search:"@ + path + tail =~= key);
        lemma_middle("search:"@, other, path, tail);
    }
    let by_query = search_key(path, other, case_insensitive, Some(glob));
    if by_query == key {
        let head = "search:"@ + path + ":"@;
        let tail = ":"@ + flag + ":"@ + glob;
        assert(head + other + tail =~= by_query);
        assert(head + query + tail =~= key);
        lemma_middle(head, other, query, tail);
    }
    let head = "search:"@ + path + ":"@ + query + ":"@ + flag + ":"@;
    let by_glob = search_key(path, query, case_insensitive, Some(other));
    if by_glob == key {
        assert(head + other + none =~= by_glob);
        assert(head + glob + none =~= key);
        lemma_middle(head, other, glob, none);
    }
    reveal_strlit("");
    reveal_strlit("true");
    reveal_strlit("false");
    assert(search_key(path, query, true, Some(glob)).len() + 1 == search_key(
        path,
        query,
        false,
        Some(glob),
    ).len());
    assert(search_key(path, query, case_insensitive, None).len() + glob.len() == key.len());
}

/// A modified file is on record as long as there is room: for twenty projects, and for fifty files
/// of each.
pub proof fn law_modified_files_are_recorded_while_there_is_room(
    m: Map<Seq<char>, Set<Seq<char>>>,
    root: Seq<char>,
    file: Seq<char>,
    other: Seq<char>,
)
    requires
        m.dom().contains(root) ==> m[root].len() < 50,
        !m.dom().contains(root) ==> m.dom().len() < 20,
    ensures
        recorded(m, root, file).dom().contains(root),
        recorded(m, root, file)[root].contains(file),
        m.dom().contains(root) ==> m[root].subset_of(recorded(m, root, file)[root]),
        other != root ==> recorded(m, root, file).dom().contains(other) == m.dom().contains(other),
        other != root && m.dom().contains(other) ==> recorded(m, root, file)[other] == m[other],
{
}

/// A record without room stays as it is.
pub proof fn law_a_full_record_stays(
    m: Map<Seq<char>, Set<Seq<char>>>,
    root: Seq<char>,
    file: Seq<char>,
)
    requires
        (m.dom().contains(root) && m[root].len() >= 50) || (!m.dom().contains(root)
            && m.dom().len() >= 20),
    ensures
        recorded(m, root, file) == m,
{
}

/// Registries are compacted where a project has more than two hundred searches.
pub proof fn law_small_registries_are_not_compacted(s: CacheState, t: CacheState)
    requires
        forall|p: Seq<char>| #[trigger]
            s.search_keys.dom().contains(p) ==> s.search_keys[p].len() <= 200,
        compacted(s, t),
    ensures
        t == s,
{
}

/// Where no project has modified files, a flush drops every read and search, and keeps baselines
/// and symbol indexes.
pub proof fn law_a_flush_without_active_projects_drops_all_outputs(s: CacheState, key: Seq<char>)
    requires
        forall|p: Seq<char>| !s.modified.dom().contains(p),
    ensures
        !active_flushed(s).content.dom().contains(key),
        !is_registered(active_flushed(s).search_keys, key),
        active_flushed(s).last_sent == s.last_sent,
        active_flushed(s).symbol_index == s.symbol_index,
{
    assert(s.modified.dom() =~= Set::<Seq<char>>::empty());
}

/// A flush of active projects empties the record of modified files, and leaves every search of a
/// project that has none.
pub proof fn law_a_flush_leaves_inactive_projects(
    s: CacheState,
    active: Seq<char>,
    project: Seq<char>,
    key: Seq<char>,
)
    requires
        s.modified.dom().contains(active),
        !s.modified.dom().contains(project),
        registry::under(s.search_keys, project).contains(key),
        !is_read_key(key),
        forall|p: Seq<char>|
            s.modified.dom().contains(p) ==> !(#[trigger] registry::under(
                s.search_keys,
                p,
            ).contains(key)),
    ensures
        active_flushed(s).content.dom().contains(key) == s.content.dom().contains(key),
        registry::under(active_flushed(s).search_keys, project) == registry::under(
            s.search_keys,
            project,
        ),
        forall|p: Seq<char>| !(#[trigger] active_flushed(s).modified.dom().contains(p)),
{
    assert(!s.modified.dom().is_empty()) by {
        if s.modified.dom().is_empty() {
            assert(s.modified.dom() =~= Set::<Seq<char>>::empty());
        }
    }
    if active_keys(s).contains(key) {
        let p = choose|p: Seq<char>| #[trigger]
            s.modified.dom().contains(p) && (registry::under(s.search_keys, p).contains(key)
                || exists|f: Seq<char>| #[trigger]
                s.modified[p].contains(f) && read_keys(f).contains(key));
        assert(!registry::under(s.search_keys, p).contains(key));
        let f = choose|f: Seq<char>| #[trigger]
            s.modified[p].contains(f) && read_keys(f).contains(key);
        lemma_read_key(f, "skeleton"@);
        lemma_read_key(f, "compressed"@);
        lemma_read_key(f, "full"@);
    }
}

/// A search that was put in is found under its key, is registered under its project, and leaves
/// all else.
pub proof fn law_a_search_is_kept_under_its_project(
    s: CacheState,
    project: Seq<char>,
    key: Seq<char>,
    value: Seq<char>,
    other: Seq<char>,
)
    ensures
        with_search(s, project, key, value).content.dom().contains(key),
        with_search(s, project, key, value).content[key] == value,
        registry::under(with_search(s, project, key, value).search_keys, project).contains(key),
        other != key ==> with_search(s, project, key, value).content.dom().contains(other)
            == s.content.dom().contains(other),
        other != key && s.content.dom().contains(other) ==> with_search(
            s,
            project,
            key,
            value,
        ).content[other] == s.content[other],
        other != project ==> registry::under(
            with_search(s, project, key, value).search_keys,
            other,
        ) == registry::under(s.search_keys, other),
        with_search(s, project, key, value).last_sent == s.last_sent,
        with_search(s, project, key, value).modified == s.modified,
        with_search(s, project, key, value).symbol_index == s.symbol_index,
{
}

/// What was sent to an agent is its baseline for the file, and no other baseline changes.
pub proof fn law_what_was_sent_is_the_baseline(
    s: CacheState,
    agent: Seq<char>,
    file: Seq<char>,
    value: Seq<char>,
    other_agent: Seq<char>,
    other_file: Seq<char>,
)
    ensures
        with_sent(s, agent, file, value).last_sent.dom().contains((agent, file)),
        with_sent(s, agent, file, value).last_sent[(agent, file)] == value,
        registry::under(with_sent(s, agent, file, value).agents, file).contains(agent),
        registry::under(s.agents, file).subset_of(
            registry::under(with_sent(s, agent, file, value).agents, file),
        ),
        other_agent != agent || other_file != file ==> with_sent(
            s,
            agent,
            file,
            value,
        ).last_sent.dom().contains((other_agent, other_file)) == s.last_sent.dom().contains(
            (other_agent, other_file),
        ),
        (other_agent != agent || other_file != file) && s.last_sent.dom().contains(
            (other_agent, other_file),
        ) ==> with_sent(s, agent, file, value).last_sent[(other_agent, other_file)]
            == s.last_sent[(other_agent, other_file)],
        with_sent(s, agent, file, value).content == s.content,
{
}

/// A state in which every output is registered follows a key under its project: the key is found
/// there as long as its output is cached.
pub proof fn law_followed_keys_stand_under_their_project(
    s: CacheState,
    project: Seq<char>,
    key: Seq<char>,
)
    ensures
        followed(s, project, key) && s.content.dom().contains(key) ==> s.search_keys.dom().contains(
            project,
        ) && s.search_keys[project].contains(key),
        s.search_keys.dom().contains(project) && s.search_keys[project].contains(key) ==> followed(
            s,
            project,
            key,
        ) && is_registered(s.search_keys, key),
        !s.content.dom().contains(key) ==> followed(s, project, key),
{
}

/// In a consistent state, every output that is no read is registered under some project, and every
/// baseline under its file.
pub proof fn law_consistent_states_register_what_they_hold(
    s: CacheState,
    key: Seq<char>,
    agent: Seq<char>,
    file: Seq<char>,
)
    requires
        consistent(s),
    ensures
        s.content.dom().contains(key) && !text::begins_with(key, "read:"@) ==> exists|p: Seq<char>|
         #[trigger] s.search_keys.dom().contains(p) && s.search_keys[p].contains(key),
        s.last_sent.dom().contains((agent, file)) ==> s.agents.dom().contains(file)
            && s.agents[file].contains(agent),
        s.modified.dom().len() <= 20,
{
}

} // verus!
