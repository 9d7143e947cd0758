//! The bounded caches, held by `moka`.
//!
//! A cache forgets entries by itself: when they grow old and when it is full. So what is named
//! here is the entries that a lookup may still return. A lookup returns what was inserted last,
//! or nothing; once it has returned nothing, it returns nothing until the next insertion. What the
//! calls themselves put in and took out has a name of its own.

use crate::paths;
use crate::tools::index::ProjectIndex;
use std::sync::Arc;
use vstd::prelude::*;

verus! {

/// `moka::sync::Cache`.
#[verifier::external_type_specification]
#[verifier::external_body]
#[verifier::reject_recursive_types(K)]
#[verifier::reject_recursive_types(V)]
#[verifier::reject_recursive_types(S)]
pub struct ExCache<K, V, S>(moka::sync::Cache<K, V, S>);

/// The entries of a cache of texts that a lookup may still return.
pub uninterp spec fn text_entries(c: moka::sync::Cache<String, String>) -> Map<
    Seq<char>,
    Seq<char>,
>;

/// The entries of a cache of texts as the calls left them: what was inserted last under each key and
/// not invalidated since, whether or not the cache has lost it meanwhile.
pub uninterp spec fn text_kept(c: moka::sync::Cache<String, String>) -> Map<Seq<char>, Seq<char>>;

/// The capacity and the time to live (in seconds) that a cache of texts was made with.
pub uninterp spec fn text_limits(c: moka::sync::Cache<String, String>) -> (nat, nat);

/// The entries of a cache by pairs that a lookup may still return.
pub uninterp spec fn pair_entries(c: moka::sync::Cache<(String, String), String>) -> Map<
    (Seq<char>, Seq<char>),
    Seq<char>,
>;

/// The entries of a cache by pairs as the calls left them: what was inserted last under each key and
/// not invalidated since, whether or not the cache has lost it meanwhile.
pub uninterp spec fn pair_kept(c: moka::sync::Cache<(String, String), String>) -> Map<
    (Seq<char>, Seq<char>),
    Seq<char>,
>;

/// The capacity and the time to live (in seconds) that a cache by pairs was made with.
pub uninterp spec fn pair_limits(c: moka::sync::Cache<(String, String), String>) -> (nat, nat);

/// The entries of a cache of symbol indexes that a lookup may still return.
pub uninterp spec fn index_entries(c: moka::sync::Cache<String, Arc<ProjectIndex>>) -> Map<
    Seq<char>,
    Map<Seq<char>, Seq<(Seq<char>, nat, Seq<char>)>>,
>;

/// The capacity and the time to live (in seconds) that a cache of symbol indexes was made with,
/// and whether it takes invalidation closures.
pub uninterp spec fn index_limits(c: moka::sync::Cache<String, Arc<ProjectIndex>>) -> (
    nat,
    nat,
    bool,
);

/// The longest time to live that `moka` takes: a thousand years, in seconds.
pub const MAX_TIME_TO_LIVE: u64 = 31_536_000_000;

/// Calls `moka::sync::Cache::builder` with `max_capacity` and `time_to_live`. A new cache is
/// empty. `build` panics on a time to live above a thousand years.
#[verifier::external_body]
pub(crate) fn new_text_cache(capacity: u64, ttl: u64) -> (c: moka::sync::Cache<String, String>)
    requires
        ttl <= MAX_TIME_TO_LIVE,
    ensures
        text_entries(c).is_empty(),
        text_kept(c).is_empty(),
        text_limits(c) == (capacity as nat, ttl as nat),
{
    moka::sync::Cache::builder()
        .max_capacity(capacity)
        .time_to_live(std::time::Duration::from_secs(ttl))
        .build()
}

/// Calls `moka::sync::Cache::get`. It returns a clone of the value that was inserted last under
/// the key, or nothing: after an expiry, an eviction or an invalidation. A lookup takes nothing out.
#[verifier::external_body]
pub(crate) fn text_get(c: &mut moka::sync::Cache<String, String>, key: &str) -> (r: Option<String>)
    ensures
        r matches Some(v) ==> text_entries(*old(c)).dom().contains(key@) && text_entries(
            *old(c),
        )[key@] == v@ && text_entries(*final(c)) == text_entries(*old(c)),
        r is None ==> text_entries(*final(c)) == text_entries(*old(c)).remove(key@),
        text_limits(*final(c)) == text_limits(*old(c)),
        text_kept(*final(c)) == text_kept(*old(c)),
{
    c.get(key)
}

/// Calls `moka::sync::Cache::insert`. The value replaces one that the key had.
#[verifier::external_body]
pub(crate) fn text_insert(c: &mut moka::sync::Cache<String, String>, key: String, value: String)
    ensures
        text_entries(*final(c)) == text_entries(*old(c)).insert(key@, value@),
        text_limits(*final(c)) == text_limits(*old(c)),
        text_kept(*final(c)) == text_kept(*old(c)).insert(key@, value@),
{
    c.insert(key, value)
}

/// Calls `moka::sync::Cache::invalidate`. The value of the key is discarded.
#[verifier::external_body]
pub(crate) fn text_invalidate(c: &mut moka::sync::Cache<String, String>, key: &str)
    ensures
        text_entries(*final(c)) == text_entries(*old(c)).remove(key@),
        text_limits(*final(c)) == text_limits(*old(c)),
        text_kept(*final(c)) == text_kept(*old(c)).remove(key@),
{
    c.invalidate(key)
}

/// Calls `moka::sync::Cache::builder` with `max_capacity` and `time_to_live`. A new cache is
/// empty. `build` panics on a time to live above a thousand years.
#[verifier::external_body]
pub(crate) fn new_pair_cache(capacity: u64, ttl: u64) -> (c: moka::sync::Cache<
    (String, String),
    String,
>)
    requires
        ttl <= MAX_TIME_TO_LIVE,
    ensures
        pair_entries(c).is_empty(),
        pair_kept(c).is_empty(),
        pair_limits(c) == (capacity as nat, ttl as nat),
{
    moka::sync::Cache::builder()
        .max_capacity(capacity)
        .time_to_live(std::time::Duration::from_secs(ttl))
        .build()
}

/// Calls `moka::sync::Cache::get`. It returns a clone of the value that was inserted last under
/// the key, or nothing: after an expiry, an eviction or an invalidation. A lookup takes nothing out.
#[verifier::external_body]
pub(crate) fn pair_get(
    c: &mut moka::sync::Cache<(String, String), String>,
    first: &str,
    second: &str,
) -> (r: Option<String>)
    ensures
        r matches Some(v) ==> pair_entries(*old(c)).dom().contains((first@, second@))
            && pair_entries(*old(c))[(first@, second@)] == v@ && pair_entries(*final(c))
            == pair_entries(*old(c)),
        r is None ==> pair_entries(*final(c)) == pair_entries(*old(c)).remove((first@, second@)),
        pair_limits(*final(c)) == pair_limits(*old(c)),
        pair_kept(*final(c)) == pair_kept(*old(c)),
{
    c.get(&(first.to_string(), second.to_string()))
}

/// Calls `moka::sync::Cache::insert`. The value replaces one that the key had.
#[verifier::external_body]
pub(crate) fn pair_insert(
    c: &mut moka::sync::Cache<(String, String), String>,
    first: String,
    second: String,
    value: String,
)
    ensures
        pair_entries(*final(c)) == pair_entries(*old(c)).insert((first@, second@), value@),
        pair_limits(*final(c)) == pair_limits(*old(c)),
        pair_kept(*final(c)) == pair_kept(*old(c)).insert((first@, second@), value@),
{
    c.insert((first, second), value)
}

/// Calls `moka::sync::Cache::invalidate`. The value of the key is discarded.
#[verifier::external_body]
pub(crate) fn pair_invalidate(
    c: &mut moka::sync::Cache<(String, String), String>,
    first: &str,
    second: &str,
)
    ensures
        pair_entries(*final(c)) == pair_entries(*old(c)).remove((first@, second@)),
        pair_limits(*final(c)) == pair_limits(*old(c)),
        pair_kept(*final(c)) == pair_kept(*old(c)).remove((first@, second@)),
{
    c.invalidate(&(first.to_string(), second.to_string()))
}

/// Calls `moka::sync::Cache::builder` with `max_capacity`, `time_to_live` and
/// `support_invalidation_closures`. A new cache is empty. `build` panics on a time to live above
/// a thousand years.
#[verifier::external_body]
pub(crate) fn new_index_cache(capacity: u64, ttl: u64) -> (c: moka::sync::Cache<
    String,
    Arc<ProjectIndex>,
>)
    requires
        ttl <= MAX_TIME_TO_LIVE,
    ensures
        index_entries(c).is_empty(),
        index_limits(c) == (capacity as nat, ttl as nat, true),
{
    moka::sync::Cache::builder()
        .max_capacity(capacity)
        .time_to_live(std::time::Duration::from_secs(ttl))
        .support_invalidation_closures()
        .build()
}

/// Calls `moka::sync::Cache::get`. It returns a clone of the pointer that was inserted last under
/// the key, or nothing: after an expiry, an eviction or an invalidation.
#[verifier::external_body]
pub(crate) fn index_get(
    c: &mut moka::sync::Cache<String, Arc<ProjectIndex>>,
    key: &str,
) -> (r: Option<Arc<ProjectIndex>>)
    ensures
        r matches Some(v) ==> index_entries(*old(c)).dom().contains(key@) && index_entries(
            *old(c),
        )[key@] == v@ && index_entries(*final(c)) == index_entries(*old(c)),
        r is None ==> index_entries(*final(c)) == index_entries(*old(c)).remove(key@),
        index_limits(*final(c)) == index_limits(*old(c)),
{
    c.get(key)
}

/// Calls `moka::sync::Cache::insert`. The value replaces one that the key had.
#[verifier::external_body]
pub(crate) fn index_insert(
    c: &mut moka::sync::Cache<String, Arc<ProjectIndex>>,
    key: String,
    value: Arc<ProjectIndex>,
)
    ensures
        index_entries(*final(c)) == index_entries(*old(c)).insert(key@, value@),
        index_limits(*final(c)) == index_limits(*old(c)),
{
    c.insert(key, value)
}

/// The indexes of the roots that a path does not lie within.
pub open spec fn roots_outside(
    m: Map<Seq<char>, Map<Seq<char>, Seq<(Seq<char>, nat, Seq<char>)>>>,
    path: Seq<char>,
) -> Map<Seq<char>, Map<Seq<char>, Seq<(Seq<char>, nat, Seq<char>)>>> {
    Map::new(|r: Seq<char>| m.dom().contains(r) && !paths::within(path, r), |r: Seq<char>| m[r])
}

/// Calls `moka::sync::Cache::invalidate_entries_if` with the keys that a path lies within. The
/// entries that the closure accepts are no longer returned; the others stay. The cache has to be
/// made with `support_invalidation_closures`, or the call does nothing.
#[verifier::external_body]
pub(crate) fn index_invalidate_around(
    c: &mut moka::sync::Cache<String, Arc<ProjectIndex>>,
    path: &str,
)
    requires
        index_limits(*old(c)).2,
    ensures
        index_entries(*final(c)) == roots_outside(index_entries(*old(c)), path@),
        index_limits(*final(c)) == index_limits(*old(c)),
{
    let path = path.to_string();
    let _ = c.invalidate_entries_if(move |root, _| paths::is_within(&path, root));
}

} // verus!
