//! Searching, listing and finding symbols: what is decided at each step of a request.

use crate::cache;
use crate::cache::store;
use crate::cache::CacheState;
use crate::cache::SearchCache;
use crate::config;
use crate::mcp;
use crate::mcp::Args;
use crate::mcp::Reply;
use crate::text;
use crate::tools::index;
use crate::tools::index::ProjectIndex;
use vstd::prelude::*;

verus! {

// ---------------------------------------------------------------------------
// Searching
// ---------------------------------------------------------------------------

/// A search in a project.
pub struct GrepRequest {
    pub query: String,
    pub project_path: String,
    pub case_insensitive: bool,
    pub include_glob: Option<String>,
}

/// Reads a request to search. Case is ignored unless it is asked for.
pub fn parse_grep(args: &Args) -> (r: Result<GrepRequest, Reply>)
    ensures
        match mcp::first_missing(*args, seq!["query"@, "project_path"@], 0) {
            Some(n) => r matches Err(e) && e.fails(mcp::missing_text(n)),
            None => r matches Ok(q) && args.text("query"@) == Some(q.query@) && args.text(
                "project_path"@,
            ) == Some(q.project_path@) && q.case_insensitive == (args.flag("case_insensitive"@)
                != Some(false)) && config::optional(q.include_glob) == args.text(
                "include_glob"@,
            ),
        },
{
    match mcp::required_pair(args, "query", "project_path") {
        Err(e) => Err(mcp::error_content(e)),
        Ok((query, project_path)) => Ok(
            GrepRequest {
                query,
                project_path,
                case_insensitive: match args.get_flag("case_insensitive") {
                    Some(b) => b,
                    None => true,
                },
                include_glob: args.get_text("include_glob"),
            },
        ),
    }
}

impl GrepRequest {
    /// The cache key of the search in a resolved project.
    pub open spec fn key(self, canonical_path: Seq<char>) -> Seq<char> {
        cache::search_key(
            canonical_path,
            self.query@,
            self.case_insensitive,
            config::optional(self.include_glob),
        )
    }

    /// The cache key of the search in a resolved project.
    pub fn cache_key(&self, canonical_path: &str) -> (r: String)
        ensures
            r@ == self.key(canonical_path@),
    {
        let glob = match &self.include_glob {
            Some(g) => Some(g.as_str()),
            None => None,
        };
        SearchCache::key_search(canonical_path, self.query.as_str(), self.case_insensitive, glob)
    }
}

/// Answers a search from the cache, if it can be.
pub fn cached_grep(
    search_cache: &mut SearchCache,
    request: &GrepRequest,
    canonical_path: &str,
) -> (r: Option<Reply>)
    requires
        old(search_cache).wf(),
    ensures
        final(search_cache).wf(),
        r matches Some(reply) ==> ({
            let s = old(search_cache)@;
            let k = request.key(canonical_path@);
            s.content.dom().contains(k) && reply.tells(s.content[k]) && final(search_cache)@ == s
        }),
        r is None ==> final(search_cache)@ == (CacheState {
            content: old(search_cache)@.content.remove(request.key(canonical_path@)),
            ..old(search_cache)@
        }),
        store::text_kept(final(search_cache).content) == store::text_kept(
            old(search_cache).content,
        ),
        store::pair_kept(final(search_cache).last_sent) == store::pair_kept(
            old(search_cache).last_sent,
        ),
{
    let key = request.cache_key(canonical_path);
    match search_cache.cached(key.as_str()) {
        Some(content) => Some(mcp::text_content(content)),
        None => None,
    }
}

/// Answers a search that was not in the cache. What it found is kept under its project, so that a
/// change in the project evicts it.
pub fn answer_grep(
    search_cache: &mut SearchCache,
    request: &GrepRequest,
    canonical_path: &str,
    outcome: Result<String, String>,
) -> (r: Reply)
    requires
        old(search_cache).wf(),
    ensures
        final(search_cache).wf(),
        match outcome {
            Ok(found) => r.tells(found@) && cache::compacted(
                cache::with_search(
                    old(search_cache)@,
                    canonical_path@,
                    request.key(canonical_path@),
                    found@,
                ),
                final(search_cache)@,
            ) && cache::followed(
                final(search_cache)@,
                canonical_path@,
                request.key(canonical_path@),
            ),
            Err(e) => r.fails("Search failed: "@ + e@) && final(search_cache)@ == old(search_cache)@,
        },
        store::text_kept(final(search_cache).content) == (match outcome {
            Ok(found) => store::text_kept(old(search_cache).content).insert(
                request.key(canonical_path@),
                found@,
            ),
            Err(_) => store::text_kept(old(search_cache).content),
        }),
        store::pair_kept(final(search_cache).last_sent) == store::pair_kept(
            old(search_cache).last_sent,
        ),
{
    match outcome {
        Ok(found) => {
            let key = request.cache_key(canonical_path);
            search_cache.insert_search(canonical_path, key, found.clone());
            mcp::text_content(found)
        },
        Err(e) => mcp::error_because("Search failed: ", e.as_str()),
    }
}

// ---------------------------------------------------------------------------
// Listing
// ---------------------------------------------------------------------------

/// A request to list a directory.
pub struct LsRequest {
    pub project_path: String,
    pub max_depth: Option<usize>,
}

/// Reads a request to list a directory.
pub fn parse_ls(args: &Args) -> (r: Result<LsRequest, Reply>)
    ensures
        match args.text("project_path"@) {
            None => r matches Err(e) && e.fails(mcp::missing_text("project_path"@)),
            Some(p) => r matches Ok(q) && q.project_path@ == p && q.max_depth == (match args.number(
                "max_depth"@,
            ) {
                Some(n) => Some(n as usize),
                None => None,
            }),
        },
{
    match args.required("project_path") {
        Err(e) => Err(mcp::error_content(e)),
        Ok(project_path) => Ok(
            LsRequest {
                project_path,
                max_depth: match args.get_number("max_depth") {
                    Some(n) => Some(
                        #[verifier::truncate]
                        (n as usize),
                    ),
                    None => None,
                },
            },
        ),
    }
}

/// Replies to a request to list a directory.
pub fn reply_ls(outcome: Result<String, String>) -> (r: Reply)
    ensures
        match outcome {
            Ok(t) => r.tells(t@),
            Err(e) => r.fails("Listing failed: "@ + e@),
        },
{
    match outcome {
        Ok(t) => mcp::text_content(t),
        Err(e) => mcp::error_because("Listing failed: ", e.as_str()),
    }
}

// ---------------------------------------------------------------------------
// Symbols
// ---------------------------------------------------------------------------

/// A request to find a symbol.
pub struct SymbolRequest {
    pub symbol: String,
    pub project_path: String,
}

/// Reads a request to find a symbol.
pub fn parse_find_symbol(args: &Args) -> (r: Result<SymbolRequest, Reply>)
    ensures
        match mcp::first_missing(*args, seq!["symbol"@, "project_path"@], 0) {
            Some(n) => r matches Err(e) && e.fails(mcp::missing_text(n)),
            None => r matches Ok(q) && args.text("symbol"@) == Some(q.symbol@) && args.text(
                "project_path"@,
            ) == Some(q.project_path@),
        },
{
    match mcp::required_pair(args, "symbol", "project_path") {
        Err(e) => Err(mcp::error_content(e)),
        Ok((symbol, project_path)) => Ok(SymbolRequest { symbol, project_path }),
    }
}

/// The first `n` places of a symbol, one to a line, below the headline.
pub open spec fn places_text(
    symbol: Seq<char>,
    places: Seq<(Seq<char>, nat, Seq<char>)>,
    n: nat,
) -> Seq<char>
    decreases n,
{
    if n == 0 {
        "Found "@ + text::decimal(places.len()) + " matches for `"@ + symbol + "`:\n"@
    } else {
        places_text(symbol, places, (n - 1) as nat) + ("  "@ + places[n - 1].2 + " → "@
            + places[n - 1].0 + ":L"@ + text::decimal(places[n - 1].1) + "\n"@)
    }
}

/// Where a symbol is defined, if it is known.
pub open spec fn symbol_report(
    known: Map<Seq<char>, Seq<(Seq<char>, nat, Seq<char>)>>,
    symbol: Seq<char>,
) -> Option<Seq<char>> {
    if known.dom().contains(symbol) {
        Some(places_text(symbol, known[symbol], known[symbol].len()))
    } else {
        None
    }
}

/// Renders where a symbol is defined, if it is known.
pub fn report_symbol(known: &ProjectIndex, symbol: &str) -> (r: Option<String>)
    ensures
        r is Some <==> symbol_report(known@, symbol@) is Some,
        r matches Some(t) ==> symbol_report(known@, symbol@) == Some(t@),
{
    match known.find(symbol) {
        Some(locations) => {
            let ghost ps = index::location_views(locations@);
            let mut t = text::copy("Found ");
            t.append(text::decimal_text(locations.len() as u128).as_str());
            t.append(" matches for `");
            t.append(symbol);
            t.append("`:\n");
            let mut i: usize = 0;
            while i < locations.len()
                invariant
                    i <= locations@.len(),
                    ps == index::location_views(locations@),
                    t@ == places_text(symbol@, ps, i as nat),
                decreases locations@.len() - i,
            {
                let l = &locations[i];
                assert(ps[i as int] == l@);
                let mut line = text::copy("  ");
                line.append(l.kind.as_str());
                line.append(" → ");
                line.append(l.file.as_str());
                line.append(":L");
                line.append(text::decimal_text(l.line as u128).as_str());
                line.append("\n");
                t.append(line.as_str());
                i += 1;
            }
            Some(t)
        },
        None => None,
    }
}

/// Replies to a request to find a symbol.
pub fn reply_find_symbol(known: &ProjectIndex, symbol: &str) -> (r: Reply)
    ensures
        match symbol_report(known@, symbol@) {
            Some(t) => r.tells(t),
            None => r.tells("Symbol `"@ + symbol@ + "` not found in project."@),
        },
{
    match report_symbol(known, symbol) {
        Some(t) => mcp::text_content(t),
        None => {
            let mut t = text::copy("Symbol `");
            t.append(symbol);
            t.append("` not found in project.");
            mcp::text_content(t)
        },
    }
}

// ---------------------------------------------------------------------------
// Laws
// ---------------------------------------------------------------------------

/// A known symbol is reported with how many places define it, and each place on a line of its own:
/// the kind, the file and the line. An unknown symbol is not.
pub proof fn law_each_place_of_a_symbol_is_reported(
    known: Map<Seq<char>, Seq<(Seq<char>, nat, Seq<char>)>>,
    symbol: Seq<char>,
    i: int,
)
    requires
        known.dom().contains(symbol),
        0 <= i < known[symbol].len(),
    ensures
        symbol_report(known, symbol) == Some(
            places_text(symbol, known[symbol], known[symbol].len()),
        ),
        places_text(symbol, known[symbol], 0) == "Found "@ + text::decimal(known[symbol].len())
            + " matches for `"@ + symbol + "`:\n"@,
        places_text(symbol, known[symbol], (i + 1) as nat) == places_text(
            symbol,
            known[symbol],
            i as nat,
        ) + ("  "@ + known[symbol][i].2 + " → "@ + known[symbol][i].0 + ":L"@ + text::decimal(
            known[symbol][i].1,
        ) + "\n"@),
{
}

/// Only a known symbol is reported.
pub proof fn law_unknown_symbols_are_not_reported(
    known: Map<Seq<char>, Seq<(Seq<char>, nat, Seq<char>)>>,
    symbol: Seq<char>,
)
    ensures
        symbol_report(known, symbol) is Some <==> known.dom().contains(symbol),
{
}

/// Two requests that agree in case and filter, and share a key, are for the same text.
pub proof fn law_requests_have_their_own_keys(a: GrepRequest, b: GrepRequest, path: Seq<char>)
    requires
        a.case_insensitive == b.case_insensitive,
        config::optional(a.include_glob) == config::optional(b.include_glob),
        a.key(path) == b.key(path),
    ensures
        a.query@ == b.query@,
{
    let glob = match a.include_glob {
        Some(g) => g@,
        None => ""@,
    };
    cache::law_different_searches_have_different_keys(
        path,
        b.query@,
        b.case_insensitive,
        glob,
        a.query@,
    );
}

} // verus!
