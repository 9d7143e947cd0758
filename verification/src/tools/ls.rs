//! Directory listings.

use crate::text;
use crate::tools::index;
use crate::utils;
use vstd::prelude::*;

verus! {

/// How deep a listing goes where nothing else is asked for.
pub const DEFAULT_MAX_DEPTH: usize = 2;

/// How deep a listing goes at most.
pub const DEPTH_LIMIT: usize = 20;

/// How long a listing may be, in bytes.
pub const LISTING_CAP_BYTES: usize = 10_000;

/// The directories that are left out of listings.
pub open spec fn is_unlisted(name: Seq<char>) -> bool {
    name == "node_modules"@ || name == "target"@ || name == ".git"@ || name == ".next"@ || name
        == "dist"@ || name == "__pycache__"@ || name == ".turbo"@ || name == "build"@ || name
        == "vendor"@
}

/// Whether a directory is left out of listings.
pub fn skips_dir(name: &str) -> (r: bool)
    ensures
        r == is_unlisted(name@),
{
    text::str_eq(name, "node_modules") || text::str_eq(name, "target") || text::str_eq(
        name,
        ".git",
    ) || text::str_eq(name, ".next") || text::str_eq(name, "dist") || text::str_eq(
        name,
        "__pycache__",
    ) || text::str_eq(name, ".turbo") || text::str_eq(name, "build") || text::str_eq(
        name,
        "vendor",
    )
}

/// How deep a listing goes.
pub fn effective_depth(max_depth: Option<usize>) -> (r: usize)
    ensures
        max_depth is None ==> r == DEFAULT_MAX_DEPTH,
        max_depth matches Some(d) ==> r == (if d <= DEPTH_LIMIT {
            d
        } else {
            DEPTH_LIMIT
        }),
{
    let d: usize = match max_depth {
        Some(d) => d,
        None => DEFAULT_MAX_DEPTH,
    };
    if d <= DEPTH_LIMIT {
        d
    } else {
        DEPTH_LIMIT
    }
}

/// An entry of a listing. What stands directly in the directory has depth one.
pub struct ListEntry {
    pub depth: usize,
    pub name: String,
    pub is_dir: bool,
}

/// Two spaces for each level.
pub open spec fn indent(depth: nat) -> Seq<char>
    decreases depth,
{
    if depth == 0 {
        Seq::empty()
    } else {
        indent((depth - 1) as nat) + "  "@
    }
}

/// The line of an entry.
pub open spec fn entry_line(e: ListEntry) -> Seq<char> {
    indent(e.depth as nat) + (if e.is_dir {
        "📁/ "@
    } else {
        "📄 "@
    }) + e.name@ + "\n"@
}

/// The lines of the first `n` entries below the line of the directory.
pub open spec fn tree(dir: Seq<char>, entries: Seq<ListEntry>, n: nat) -> Seq<char>
    decreases n,
{
    if n == 0 {
        "📂 "@ + dir + "\n"@
    } else {
        tree(dir, entries, (n - 1) as nat) + entry_line(entries[n - 1])
    }
}

/// Lists a directory. `entries` holds what it was found to contain, in order.
pub fn list_dir(dir_path: &str, exists: bool, entries: &Vec<ListEntry>) -> (r: Result<
    String,
    String,
>)
    ensures
        !exists ==> (r matches Err(e) && e@ == "Directory does not exist: "@ + dir_path@),
        exists ==> (r matches Ok(out) && out@ == utils::truncated(
            tree(dir_path@, entries@, entries@.len()),
            LISTING_CAP_BYTES as nat,
        )),
{
    if !exists {
        let mut e = text::copy("Directory does not exist: ");
        e.append(dir_path);
        return Err(e);
    }
    let mut out = text::copy("📂 ");
    out.append(dir_path);
    out.append("\n");
    let mut i: usize = 0;
    while i < entries.len()
        invariant
            i <= entries@.len(),
            out@ == tree(dir_path@, entries@, i as nat),
        decreases entries@.len() - i,
    {
        let e = &entries[i];
        let mut line = String::new();
        let mut k: usize = 0;
        while k < e.depth
            invariant
                k <= e.depth,
                line@ == indent(k as nat),
            decreases e.depth - k,
        {
            line.append("  ");
            k += 1;
        }
        line.append(if e.is_dir {
            "📁/ "
        } else {
            "📄 "
        });
        line.append(e.name.as_str());
        line.append("\n");
        assert(line@ == entry_line(*e));
        out.append(line.as_str());
        i += 1;
    }
    utils::safe_truncate(&mut out, LISTING_CAP_BYTES);
    Ok(out)
}

// ---------------------------------------------------------------------------
// Laws
// ---------------------------------------------------------------------------

proof fn lemma_indent(depth: nat)
    ensures
        indent(depth) == Seq::new(2 * depth, |i: int| ' '),
    decreases depth,
{
    if depth > 0 {
        lemma_indent((depth - 1) as nat);
        reveal_strlit("  ");
    }
    assert(indent(depth) =~= Seq::new(2 * depth, |i: int| ' '));
}

/// A listing begins with the directory.
pub proof fn law_a_listing_begins_with_its_directory(dir: Seq<char>, entries: Seq<ListEntry>)
    ensures
        tree(dir, entries, 0) == "📂 "@ + dir + "\n"@,
{
}

/// Each entry adds one line: two blanks for each level, the mark of a directory or a file, and
/// the name.
pub proof fn law_each_entry_adds_its_line(dir: Seq<char>, entries: Seq<ListEntry>, i: int)
    requires
        0 <= i < entries.len(),
    ensures
        tree(dir, entries, (i + 1) as nat) == tree(dir, entries, i as nat) + (Seq::new(
            2 * entries[i].depth as nat,
            |k: int| ' ',
        ) + (if entries[i].is_dir {
            "📁/ "@
        } else {
            "📄 "@
        }) + entries[i].name@ + "\n"@),
{
    lemma_indent(entries[i].depth as nat);
}

/// A listing leaves out what holds no sources, and directories of vendored code.
pub proof fn law_listings_leave_out_what_is_not_indexed(name: Seq<char>)
    ensures
        is_unlisted(name) <==> (index::is_noise(name) || name == "vendor"@),
{
}

/// A listing goes two levels deep unless asked for more, never deeper than twenty, and takes ten
/// thousand bytes at most.
pub proof fn law_listings_have_their_limits()
    ensures
        DEFAULT_MAX_DEPTH == 2,
        DEPTH_LIMIT == 20,
        LISTING_CAP_BYTES == 10_000,
{
}

} // verus!
