//! The symbol index of a project: where each name is defined.

use crate::parser;
use crate::parser::Lang;
use crate::parser::Symbol;
use crate::paths;
use crate::text;
use vstd::prelude::*;

verus! {

/// One place where a symbol is defined.
pub struct SymbolLocation {
    pub file: String,
    pub line: u64,
    pub kind: String,
}

impl View for SymbolLocation {
    type V = (Seq<char>, nat, Seq<char>);

    open spec fn view(&self) -> (Seq<char>, nat, Seq<char>) {
        (self.file@, self.line as nat, self.kind@)
    }
}

/// What a list of locations holds.
pub open spec fn location_views(v: Seq<SymbolLocation>) -> Seq<(Seq<char>, nat, Seq<char>)> {
    Seq::new(v.len(), |i: int| v[i]@)
}

/// A symbol name with its locations.
pub struct SymbolEntry {
    pub name: String,
    pub locations: Vec<SymbolLocation>,
}

/// The index of a project. Where a name occurs twice, the first entry counts.
pub struct ProjectIndex {
    pub symbols: Vec<SymbolEntry>,
}

/// The locations of the first entry with a name, from entry `i` on.
pub open spec fn lookup(es: Seq<SymbolEntry>, name: Seq<char>, i: int) -> Option<
    Seq<(Seq<char>, nat, Seq<char>)>,
>
    decreases es.len() - i,
{
    if i >= es.len() {
        None
    } else if es[i].name@ == name {
        Some(location_views(es[i].locations@))
    } else {
        lookup(es, name, i + 1)
    }
}

impl View for ProjectIndex {
    type V = Map<Seq<char>, Seq<(Seq<char>, nat, Seq<char>)>>;

    open spec fn view(&self) -> Map<Seq<char>, Seq<(Seq<char>, nat, Seq<char>)>> {
        Map::new(
            |n: Seq<char>| lookup(self.symbols@, n, 0) is Some,
            |n: Seq<char>| lookup(self.symbols@, n, 0)->0,
        )
    }
}

/// The locations of a name, none where it is unknown.
pub open spec fn locations_of(
    m: Map<Seq<char>, Seq<(Seq<char>, nat, Seq<char>)>>,
    name: Seq<char>,
) -> Seq<(Seq<char>, nat, Seq<char>)> {
    if m.dom().contains(name) {
        m[name]
    } else {
        Seq::empty()
    }
}

/// An index with the symbols of one more file, in order.
pub open spec fn with_symbols(
    m: Map<Seq<char>, Seq<(Seq<char>, nat, Seq<char>)>>,
    file: Seq<char>,
    syms: Seq<(Seq<char>, nat, Seq<char>)>,
) -> Map<Seq<char>, Seq<(Seq<char>, nat, Seq<char>)>>
    decreases syms.len(),
{
    if syms.len() == 0 {
        m
    } else {
        let before = with_symbols(m, file, syms.drop_last());
        let s = syms.last();
        before.insert(s.0, locations_of(before, s.0).push((file, s.1, s.2)))
    }
}

/// Adding a file keeps what the index knew, in front of what the file adds.
pub proof fn law_indexing_keeps_earlier_locations(
    m: Map<Seq<char>, Seq<(Seq<char>, nat, Seq<char>)>>,
    file: Seq<char>,
    syms: Seq<(Seq<char>, nat, Seq<char>)>,
    name: Seq<char>,
)
    ensures
        locations_of(m, name).is_prefix_of(locations_of(with_symbols(m, file, syms), name)),
        m.dom().contains(name) ==> with_symbols(m, file, syms).dom().contains(name),
    decreases syms.len(),
{
    let old_list = locations_of(m, name);
    if syms.len() == 0 {
        assert(old_list.subrange(0, old_list.len() as int) =~= old_list);
    } else {
        law_indexing_keeps_earlier_locations(m, file, syms.drop_last(), name);
        let before = with_symbols(m, file, syms.drop_last());
        let mid = locations_of(before, name);
        let now = locations_of(with_symbols(m, file, syms), name);
        assert(now.subrange(0, mid.len() as int) =~= mid);
        assert(now.subrange(0, old_list.len() as int) =~= mid.subrange(0, old_list.len() as int));
    }
}

/// Every symbol of an indexed file is found under its name, with the file, its line and kind.
pub proof fn law_indexed_symbols_are_found(
    m: Map<Seq<char>, Seq<(Seq<char>, nat, Seq<char>)>>,
    file: Seq<char>,
    syms: Seq<(Seq<char>, nat, Seq<char>)>,
    i: int,
)
    requires
        0 <= i < syms.len(),
    ensures
        with_symbols(m, file, syms).dom().contains(syms[i].0),
        locations_of(with_symbols(m, file, syms), syms[i].0).contains(
            (file, syms[i].1, syms[i].2),
        ),
    decreases syms.len(),
{
    let before = with_symbols(m, file, syms.drop_last());
    let s = syms.last();
    let now = with_symbols(m, file, syms);
    if i < syms.len() - 1 {
        law_indexed_symbols_are_found(m, file, syms.drop_last(), i);
        assert(syms.drop_last()[i] == syms[i]);
        let list = locations_of(before, syms[i].0);
        let k = choose|k: int|
            0 <= k < list.len() && list[k] == (file, syms[i].1, syms[i].2);
        assert(locations_of(now, syms[i].0)[k] == (file, syms[i].1, syms[i].2));
    } else {
        let list = locations_of(now, s.0);
        assert(list[list.len() - 1] == (file, s.1, s.2));
    }
}

proof fn lemma_lookup_update(
    es: Seq<SymbolEntry>,
    fs: Seq<SymbolEntry>,
    k: int,
    name: Seq<char>,
    i: int,
)
    requires
        0 <= i <= es.len(),
        0 <= k < es.len(),
        fs.len() == es.len(),
        forall|j: int| 0 <= j < es.len() && j != k ==> fs[j] == es[j],
        fs[k].name@ == es[k].name@,
        forall|j: int| 0 <= j < k ==> (#[trigger] es[j]).name@ != es[k].name@,
    ensures
        name != es[k].name@ ==> lookup(fs, name, i) == lookup(es, name, i),
        name == es[k].name@ && i <= k ==> lookup(fs, name, i) == Some(
            location_views(fs[k].locations@),
        ),
    decreases es.len() - i,
{
    if i < es.len() {
        lemma_lookup_update(es, fs, k, name, i + 1);
        assert(fs[i].name@ == es[i].name@);
    }
}

proof fn lemma_lookup_push(es: Seq<SymbolEntry>, e: SymbolEntry, name: Seq<char>, i: int)
    requires
        0 <= i <= es.len(),
    ensures
        lookup(es.push(e), name, i) == (if lookup(es, name, i) is Some {
            lookup(es, name, i)
        } else if e.name@ == name {
            Some(location_views(e.locations@))
        } else {
            None
        }),
    decreases es.len() - i,
{
    if i < es.len() {
        lemma_lookup_push(es, e, name, i + 1);
        assert(es.push(e)[i] == es[i]);
    } else {
        assert(es.push(e)[i] == e);
        assert(lookup(es.push(e), name, i + 1) is None);
    }
}

impl ProjectIndex {
    /// An index without symbols.
    pub fn new() -> (r: ProjectIndex)
        ensures
            r@ == Map::<Seq<char>, Seq<(Seq<char>, nat, Seq<char>)>>::empty(),
    {
        let r = ProjectIndex { symbols: Vec::new() };
        assert(r@ =~= Map::<Seq<char>, Seq<(Seq<char>, nat, Seq<char>)>>::empty());
        r
    }

    fn position(&self, name: &String) -> (r: Option<usize>)
        ensures
            r matches Some(i) ==> i < self.symbols@.len() && self.symbols@[i as int].name@ == name@
                && lookup(self.symbols@, name@, 0) == Some(
                location_views(self.symbols@[i as int].locations@),
            ) && forall|j: int| 0 <= j < i ==> (#[trigger] self.symbols@[j]).name@ != name@,
            r is None ==> lookup(self.symbols@, name@, 0) is None,
    {
        let mut i: usize = 0;
        while i < self.symbols.len()
            invariant
                i <= self.symbols@.len(),
                lookup(self.symbols@, name@, 0) == lookup(self.symbols@, name@, i as int),
                forall|j: int| 0 <= j < i ==> (#[trigger] self.symbols@[j]).name@ != name@,
            decreases self.symbols@.len() - i,
        {
            if self.symbols[i].name == *name {
                return Some(i);
            }
            i += 1;
        }
        None
    }

    /// The locations of a symbol, if it is known.
    pub fn find(&self, name: &str) -> (r: Option<&Vec<SymbolLocation>>)
        ensures
            r is Some <==> self@.dom().contains(name@),
            r matches Some(v) ==> location_views(v@) == self@[name@],
    {
        let name = text::copy(name);
        match self.position(&name) {
            Some(i) => Some(&self.symbols[i].locations),
            None => None,
        }
    }

    fn add(&mut self, name: String, location: SymbolLocation)
        ensures
            final(self)@ == old(self)@.insert(
                name@,
                locations_of(old(self)@, name@).push(location@),
            ),
    {
        let ghost es = self.symbols@;
        let ghost m = self@;
        match self.position(&name) {
            Some(i) => {
                let mut entry = self.symbols.remove(i);
                let ghost before = entry.locations@;
                entry.locations.push(location);
                self.symbols.insert(i, entry);
                proof {
                    let fs = self.symbols@;
                    assert(location_views(entry.locations@) =~= location_views(before).push(
                        location@,
                    ));
                    assert(fs =~= es.update(i as int, entry));
                    assert forall|n: Seq<char>|
                        (n != name@ ==> lookup(fs, n, 0) == lookup(es, n, 0)) && (n == name@
                            ==> lookup(fs, n, 0) == Some(location_views(fs[i as int].locations@))) by {
                        lemma_lookup_update(es, fs, i as int, n, 0);
                    }
                    assert(self@ =~= m.insert(name@, locations_of(m, name@).push(location@)));
                }
            },
            None => {
                let mut locations: Vec<SymbolLocation> = Vec::new();
                locations.push(location);
                let entry = SymbolEntry { name, locations };
                self.symbols.push(entry);
                proof {
                    assert(location_views(entry.locations@) =~= Seq::<
                        (Seq<char>, nat, Seq<char>),
                    >::empty().push(location@));
                    assert forall|n: Seq<char>| #[trigger]
                        lookup(self.symbols@, n, 0) == (if lookup(es, n, 0) is Some {
                            lookup(es, n, 0)
                        } else if entry.name@ == n {
                            Some(location_views(entry.locations@))
                        } else {
                            None
                        }) by {
                        lemma_lookup_push(es, entry, n, 0);
                    }
                    assert(self@ =~= m.insert(name@, locations_of(m, name@).push(location@)));
                }
            },
        }
    }

    /// Adds the symbols of one file.
    pub fn add_symbols(&mut self, file: &str, symbols: &Vec<Symbol>)
        ensures
            final(self)@ == with_symbols(old(self)@, file@, parser::symbol_views(symbols@)),
    {
        let ghost m = self@;
        let ghost all = parser::symbol_views(symbols@);
        let mut i: usize = 0;
        while i < symbols.len()
            invariant
                i <= symbols@.len(),
                all == parser::symbol_views(symbols@),
                self@ == with_symbols(m, file@, all.take(i as int)),
            decreases symbols@.len() - i,
        {
            proof {
                assert(all.take(i + 1).drop_last() == all.take(i as int));
                assert(all.take(i + 1).last() == parser::symbol_view(symbols@[i as int]));
            }
            let location = SymbolLocation {
                file: text::copy(file),
                line: symbols[i].line,
                kind: symbols[i].kind.clone(),
            };
            self.add(symbols[i].name.clone(), location);
            i += 1;
        }
        assert(all.take(all.len() as int) == all);
    }

    /// Adds the definitions of a source file. The file is known by its path below the root.
    pub fn add_file(&mut self, root: &str, path: &str, content: &str, lang: Lang)
        ensures
            final(self)@ == with_symbols(
                old(self)@,
                paths::relative_to(path@, root@),
                parser::symbols_of(content@, lang),
            ),
    {
        let symbols = parser::extract_symbols(content, lang);
        let file = paths::strip_base(path, root);
        self.add_symbols(file.as_str(), &symbols);
    }
}

impl Default for ProjectIndex {
    fn default() -> (r: ProjectIndex)
        ensures
            r@ == Map::<Seq<char>, Seq<(Seq<char>, nat, Seq<char>)>>::empty(),
    {
        ProjectIndex::new()
    }
}

/// The directories that hold no sources of the project.
pub open spec fn is_noise(name: Seq<char>) -> bool {
    name == "node_modules"@ || name == "target"@ || name == ".git"@ || name == ".next"@ || name
        == "dist"@ || name == "__pycache__"@ || name == ".turbo"@ || name == "build"@
}

/// Whether a directory is left out of searches and indexes.
pub fn is_skipped_dir(name: &str) -> (r: bool)
    ensures
        r == is_noise(name@),
{
    text::str_eq(name, "node_modules") || text::str_eq(name, "target") || text::str_eq(
        name,
        ".git",
    ) || text::str_eq(name, ".next") || text::str_eq(name, "dist") || text::str_eq(
        name,
        "__pycache__",
    ) || text::str_eq(name, ".turbo") || text::str_eq(name, "build")
}

/// The largest file that is indexed, in bytes.
pub const MAX_INDEXED_BYTES: u64 = 1_048_576;

/// The language of a file that is to be indexed: none where it has no grammar or is known to be
/// too large.
pub fn indexed_language(path: &str, size: Option<u64>) -> (r: Option<Lang>)
    ensures
        r == (if size matches Some(n) && n > MAX_INDEXED_BYTES {
            None
        } else {
            parser::language_of(paths::extension_of(path@))
        }),
{
    if let Some(n) = size {
        if n > MAX_INDEXED_BYTES {
            return None;
        }
    }
    parser::detect_language(path)
}

// ---------------------------------------------------------------------------
// Laws
// ---------------------------------------------------------------------------

/// Indexing a file adds, to what is known of a name, the places where the file defines it, in
/// order, and nothing else.
pub proof fn law_indexing_adds_the_definitions_of_the_file(
    m: Map<Seq<char>, Seq<(Seq<char>, nat, Seq<char>)>>,
    file: Seq<char>,
    syms: Seq<(Seq<char>, nat, Seq<char>)>,
    name: Seq<char>,
)
    ensures
        locations_of(with_symbols(m, file, syms), name) == locations_of(m, name) + syms.filter(
            |s: (Seq<char>, nat, Seq<char>)| s.0 == name,
        ).map_values(|s: (Seq<char>, nat, Seq<char>)| (file, s.1, s.2)),
    decreases syms.len(),
{
    reveal(Seq::filter);
    let is_named = |s: (Seq<char>, nat, Seq<char>)| s.0 == name;
    let located = |s: (Seq<char>, nat, Seq<char>)| (file, s.1, s.2);
    let was = locations_of(m, name);
    let all = locations_of(with_symbols(m, file, syms), name);
    if syms.len() == 0 {
        assert(all =~= was + syms.filter(is_named).map_values(located));
    } else {
        law_indexing_adds_the_definitions_of_the_file(m, file, syms.drop_last(), name);
        let before = syms.drop_last().filter(is_named);
        if syms.last().0 == name {
            assert(before.push(syms.last()).map_values(located) =~= before.map_values(
                located,
            ).push((file, syms.last().1, syms.last().2)));
        }
        assert(all =~= was + syms.filter(is_named).map_values(located));
    }
}

/// Indexing a file makes known exactly the names that it defines.
pub proof fn law_indexing_makes_the_defined_names_known(
    m: Map<Seq<char>, Seq<(Seq<char>, nat, Seq<char>)>>,
    file: Seq<char>,
    syms: Seq<(Seq<char>, nat, Seq<char>)>,
    name: Seq<char>,
)
    ensures
        with_symbols(m, file, syms).dom().contains(name) <==> m.dom().contains(name) || exists|
            i: int,
        | 0 <= i < syms.len() && (#[trigger] syms[i]).0 == name,
    decreases syms.len(),
{
    if syms.len() > 0 {
        let front = syms.drop_last();
        law_indexing_makes_the_defined_names_known(m, file, front, name);
        if syms.last().0 == name {
            assert(syms[syms.len() - 1].0 == name);
        }
        if exists|i: int| 0 <= i < front.len() && (#[trigger] front[i]).0 == name {
            let i = choose|i: int| 0 <= i < front.len() && (#[trigger] front[i]).0 == name;
            assert(syms[i].0 == name);
        }
        if exists|i: int| 0 <= i < syms.len() && (#[trigger] syms[i]).0 == name {
            let i = choose|i: int| 0 <= i < syms.len() && (#[trigger] syms[i]).0 == name;
            if i < front.len() {
                assert(front[i].0 == name);
            }
        }
    }
}

/// Of several entries with a name, the index goes by the first.
pub proof fn law_the_first_entry_of_a_name_counts(index: ProjectIndex, name: Seq<char>, i: int)
    requires
        0 <= i < index.symbols@.len(),
        index.symbols@[i].name@ == name,
        forall|j: int| 0 <= j < i ==> (#[trigger] index.symbols@[j]).name@ != name,
    ensures
        index@.dom().contains(name),
        index@[name] == location_views(index.symbols@[i].locations@),
{
    lemma_lookup_at(index.symbols@, name, 0, i);
}

proof fn lemma_lookup_at(es: Seq<SymbolEntry>, name: Seq<char>, k: int, i: int)
    requires
        0 <= k <= i < es.len(),
        es[i].name@ == name,
        forall|j: int| k <= j < i ==> (#[trigger] es[j]).name@ != name,
    ensures
        lookup(es, name, k) == Some(location_views(es[i].locations@)),
    decreases i - k,
{
    if k < i {
        lemma_lookup_at(es, name, k + 1, i);
    }
}

/// The directories of dependencies, build outputs, caches and version control hold no sources,
/// and every other directory may.
pub proof fn law_directories_without_sources(name: Seq<char>)
    ensures
        is_noise(name) <==> (name == "node_modules"@ || name == "__pycache__"@ || name == ".turbo"@
            || name == ".git"@ || name == ".next"@ || name == "target"@ || name == "dist"@ || name
            == "build"@),
{
}

/// A file of more than a mebibyte is not indexed.
pub proof fn law_indexed_files_have_at_most_a_mebibyte()
    ensures
        MAX_INDEXED_BYTES == 1024 * 1024,
{
}

/// Locations are listed one by one, with the file, the line and the kind of each.
pub proof fn law_locations_are_listed_one_by_one(v: Seq<SymbolLocation>, i: int)
    requires
        0 <= i < v.len(),
    ensures
        location_views(v).len() == v.len(),
        location_views(v)[i] == (v[i].file@, v[i].line as nat, v[i].kind@),
{
}

} // verus!
