//! Coding standards that are shown next to what an agent reads.

use crate::paths;
use crate::text;
use vstd::prelude::*;

verus! {

/// The standards of one language, by file extension.
pub struct LanguageStandards {
    pub extension: String,
    pub rules: Vec<String>,
}

/// The standards of a project. Where an extension occurs twice, the first entry counts.
pub struct ProjectStandards {
    pub global: Option<Vec<String>>,
    pub languages: Option<Vec<LanguageStandards>>,
}

impl Default for ProjectStandards {
    fn default() -> (r: ProjectStandards)
        ensures
            r.global is None,
            r.languages is None,
    {
        ProjectStandards { global: None, languages: None }
    }
}

/// The file of a project's standards.
pub fn standards_file(project_root: &str) -> (r: String)
    ensures
        r@ == paths::joined_path(paths::joined_path(project_root@, ".klaar"@), "standards.toml"@),
{
    paths::join_path(paths::join_path(project_root, ".klaar").as_str(), "standards.toml")
}

// ---------------------------------------------------------------------------
// Injection
// ---------------------------------------------------------------------------

/// Rules as a list, one to a line.
pub open spec fn bullets(rules: Seq<Seq<char>>) -> Seq<char>
    decreases rules.len(),
{
    if rules.len() == 0 {
        Seq::empty()
    } else {
        bullets(rules.drop_last()) + ("- "@ + rules.last() + "\n"@)
    }
}

/// The rules of an extension, from entry `i` on.
pub open spec fn rules_for(
    languages: Seq<LanguageStandards>,
    extension: Seq<char>,
    i: int,
) -> Seq<Seq<char>>
    decreases languages.len() - i,
{
    if i >= languages.len() {
        Seq::empty()
    } else if languages[i].extension@ == extension {
        text::views(languages[i].rules@)
    } else {
        rules_for(languages, extension, i + 1)
    }
}

/// The extension of a file, or nothing.
pub open spec fn extension_or_empty(path: Seq<char>) -> Seq<char> {
    match paths::extension_of(path) {
        Some(e) => e,
        None => ""@,
    }
}

/// The rules of a project for a file: the global ones, then those of its extension.
pub open spec fn project_block(s: ProjectStandards, file_path: Seq<char>) -> Seq<char> {
    (match s.global {
        Some(g) => bullets(text::views(g@)),
        None => Seq::empty(),
    }) + (match s.languages {
        Some(l) => bullets(rules_for(l@, extension_or_empty(file_path), 0)),
        None => Seq::empty(),
    })
}

/// The reference cards for a file.
pub open spec fn card_block(file_path: Seq<char>, content: Seq<char>) -> Seq<char> {
    (if text::contains_text(file_path, "surreal"@) || text::contains_text(content, "surreal"@) {
        "\n[REF CARD: SurrealDB Parameterized Queries]\n"@
            + "- Use `$var` placeholders: `db.query(\"SELECT * FROM user WHERE id = $id\").bind((\"id\", id_val))`\n"@
            + "- NEVER use string interpolation for queries.\n"@
    } else {
        Seq::empty()
    }) + (if text::finishes_with(file_path, ".rs"@) && text::contains_text(content, "tokio"@) {
        "\n[REF CARD: Tokio Async]\n"@ + "- Prefer `?` over `unwrap()` in async tasks.\n"@
            + "- Use `tokio::select!` for cancellation-aware loops.\n"@
    } else {
        Seq::empty()
    })
}

/// All that is shown next to a file.
pub open spec fn standards_block(
    s: Option<ProjectStandards>,
    file_path: Seq<char>,
    content: Seq<char>,
) -> Seq<char> {
    (match s {
        Some(p) => project_block(p, file_path),
        None => Seq::empty(),
    }) + card_block(file_path, content)
}

/// A text with the standards at its end, where there are any.
pub open spec fn with_standards(
    s: Option<ProjectStandards>,
    file_path: Seq<char>,
    content: Seq<char>,
) -> Seq<char> {
    let block = standards_block(s, file_path, content);
    if block.len() == 0 {
        content
    } else {
        content + "\n\n--- [klaar standards & best practices] ---\n"@ + block
            + "------------------------------------------\n"@
    }
}

/// The text itself stays in front of the standards.
pub proof fn law_standards_only_add_to_the_end(
    s: Option<ProjectStandards>,
    file_path: Seq<char>,
    content: Seq<char>,
)
    ensures
        content.is_prefix_of(with_standards(s, file_path, content)),
{
    let all = with_standards(s, file_path, content);
    assert(all.subrange(0, content.len() as int) =~= content);
}

fn push_bullets(out: &mut String, rules: &Vec<String>)
    ensures
        final(out)@ == old(out)@ + bullets(text::views(rules@)),
{
    let ghost start = out@;
    let ghost all = text::views(rules@);
    let mut i: usize = 0;
    assert(start + bullets(all.take(0)) =~= start);
    while i < rules.len()
        invariant
            i <= rules@.len(),
            all == text::views(rules@),
            out@ == start + bullets(all.take(i as int)),
        decreases rules@.len() - i,
    {
        proof {
            assert(all.take(i + 1).drop_last() =~= all.take(i as int));
            assert(all.take(i + 1).last() == rules@[i as int]@);
        }
        let ghost before = out@;
        out.append("- ");
        out.append(rules[i].as_str());
        out.append("\n");
        assert(out@ =~= before + ("- "@ + rules@[i as int]@ + "\n"@));
        assert(out@ =~= start + bullets(all.take(i + 1)));
        i += 1;
    }
    assert(all.take(all.len() as int) =~= all);
}

fn push_project_rules(out: &mut String, standards: &ProjectStandards, file_path: &str)
    ensures
        final(out)@ == old(out)@ + project_block(*standards, file_path@),
{
    let ghost start = out@;
    if let Some(global) = &standards.global {
        push_bullets(out, global);
    } else {
        assert(start + Seq::<char>::empty() =~= start);
    }
    let ghost mid = out@;
    if let Some(languages) = &standards.languages {
        let ext = match paths::extension(file_path) {
            Some(e) => e,
            None => text::copy(""),
        };
        let mut i: usize = 0;
        while i < languages.len() && !text::str_eq(languages[i].extension.as_str(), ext.as_str())
            invariant
                i <= languages@.len(),
                rules_for(languages@, ext@, 0) == rules_for(languages@, ext@, i as int),
            decreases languages@.len() - i,
        {
            i += 1;
        }
        if i < languages.len() {
            push_bullets(out, &languages[i].rules);
        } else {
            assert(mid + bullets(rules_for(languages@, ext@, 0)) =~= mid);
        }
    } else {
        assert(mid + Seq::<char>::empty() =~= mid);
    }
    assert(out@ =~= start + project_block(*standards, file_path@));
}

/// Adds the standards for a file to a text. `standards` holds those of its project, where it has
/// one.
pub fn inject_standards(
    content: &mut String,
    file_path: &str,
    standards: Option<&ProjectStandards>,
)
    ensures
        final(content)@ == with_standards(
            match standards {
                Some(s) => Some(*s),
                None => None,
            },
            file_path@,
            old(content)@,
        ),
{
    let ghost c = content@;
    let mut block = String::new();
    if let Some(s) = standards {
        push_project_rules(&mut block, s, file_path);
    }
    let ghost rules = block@;
    proof {
        match standards {
            Some(s) => {
                assert(rules =~= project_block(*s, file_path@));
            },
            None => {
                assert(rules =~= Seq::<char>::empty());
            },
        }
    }
    let mut cards = String::new();
    if text::contains(file_path, "surreal") || text::contains(content.as_str(), "surreal") {
        cards.append("\n[REF CARD: SurrealDB Parameterized Queries]\n");
        cards.append(
            "- Use `$var` placeholders: `db.query(\"SELECT * FROM user WHERE id = $id\").bind((\"id\", id_val))`\n",
        );
        cards.append("- NEVER use string interpolation for queries.\n");
        assert(cards@ =~= "\n[REF CARD: SurrealDB Parameterized Queries]\n"@
            + "- Use `$var` placeholders: `db.query(\"SELECT * FROM user WHERE id = $id\").bind((\"id\", id_val))`\n"@
            + "- NEVER use string interpolation for queries.\n"@);
    }
    let ghost first = cards@;
    if text::ends_with(file_path, ".rs") && text::contains(content.as_str(), "tokio") {
        cards.append("\n[REF CARD: Tokio Async]\n");
        cards.append("- Prefer `?` over `unwrap()` in async tasks.\n");
        cards.append("- Use `tokio::select!` for cancellation-aware loops.\n");
        assert(cards@ =~= first + ("\n[REF CARD: Tokio Async]\n"@
            + "- Prefer `?` over `unwrap()` in async tasks.\n"@
            + "- Use `tokio::select!` for cancellation-aware loops.\n"@));
    } else {
        assert(first + Seq::<char>::empty() =~= first);
    }
    assert(cards@ =~= card_block(file_path@, c));
    block.append(cards.as_str());
    proof {
        text::lemma_byte_len_zero(block@);
    }
    if text::byte_count(block.as_str()) > 0 {
        content.append("\n\n--- [klaar standards & best practices] ---\n");
        content.append(block.as_str());
        content.append("------------------------------------------\n");
    }
}

// ---------------------------------------------------------------------------
// Cached standards
// ---------------------------------------------------------------------------

/// When a file was last modified: seconds and nanoseconds since the epoch.
#[derive(Clone, Copy, PartialEq, Eq, Structural, Debug)]
pub struct ModifiedAt {
    pub secs: i64,
    pub nanos: u32,
}

/// The standards of a project, as of a time of its file. No time stands for no file.
pub struct CachedStandards {
    pub root: String,
    pub standards: ProjectStandards,
    pub last_modified: Option<ModifiedAt>,
}

/// The standards of the projects seen so far.
pub struct StandardsCache {
    pub entries: Vec<CachedStandards>,
}

/// The latest entry of a project among the first `n`.
pub open spec fn latest(entries: Seq<CachedStandards>, root: Seq<char>, n: nat) -> Option<
    CachedStandards,
>
    decreases n,
{
    if n == 0 {
        None
    } else if entries[n - 1].root@ == root {
        Some(entries[n - 1])
    } else {
        latest(entries, root, (n - 1) as nat)
    }
}

impl StandardsCache {
    /// What is known of a project: its standards, and the time of the file that they are from.
    pub open spec fn known(self, root: Seq<char>) -> Option<
        (ProjectStandards, Option<ModifiedAt>),
    > {
        match latest(self.entries@, root, self.entries@.len()) {
            Some(e) => Some((e.standards, e.last_modified)),
            None => None,
        }
    }

    /// A cache that knows no project.
    pub fn new() -> (r: StandardsCache)
        ensures
            forall|root: Seq<char>| r.known(root) is None,
    {
        StandardsCache { entries: Vec::new() }
    }

    /// The standards of a project, where they are known as of the current time of its file.
    pub fn lookup(&self, project_root: &str, current: Option<ModifiedAt>) -> (r: Option<
        &ProjectStandards,
    >)
        ensures
            r is Some <==> (self.known(project_root@) matches Some(k) && k.1 == current),
            r matches Some(s) ==> *s == (self.known(project_root@)->0).0,
    {
        let mut i: usize = self.entries.len();
        while i > 0
            invariant
                i <= self.entries@.len(),
                latest(self.entries@, project_root@, self.entries@.len()) == latest(
                    self.entries@,
                    project_root@,
                    i as nat,
                ),
            decreases i,
        {
            i -= 1;
            if text::str_eq(self.entries[i].root.as_str(), project_root) {
                return if self.entries[i].last_modified == current {
                    Some(&self.entries[i].standards)
                } else {
                    None
                };
            }
        }
        None
    }

    /// Keeps the standards of a project, in place of those that it had.
    pub fn store(
        &mut self,
        project_root: &str,
        standards: ProjectStandards,
        current: Option<ModifiedAt>,
    )
        ensures
            final(self).known(project_root@) == Some((standards, current)),
            forall|root: Seq<char>|
                root != project_root@ ==> final(self).known(root) == old(self).known(root),
    {
        let ghost es = self.entries@;
        let mut kept: Vec<CachedStandards> = Vec::new();
        std::mem::swap(&mut kept, &mut self.entries);
        let mut i: usize = 0;
        while i < kept.len()
            invariant
                i <= kept@.len(),
                forall|root: Seq<char>| #[trigger]
                    latest(kept@, root, kept@.len()) == latest(es, root, es.len()) || root
                        == project_root@,
            decreases kept@.len() - i,
        {
            if text::str_eq(kept[i].root.as_str(), project_root) {
                let ghost before = kept@;
                kept.remove(i);
                proof {
                    assert forall|root: Seq<char>| root != project_root@ implies #[trigger] latest(
                        kept@,
                        root,
                        kept@.len(),
                    ) == latest(before, root, before.len()) by {
                        lemma_latest_remove(before, i as int, root, before.len());
                        assert(kept@ =~= before.remove(i as int));
                    }
                }
            } else {
                i += 1;
            }
        }
        let ghost rest = kept@;
        kept.push(
            CachedStandards {
                root: text::copy(project_root),
                standards,
                last_modified: current,
            },
        );
        self.entries = kept;
        proof {
            let now = self.entries@;
            assert forall|root: Seq<char>| root != project_root@ implies self.known(root) == old(self).known(root) by {
                lemma_latest_prefix(rest, now, root, rest.len());
                assert(latest(rest, root, rest.len()) == latest(es, root, es.len()));
            }
        }
    }
}

proof fn lemma_latest_remove(es: Seq<CachedStandards>, k: int, root: Seq<char>, n: nat)
    requires
        0 <= k < es.len(),
        es[k].root@ != root,
        n <= es.len(),
    ensures
        n > k ==> latest(es.remove(k), root, (n - 1) as nat) == latest(es, root, n),
        n <= k ==> latest(es.remove(k), root, n) == latest(es, root, n),
    decreases n,
{
    if n > 0 {
        lemma_latest_remove(es, k, root, (n - 1) as nat);
        if n - 1 > k {
            assert(es.remove(k)[n - 2] == es[n - 1]);
        } else if n - 1 < k {
            assert(es.remove(k)[n - 1] == es[n - 1]);
        }
    }
}

proof fn lemma_latest_prefix(
    a: Seq<CachedStandards>,
    b: Seq<CachedStandards>,
    root: Seq<char>,
    n: nat,
)
    requires
        n <= a.len() <= b.len(),
        forall|i: int| 0 <= i < a.len() ==> a[i] == b[i],
    ensures
        latest(a, root, n) == latest(b, root, n),
    decreases n,
{
    if n > 0 {
        lemma_latest_prefix(a, b, root, (n - 1) as nat);
    }
}

// ---------------------------------------------------------------------------
// Laws
// ---------------------------------------------------------------------------

proof fn lemma_bullets_concat(a: Seq<Seq<char>>, b: Seq<Seq<char>>)
    ensures
        bullets(a + b) == bullets(a) + bullets(b),
    decreases b.len(),
{
    if b.len() == 0 {
        assert(a + b =~= a);
        assert(bullets(a) + bullets(b) =~= bullets(a));
    } else {
        lemma_bullets_concat(a, b.drop_last());
        assert((a + b).drop_last() =~= a + b.drop_last());
        assert(bullets(a + b) =~= bullets(a) + bullets(b));
    }
}

/// Each rule is shown on a line of its own, between what the rules in front of it and behind it
/// show.
pub proof fn law_each_rule_is_shown_on_a_line(rules: Seq<Seq<char>>, i: int)
    requires
        0 <= i < rules.len(),
    ensures
        bullets(rules) == bullets(rules.take(i)) + "- "@ + rules[i] + "\n"@ + bullets(
            rules.skip(i + 1),
        ),
        bullets(Seq::empty()).len() == 0,
{
    let front = rules.take(i + 1);
    let back = rules.skip(i + 1);
    assert(rules =~= front + back);
    lemma_bullets_concat(front, back);
    assert(front.drop_last() =~= rules.take(i));
    assert(bullets(rules) =~= bullets(rules.take(i)) + "- "@ + rules[i] + "\n"@ + bullets(back));
}

/// The rules of an extension are those of the first entry for it.
pub proof fn law_the_first_entry_of_an_extension_counts(
    languages: Seq<LanguageStandards>,
    extension: Seq<char>,
    i: int,
)
    requires
        0 <= i < languages.len(),
        languages[i].extension@ == extension,
        forall|j: int| 0 <= j < i ==> (#[trigger] languages[j]).extension@ != extension,
    ensures
        rules_for(languages, extension, 0) == text::views(languages[i].rules@),
{
    lemma_rules_at(languages, extension, 0, i);
}

proof fn lemma_rules_at(
    languages: Seq<LanguageStandards>,
    extension: Seq<char>,
    k: int,
    i: int,
)
    requires
        0 <= k <= i <= languages.len(),
        i < languages.len() ==> languages[i].extension@ == extension,
        forall|j: int| k <= j < i ==> (#[trigger] languages[j]).extension@ != extension,
    ensures
        rules_for(languages, extension, k) == (if i < languages.len() {
            text::views(languages[i].rules@)
        } else {
            Seq::empty()
        }),
    decreases i - k,
{
    if k < i {
        lemma_rules_at(languages, extension, k + 1, i);
    }
}

/// An extension without an entry has no rules.
pub proof fn law_other_extensions_have_no_rules(
    languages: Seq<LanguageStandards>,
    extension: Seq<char>,
)
    requires
        forall|j: int|
            0 <= j < languages.len() ==> (#[trigger] languages[j]).extension@ != extension,
    ensures
        rules_for(languages, extension, 0).len() == 0,
{
    lemma_rules_at(languages, extension, 0, languages.len() as int);
}

/// What is shown next to a file are the global rules, the rules of its extension and the cards,
/// in this order, between two lines that frame them.
pub proof fn law_standards_are_rules_and_cards(
    s: ProjectStandards,
    file_path: Seq<char>,
    content: Seq<char>,
    extension: Seq<char>,
    global: Seq<Seq<char>>,
    rules: Seq<Seq<char>>,
)
    requires
        paths::extension_of(file_path) == Some(extension),
        s.global matches Some(g) && global == text::views(g@),
        s.languages matches Some(l) && rules == rules_for(l@, extension, 0),
        global.len() > 0,
    ensures
        with_standards(Some(s), file_path, content) == content
            + "\n\n--- [klaar standards & best practices] ---\n"@ + bullets(global + rules)
            + card_block(file_path, content) + "------------------------------------------\n"@,
{
    lemma_bullets_concat(global, rules);
    law_each_rule_is_shown_on_a_line(global, 0);
    reveal_strlit("- ");
    assert(bullets(global).len() > 0);
    let block = standards_block(Some(s), file_path, content);
    assert(block =~= bullets(global + rules) + card_block(file_path, content));
    assert(with_standards(Some(s), file_path, content) =~= content
        + "\n\n--- [klaar standards & best practices] ---\n"@ + bullets(global + rules)
        + card_block(file_path, content) + "------------------------------------------\n"@);
}

/// A file without rules and cards is shown as it is.
pub proof fn law_without_standards_nothing_is_added(file_path: Seq<char>, content: Seq<char>)
    requires
        !text::contains_text(file_path, "surreal"@),
        !text::contains_text(content, "surreal"@),
        !text::contains_text(content, "tokio"@),
    ensures
        with_standards(None, file_path, content) == content,
{
}

/// The card on queries stands first where the path or the text mentions the database.
pub proof fn law_the_card_on_queries_follows_the_database(
    file_path: Seq<char>,
    content: Seq<char>,
)
    requires
        text::contains_text(file_path, "surreal"@) || text::contains_text(content, "surreal"@),
    ensures
        "\n[REF CARD: SurrealDB Parameterized Queries]\n"@.is_prefix_of(
            card_block(file_path, content),
        ),
{
    let card = "\n[REF CARD: SurrealDB Parameterized Queries]\n"@;
    assert(card_block(file_path, content).subrange(0, card.len() as int) =~= card);
}

/// The card on asynchronous code stands last where a Rust source mentions the runtime, and only
/// there.
pub proof fn law_the_card_on_async_code_follows_the_runtime(
    file_path: Seq<char>,
    content: Seq<char>,
)
    ensures
        text::finishes_with(file_path, ".rs"@) && text::contains_text(content, "tokio"@)
            ==> text::finishes_with(
            card_block(file_path, content),
            "\n[REF CARD: Tokio Async]\n"@ + "- Prefer `?` over `unwrap()` in async tasks.\n"@
                + "- Use `tokio::select!` for cancellation-aware loops.\n"@,
        ),
        !text::contains_text(file_path, "surreal"@) && !text::contains_text(content, "surreal"@)
            && !(text::finishes_with(file_path, ".rs"@) && text::contains_text(content, "tokio"@))
            ==> card_block(file_path, content).len() == 0,
{
    let card = "\n[REF CARD: Tokio Async]\n"@ + "- Prefer `?` over `unwrap()` in async tasks.\n"@
        + "- Use `tokio::select!` for cancellation-aware loops.\n"@;
    let all = card_block(file_path, content);
    if text::finishes_with(file_path, ".rs"@) && text::contains_text(content, "tokio"@) {
        assert(all.subrange(all.len() - card.len(), all.len() as int) =~= card);
    }
}

/// Of several entries for a project, the last one is known.
pub proof fn law_the_last_entry_of_a_project_is_known(
    cache: StandardsCache,
    root: Seq<char>,
    i: int,
)
    requires
        0 <= i < cache.entries@.len(),
        cache.entries@[i].root@ == root,
        forall|j: int| i < j < cache.entries@.len() ==> (#[trigger] cache.entries@[j]).root@ != root,
    ensures
        cache.known(root) == Some(
            (cache.entries@[i].standards, cache.entries@[i].last_modified),
        ),
{
    lemma_latest_at(cache.entries@, root, i, cache.entries@.len());
}

proof fn lemma_latest_at(entries: Seq<CachedStandards>, root: Seq<char>, i: int, n: nat)
    requires
        0 <= i < n <= entries.len(),
        entries[i].root@ == root,
        forall|j: int| i < j < n ==> (#[trigger] entries[j]).root@ != root,
    ensures
        latest(entries, root, n) == Some(entries[i]),
    decreases n,
{
    if i < n - 1 {
        lemma_latest_at(entries, root, i, (n - 1) as nat);
    }
}

} // verus!
