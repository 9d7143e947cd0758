//! Slash-separated paths, compared component by component.

use crate::text;
use vstd::prelude::*;

verus! {

/// Whether a path starts at the root directory.
pub open spec fn has_root(p: Seq<char>) -> bool {
    p.len() > 0 && p[0] == '/'
}

/// Whether the piece of `p` between two slashes is a component. A `.` counts only at the very
/// beginning of a path.
pub open spec fn is_component(p: Seq<char>, b: int, e: int) -> bool {
    !(b > 0 && e == b + 1 && p[b] == '.')
}

/// Where the components of a path (other than the root) stand, from position `from` on.
pub open spec fn spans_from(p: Seq<char>, from: int) -> Seq<(int, int)>
    decreases p.len() - from,
    when 0 <= from <= p.len()
{
    if from == p.len() {
        Seq::empty()
    } else if p[from] == '/' {
        spans_from(p, from + 1)
    } else {
        proof {
            text::lemma_next_at(p, '/', from);
        }
        let e = text::next_at(p, '/', from);
        if is_component(p, from, e) {
            seq![(from, e)] + spans_from(p, e)
        } else {
            spans_from(p, e)
        }
    }
}

/// Where the components of a path (other than the root) stand.
pub open spec fn spans(p: Seq<char>) -> Seq<(int, int)> {
    spans_from(p, 0)
}

/// The components of a path: `/` for the root, then the names. Repeated slashes, a trailing
/// slash and a `.` after the beginning add nothing.
pub open spec fn components(p: Seq<char>) -> Seq<Seq<char>> {
    let names = Seq::new(spans(p).len(), |i: int| p.subrange(spans(p)[i].0, spans(p)[i].1));
    if has_root(p) {
        seq![seq!['/']] + names
    } else {
        names
    }
}

/// Whether `path` is `base` or lies below it. Only whole components count.
pub open spec fn within(path: Seq<char>, base: Seq<char>) -> bool {
    components(base).is_prefix_of(components(path))
}

proof fn lemma_spans_from(p: Seq<char>, from: int)
    requires
        0 <= from <= p.len(),
    ensures
        forall|i: int|
            0 <= i < spans_from(p, from).len() ==> {
                let s = #[trigger] spans_from(p, from)[i];
                from <= s.0 < s.1 <= p.len()
            },
        forall|i: int, j: int|
            0 <= i < j < spans_from(p, from).len() ==> (#[trigger] spans_from(p, from)[i]).1 <= (
            #[trigger] spans_from(p, from)[j]).0,
    decreases p.len() - from,
{
    if from < p.len() {
        if p[from] == '/' {
            lemma_spans_from(p, from + 1);
            assert(spans_from(p, from) == spans_from(p, from + 1));
        } else {
            let e = text::next_at(p, '/', from);
            text::lemma_next_at(p, '/', from);
            lemma_spans_from(p, e);
            let rest = spans_from(p, e);
            if is_component(p, from, e) {
                let all = spans_from(p, from);
                assert(all == seq![(from, e)] + rest);
                assert forall|i: int| 0 <= i < all.len() implies {
                    let s = #[trigger] all[i];
                    from <= s.0 < s.1 <= p.len()
                } by {
                    if i > 0 {
                        assert(all[i] == rest[i - 1]);
                    }
                }
                assert forall|i: int, j: int| 0 <= i < j < all.len() implies (#[trigger] all[i]).1
                    <= (#[trigger] all[j]).0 by {
                    assert(all[j] == rest[j - 1]);
                    if i > 0 {
                        assert(all[i] == rest[i - 1]);
                    }
                }
            } else {
                assert(spans_from(p, from) == rest);
            }
        }
    }
}

/// A path lies within itself, and being within is transitive.
pub proof fn law_within_is_a_preorder(a: Seq<char>, b: Seq<char>, c: Seq<char>)
    ensures
        within(a, a),
        within(a, b) && within(b, c) ==> within(a, c),
{
    if within(a, b) && within(b, c) {
        assert forall|i: int| 0 <= i < components(c).len() implies components(c)[i]
            == components(a)[i] by {
            assert(components(c)[i] == components(b)[i]);
        }
        assert(components(a).subrange(0, components(c).len() as int) =~= components(c));
    }
}

struct Span {
    start: usize,
    end: usize,
}

fn find_spans(v: &Vec<char>) -> (r: Vec<Span>)
    ensures
        r@.len() == spans(v@).len(),
        forall|i: int|
            0 <= i < r@.len() ==> (#[trigger] r@[i]).start == spans(v@)[i].0 && r@[i].end == spans(
                v@,
            )[i].1,
        forall|i: int|
            0 <= i < r@.len() ==> (#[trigger] r@[i]).start < r@[i].end && r@[i].end <= v@.len(),
        forall|i: int, j: int|
            0 <= i < j < r@.len() ==> (#[trigger] r@[i]).end <= (#[trigger] r@[j]).start,
{
    let mut r: Vec<Span> = Vec::new();
    let mut i: usize = 0;
    let ghost all = spans(v@);
    proof {
        lemma_spans_from(v@, 0);
    }
    let ghost mut done = Seq::<(int, int)>::empty();
    assert(done + all =~= all);
    while i < v.len()
        invariant
            i <= v@.len(),
            all == spans(v@),
            done + spans_from(v@, i as int) == all,
            done.len() == r@.len(),
            forall|k: int|
                0 <= k < r@.len() ==> (#[trigger] r@[k]).start == done[k].0 && r@[k].end == done[k].1,
        decreases v@.len() - i,
    {
        if v[i] == '/' {
            i += 1;
        } else {
            let e = text::position_from(v, '/', i);
            proof {
                text::lemma_next_at(v@, '/', i as int);
            }
            if !(i > 0 && e == i + 1 && v[i] == '.') {
                r.push(Span { start: i, end: e });
                proof {
                    let next = done.push((i as int, e as int));
                    assert(next + spans_from(v@, e as int) =~= done + spans_from(v@, i as int));
                    done = next;
                }
            }
            i = e;
        }
    }
    assert(done + Seq::<(int, int)>::empty() =~= done);
    proof {
        assert forall|a: int, b: int| 0 <= a < b < r@.len() implies (#[trigger] r@[a]).end <= (
        #[trigger] r@[b]).start by {
            assert(all[a].1 <= all[b].0);
        }
    }
    r
}

/// Splits a path into its components.
pub fn path_components(path: &str) -> (r: Vec<String>)
    ensures
        text::views(r@) == components(path@),
{
    let v = text::chars_of(path);
    let found = find_spans(&v);
    let mut r: Vec<String> = Vec::new();
    let ghost root: Seq<Seq<char>> = if has_root(path@) {
        seq![seq!['/']]
    } else {
        Seq::empty()
    };
    if v.len() > 0 && v[0] == '/' {
        let mut slash = String::new();
        slash.push('/');
        r.push(slash);
        assert(slash@ =~= seq!['/']);
    }
    assert(text::views(r@) =~= root);
    let ghost names = Seq::new(
        spans(path@).len(),
        |i: int| path@.subrange(spans(path@)[i].0, spans(path@)[i].1),
    );
    let mut i: usize = 0;
    assert(root + names.take(0) =~= root);
    while i < found.len()
        invariant
            i <= found@.len(),
            v@ == path@,
            found@.len() == names.len(),
            forall|k: int|
                0 <= k < found@.len() ==> (#[trigger] found@[k]).start < found@[k].end
                    && found@[k].end <= v@.len() && names[k] == v@.subrange(
                    found@[k].start as int,
                    found@[k].end as int,
                ),
            text::views(r@) == root + names.take(i as int),
        decreases found@.len() - i,
    {
        let name = text::sub_string(&v, found[i].start, found[i].end);
        let ghost before = r@;
        r.push(name);
        proof {
            text::lemma_views_push(before, name);
            assert(names.take(i + 1) =~= names.take(i as int).push(names[i as int]));
            assert(text::views(r@) =~= root + names.take(i + 1));
        }
        i += 1;
    }
    assert(names.take(names.len() as int) =~= names);
    assert(text::views(r@) =~= components(path@));
    r
}

/// Whether `path` is `base` or lies below it.
pub fn is_within(path: &str, base: &str) -> (r: bool)
    ensures
        r == within(path@, base@),
{
    let p = path_components(path);
    let b = path_components(base);
    let ghost pc = components(path@);
    let ghost bc = components(base@);
    if b.len() > p.len() {
        assert(text::views(b@).len() > text::views(p@).len());
        return false;
    }
    let mut i: usize = 0;
    while i < b.len()
        invariant
            i <= b@.len() <= p@.len(),
            text::views(p@) == pc,
            text::views(b@) == bc,
            pc == components(path@),
            bc == components(base@),
            forall|k: int| 0 <= k < i ==> pc[k] == bc[k],
        decreases b@.len() - i,
    {
        let same = text::str_eq(p[i].as_str(), b[i].as_str());
        assert(pc[i as int] == p@[i as int]@ && bc[i as int] == b@[i as int]@);
        if !same {
            assert(pc.subrange(0, bc.len() as int)[i as int] != bc[i as int]);
            return false;
        }
        i += 1;
    }
    assert(text::views(b@).len() == b@.len());
    assert(pc.subrange(0, bc.len() as int) =~= bc);
    true
}

/// The last component of a path, if it is a name.
pub open spec fn file_name_of(p: Seq<char>) -> Option<Seq<char>> {
    let c = components(p);
    if c.len() == 0 || c.last() == seq!['/'] || c.last() == seq!['.'] || c.last() == seq!['.', '.'] {
        None
    } else {
        Some(c.last())
    }
}

/// The position of the last `.` before position `to`, if there is one.
pub open spec fn last_dot(s: Seq<char>, to: int) -> Option<int>
    decreases to,
{
    if to <= 0 {
        None
    } else if s[to - 1] == '.' {
        Some(to - 1)
    } else {
        last_dot(s, to - 1)
    }
}

/// What follows the last `.` of a file name. A `.` in front of the name starts no extension.
pub open spec fn extension_of(p: Seq<char>) -> Option<Seq<char>> {
    match file_name_of(p) {
        None => None,
        Some(name) => match last_dot(name, name.len() as int) {
            None => None,
            Some(i) => if i == 0 {
                None
            } else {
                Some(name.skip(i + 1))
            },
        },
    }
}

/// The last component of a path, if it is a name.
pub fn file_name(path: &str) -> (r: Option<String>)
    ensures
        r is Some <==> file_name_of(path@) is Some,
        r matches Some(n) ==> file_name_of(path@) == Some(n@),
{
    let c = path_components(path);
    let ghost cs = components(path@);
    if c.len() == 0 {
        assert(text::views(c@).len() == 0);
        return None;
    }
    let last = c[c.len() - 1].clone();
    assert(last@ == cs.last());
    let v = text::chars_of(last.as_str());
    let n = v.len();
    if n == 1 && (v[0] == '/' || v[0] == '.') {
        assert(v@ =~= seq!['/'] || v@ =~= seq!['.']);
        return None;
    }
    if n == 2 && v[0] == '.' && v[1] == '.' {
        assert(v@ =~= seq!['.', '.']);
        return None;
    }
    Some(last)
}

/// What follows the last `.` of the file name.
pub fn extension(path: &str) -> (r: Option<String>)
    ensures
        r is Some <==> extension_of(path@) is Some,
        r matches Some(e) ==> extension_of(path@) == Some(e@),
{
    let name = match file_name(path) {
        None => {
            return None;
        },
        Some(n) => n,
    };
    let v = text::chars_of(name.as_str());
    let mut i: usize = v.len();
    while i > 0 && v[i - 1] != '.'
        invariant
            i <= v@.len(),
            last_dot(v@, v@.len() as int) == last_dot(v@, i as int),
        decreases i,
    {
        i -= 1;
    }
    if i <= 1 {
        None
    } else {
        assert(v@.skip(i as int) =~= v@.subrange(i as int, v@.len() as int));
        Some(text::sub_string(&v, i, v.len()))
    }
}

/// The path without its last component. The root and the empty path have no parent.
pub open spec fn parent_of(p: Seq<char>) -> Option<Seq<char>> {
    let n = spans(p).len();
    if n == 0 {
        None
    } else if n == 1 {
        Some(
            if has_root(p) {
                seq!['/']
            } else {
                Seq::empty()
            },
        )
    } else {
        Some(p.take(spans(p)[n - 2].1))
    }
}

pub proof fn lemma_parent_is_shorter(p: Seq<char>)
    ensures
        parent_of(p) matches Some(q) ==> q.len() < p.len(),
{
    lemma_spans_from(p, 0);
    let n = spans(p).len();
    if n == 1 {
        let s = spans(p)[0];
        assert(0 <= s.0 < s.1 <= p.len());
        if has_root(p) && s.0 == 0 {
            assert(spans(p) == spans_from(p, 1));
            lemma_spans_from(p, 1);
            assert(1 <= spans_from(p, 1)[0].0);
        }
    } else if n >= 2 {
        let a = spans(p)[n - 2];
        let b = spans(p)[n - 1];
        assert(a.1 <= b.0);
        assert(b.0 < b.1 <= p.len());
        assert(0 <= a.0 < a.1);
    }
}

proof fn lemma_spans_of_prefix(p: Seq<char>, from: int, k: int)
    requires
        0 <= from <= p.len(),
        0 <= k < spans_from(p, from).len(),
    ensures
        spans_from(p.take(spans_from(p, from)[k].1), from) == spans_from(p, from).take(k + 1),
    decreases p.len() - from,
{
    lemma_spans_from(p, from);
    let all = spans_from(p, from);
    let cut = all[k].1;
    let q = p.take(cut);
    assert(from <= all[k].0 < cut <= p.len());
    if p[from] == '/' {
        assert(all == spans_from(p, from + 1));
        lemma_spans_of_prefix(p, from + 1, k);
        assert(q[from] == '/');
        assert(spans_from(q, from) == spans_from(q, from + 1));
    } else {
        let e = text::next_at(p, '/', from);
        text::lemma_next_at(p, '/', from);
        let rest = spans_from(p, e);
        lemma_spans_from(p, e);
        if is_component(p, from, e) {
            assert(all == seq![(from, e)] + rest);
            if k == 0 {
                lemma_next_at_of_prefix(p, '/', from, cut);
                assert(text::next_at(q, '/', from) == e);
                assert(spans_from(q, e) == Seq::<(int, int)>::empty());
                assert(spans_from(q, from) == seq![(from, e)] + spans_from(q, e));
                assert(spans_from(q, from) =~= all.take(1));
            } else {
                assert(all[k] == rest[k - 1]);
                lemma_spans_of_prefix(p, e, k - 1);
                assert(e <= rest[k - 1].0);
                lemma_next_at_of_prefix(p, '/', from, cut);
                assert(spans_from(q, from) == seq![(from, e)] + spans_from(q, e));
                assert(spans_from(q, from) =~= all.take(k + 1));
            }
        } else {
            assert(all == rest);
            lemma_spans_of_prefix(p, e, k);
            lemma_next_at_of_prefix(p, '/', from, cut);
            assert(e <= rest[k].0);
            assert(spans_from(q, from) == spans_from(q, e));
        }
    }
}

proof fn lemma_next_at_of_prefix(p: Seq<char>, c: char, from: int, cut: int)
    requires
        0 <= from <= cut <= p.len(),
        text::next_at(p, c, from) <= cut,
    ensures
        text::next_at(p.take(cut), c, from) == text::next_at(p, c, from),
    decreases cut - from,
{
    text::lemma_next_at(p, c, from);
    if from < cut {
        assert(p.take(cut)[from] == p[from]);
        if p[from] != c {
            lemma_next_at_of_prefix(p, c, from + 1, cut);
        }
    }
}

/// A path lies within its parent.
pub proof fn lemma_within_parent(p: Seq<char>)
    ensures
        parent_of(p) matches Some(q) ==> within(p, q),
{
    lemma_spans_from(p, 0);
    if let Some(q) = parent_of(p) {
        let n = spans(p).len();
        if n == 1 {
            if has_root(p) {
                assert(q == seq!['/']);
                assert(spans_from(q, 1) == Seq::<(int, int)>::empty());
                assert(spans_from(q, 0) == spans_from(q, 1));
                assert(components(q) =~= seq![seq!['/']]);
                assert(components(p).subrange(0, 1) =~= components(q));
            } else {
                assert(spans(q) == Seq::<(int, int)>::empty());
                assert(components(q) =~= Seq::<Seq<char>>::empty());
                assert(components(p).subrange(0, 0) =~= components(q));
            }
        } else {
            lemma_spans_of_prefix(p, 0, n - 2);
            let cut = spans(p)[n - 2].1;
            assert(0 <= spans(p)[n - 2].0 < cut);
            assert(q == p.take(cut));
            assert(spans(q) == spans(p).take(n - 1));
            assert(has_root(q) == has_root(p));
            let m = components(q).len() as int;
            assert forall|i: int| 0 <= i < m implies components(q)[i] == components(p)[i] by {
                let j = if has_root(p) {
                    i - 1
                } else {
                    i
                };
                if j >= 0 {
                    let s = spans(p)[j];
                    assert(spans(q)[j] == s);
                    if j < n - 2 {
                        assert(spans(p)[j].1 <= spans(p)[n - 2].0);
                    }
                    assert(q.subrange(s.0, s.1) =~= p.subrange(s.0, s.1));
                }
            }
            assert(components(p).subrange(0, m) =~= components(q));
        }
    }
}

/// The path without its last component.
pub fn parent(path: &str) -> (r: Option<String>)
    ensures
        r is Some <==> parent_of(path@) is Some,
        r matches Some(q) ==> parent_of(path@) == Some(q@),
{
    let v = text::chars_of(path);
    let found = find_spans(&v);
    let n = found.len();
    if n == 0 {
        None
    } else if n == 1 {
        let mut r = String::new();
        if v.len() > 0 && v[0] == '/' {
            r.push('/');
        }
        assert(r@ =~= (if has_root(path@) {
            seq!['/']
        } else {
            Seq::empty()
        }));
        Some(r)
    } else {
        let cut = found[n - 2].end;
        assert(path@.take(cut as int) =~= v@.subrange(0, cut as int));
        Some(text::sub_string(&v, 0, cut))
    }
}

/// A path and its parents, nearest first.
pub open spec fn ancestors_of(p: Seq<char>) -> Seq<Seq<char>>
    decreases p.len(),
{
    match parent_of(p) {
        None => seq![p],
        Some(q) => {
            proof {
                lemma_parent_is_shorter(p);
            }
            seq![p] + ancestors_of(q)
        },
    }
}

/// Lists a path and its parents, nearest first.
pub fn ancestors(path: &str) -> (r: Vec<String>)
    ensures
        text::views(r@) == ancestors_of(path@),
{
    let mut r: Vec<String> = Vec::new();
    let mut cur = text::copy(path);
    assert(text::views(r@) + ancestors_of(path@) =~= ancestors_of(path@));
    loop
        invariant
            text::views(r@) + ancestors_of(cur@) == ancestors_of(path@),
        decreases cur@.len(),
    {
        let ghost before = r@;
        let here = cur.clone();
        r.push(here);
        proof {
            text::lemma_views_push(before, here);
            lemma_parent_is_shorter(cur@);
        }
        match parent(cur.as_str()) {
            None => {
                assert(text::views(r@) =~= text::views(before) + seq![cur@]);
                return r;
            },
            Some(q) => {
                assert(text::views(r@) + ancestors_of(q@) =~= text::views(before) + ancestors_of(cur@));
                cur = q;
            },
        }
    }
}

/// `base` extended by `name`: an absolute name replaces the base.
pub open spec fn joined_path(base: Seq<char>, name: Seq<char>) -> Seq<char> {
    if has_root(name) {
        name
    } else if base.len() > 0 && base.last() != '/' {
        base.push('/') + name
    } else {
        base + name
    }
}

/// Extends `base` by `name`.
pub fn join_path(base: &str, name: &str) -> (r: String)
    ensures
        r@ == joined_path(base@, name@),
{
    let n = text::chars_of(name);
    if n.len() > 0 && n[0] == '/' {
        return text::copy(name);
    }
    let b = text::chars_of(base);
    let mut r = text::copy(base);
    if b.len() > 0 && b[b.len() - 1] != '/' {
        r.push('/');
    }
    r.append(name);
    r
}

/// What remains of `path` below `base`, or the whole path where it is not within `base`.
pub open spec fn relative_to(path: Seq<char>, base: Seq<char>) -> Seq<char> {
    if !within(path, base) {
        path
    } else if components(base).len() == 0 {
        if spans(path).len() > 0 {
            path.subrange(0, spans(path).last().1)
        } else if has_root(path) {
            path.subrange(0, 1)
        } else {
            Seq::empty()
        }
    } else {
        let skip = components(base).len() - (if has_root(path) {
            1int
        } else {
            0int
        });
        let s = spans(path);
        if skip >= s.len() {
            Seq::empty()
        } else {
            path.subrange(s[skip].0, s.last().1)
        }
    }
}

/// What remains of `path` below `base`.
pub fn strip_base(path: &str, base: &str) -> (r: String)
    ensures
        r@ == relative_to(path@, base@),
{
    let b = path_components(base);
    assert(text::views(b@).len() == b@.len());
    if !is_within(path, base) {
        return text::copy(path);
    }
    let v = text::chars_of(path);
    let found = find_spans(&v);
    if b.len() == 0 {
        return if found.len() > 0 {
            text::sub_string(&v, 0, found[found.len() - 1].end)
        } else if v.len() > 0 && v[0] == '/' {
            text::sub_string(&v, 0, 1)
        } else {
            String::new()
        };
    }
    proof {
        if has_root(path@) {
            assert(components(base@)[0] == components(path@)[0]);
        }
    }
    let skip: usize = if v.len() > 0 && v[0] == '/' {
        b.len() - 1
    } else {
        b.len()
    };
    if skip >= found.len() {
        return String::new();
    }
    let first = found[skip].start;
    let last = found[found.len() - 1].end;
    assert(skip < found@.len() - 1 ==> found@[skip as int].end <= found@[found@.len() - 1].start);
    text::sub_string(&v, first, last)
}

// ---------------------------------------------------------------------------
// Laws
// ---------------------------------------------------------------------------

/// Whether a text can be one name in a path: it is not empty, holds no slash, and is not `.`.
pub open spec fn is_name(name: Seq<char>) -> bool {
    name.len() > 0 && !name.contains('/') && name != seq!['.']
}

proof fn lemma_next_at_beyond(p: Seq<char>, all: Seq<char>, from: int)
    requires
        0 <= from <= p.len() < all.len(),
        p == all.take(p.len() as int),
        all[p.len() as int] == '/',
    ensures
        text::next_at(all, '/', from) == text::next_at(p, '/', from),
    decreases p.len() - from,
{
    if from < p.len() {
        assert(all[from] == p[from]);
        if p[from] != '/' {
            lemma_next_at_beyond(p, all, from + 1);
        }
    }
}

proof fn lemma_spans_go_on(p: Seq<char>, all: Seq<char>, from: int)
    requires
        0 <= from <= p.len() < all.len(),
        p == all.take(p.len() as int),
        all[p.len() as int] == '/',
    ensures
        spans_from(all, from) == spans_from(p, from) + spans_from(all, (p.len() + 1) as int),
    decreases p.len() - from,
{
    let rest = spans_from(all, (p.len() + 1) as int);
    if from == p.len() {
        assert(spans_from(all, from) == rest);
        assert(spans_from(p, from) + rest =~= rest);
    } else {
        assert(all[from] == p[from]);
        if p[from] == '/' {
            lemma_spans_go_on(p, all, from + 1);
        } else {
            lemma_next_at_beyond(p, all, from);
            text::lemma_next_at(p, '/', from);
            let e = text::next_at(p, '/', from);
            lemma_spans_go_on(p, all, e);
            assert(spans_from(all, from) =~= spans_from(p, from) + rest);
        }
    }
}

proof fn lemma_components_go_on(p: Seq<char>, all: Seq<char>)
    requires
        0 < p.len() < all.len(),
        p == all.take(p.len() as int),
        all[p.len() as int] == '/',
    ensures
        components(all) == components(p) + Seq::new(
            spans_from(all, (p.len() + 1) as int).len(),
            |i: int|
                all.subrange(
                    spans_from(all, (p.len() + 1) as int)[i].0,
                    spans_from(all, (p.len() + 1) as int)[i].1,
                ),
        ),
{
    let rest = spans_from(all, (p.len() + 1) as int);
    let more = Seq::new(rest.len(), |i: int| all.subrange(rest[i].0, rest[i].1));
    lemma_spans_go_on(p, all, 0);
    lemma_spans_from(p, 0);
    assert(all[0] == p[0]);
    let shift: int = if has_root(p) {
        1
    } else {
        0
    };
    let n = spans(p).len();
    assert(components(all).len() == components(p).len() + more.len());
    assert forall|i: int| 0 <= i < components(all).len() implies components(all)[i] == (components(
        p,
    ) + more)[i] by {
        let j = i - shift;
        if 0 <= j < n {
            let sp = spans(p)[j];
            assert(spans(all)[j] == sp);
            assert(all.subrange(sp.0, sp.1) =~= p.subrange(sp.0, sp.1));
        } else if j >= n {
            assert(spans(all)[j] == rest[j - n]);
        }
    }
    assert(components(all) =~= components(p) + more);
}

/// A name behind a slash is one more component of a path. A slash alone, or a dot behind one, adds
/// none.
pub proof fn law_a_name_behind_a_slash_is_a_component(p: Seq<char>, name: Seq<char>)
    requires
        p.len() > 0,
        is_name(name),
    ensures
        components(p.push('/') + name) == components(p).push(name),
        components(p.push('/')) == components(p),
        components(p.push('/').push('.')) == components(p),
        components(name) == seq![name],
        components(seq!['/']) == seq![seq!['/']],
        components(seq!['/'] + name) == seq![seq!['/'], name],
{
    let all = p.push('/') + name;
    let n = p.len() as int;
    assert(all.take(n) =~= p);
    assert(all.subrange(n + 1, all.len() as int) =~= name);
    lemma_one_name(all, n + 1, name);
    lemma_components_go_on(p, all);
    assert(components(all) =~= components(p).push(name));

    let slash = p.push('/');
    assert(slash.take(n) =~= p);
    lemma_components_go_on(p, slash);
    assert(components(slash) =~= components(p));

    let dot = p.push('/').push('.');
    assert(dot.take(n) =~= p);
    lemma_components_go_on(p, dot);
    text::lemma_next_at(dot, '/', n + 1);
    assert(text::next_at(dot, '/', n + 1) == n + 2);
    assert(spans_from(dot, n + 2) =~= Seq::empty());
    assert(spans_from(dot, n + 1) =~= Seq::empty());
    assert(components(dot) =~= components(p));

    assert(name.subrange(0, name.len() as int) =~= name);
    lemma_one_name(name, 0, name);
    assert(name[0] != '/');
    assert(components(name) =~= seq![name]);

    let root = seq!['/'];
    assert(spans_from(root, 1) =~= Seq::empty());
    assert(spans_from(root, 0) == spans_from(root, 1));
    assert(components(root) =~= seq![seq!['/']]);

    let top = seq!['/'] + name;
    assert(top.subrange(1, top.len() as int) =~= name);
    lemma_one_name(top, 1, name);
    assert(spans_from(top, 0) == spans_from(top, 1));
    assert(components(top) =~= seq![seq!['/'], name]);
}

proof fn lemma_one_name(all: Seq<char>, from: int, name: Seq<char>)
    requires
        0 <= from < all.len(),
        all.subrange(from, all.len() as int) == name,
        is_name(name),
    ensures
        spans_from(all, from) == seq![(from, all.len() as int)],
        all[from] == name[0],
{
    assert(name[0] == all[from]);
    assert(name.contains(name[0]));
    text::lemma_next_at(all, '/', from);
    let e = text::next_at(all, '/', from);
    if e < all.len() {
        assert(name[e - from] == '/');
        assert(name.contains(name[e - from]));
    }
    assert(e == all.len());
    if from > 0 && e == from + 1 && all[from] == '.' {
        assert(name =~= seq!['.']);
    }
    assert(spans_from(all, e) =~= Seq::empty());
    assert(spans_from(all, from) =~= seq![(from, e)]);
}

/// A path lies within a directory by whole components: what is named behind it does, and of two
/// names in the same directory neither lies within the other unless they are the same.
pub proof fn law_only_whole_components_count(dir: Seq<char>, a: Seq<char>, b: Seq<char>)
    requires
        dir.len() > 0,
        is_name(a),
        is_name(b),
    ensures
        within(dir.push('/') + a, dir),
        !within(dir, dir.push('/') + a),
        within(dir.push('/') + a, dir.push('/') + b) <==> a == b,
{
    law_a_name_behind_a_slash_is_a_component(dir, a);
    law_a_name_behind_a_slash_is_a_component(dir, b);
    let c = components(dir);
    assert(c.push(a).subrange(0, c.len() as int) =~= c);
    if within(dir.push('/') + a, dir.push('/') + b) {
        assert(c.push(b) == c.push(a).subrange(0, (c.len() + 1) as int));
        assert(c.push(b)[c.len() as int] == c.push(a)[c.len() as int]);
    } else if a == b {
        assert(c.push(a).subrange(0, (c.len() + 1) as int) =~= c.push(b));
    }
}

proof fn lemma_last_dot(s: Seq<char>, to: int, at: int)
    requires
        0 <= at < to <= s.len(),
        s[at] == '.',
        forall|i: int| at < i < to ==> s[i] != '.',
    ensures
        last_dot(s, to) == Some(at),
    decreases to,
{
    if to - 1 > at {
        assert(s[to - 1] != '.');
        lemma_last_dot(s, to - 1, at);
    }
}

proof fn lemma_no_dot(s: Seq<char>, to: int)
    requires
        0 <= to <= s.len(),
        forall|i: int| 0 <= i < to ==> s[i] != '.',
    ensures
        last_dot(s, to) is None,
    decreases to,
{
    if to > 0 {
        lemma_no_dot(s, to - 1);
    }
}

/// The extension of a file is what follows the last dot of its name, wherever the file is. A name
/// without a dot has none, and neither has one with a dot in front alone.
pub proof fn law_the_extension_follows_the_last_dot(
    dir: Seq<char>,
    stem: Seq<char>,
    ext: Seq<char>,
)
    requires
        dir.len() > 0,
        stem.len() > 0,
        ext.len() > 0,
        !stem.contains('/'),
        !ext.contains('/'),
        !ext.contains('.'),
    ensures
        extension_of(dir.push('/') + (stem.push('.') + ext)) == Some(ext),
        extension_of(stem.push('.') + ext) == Some(ext),
        extension_of(dir.push('/') + ext) is None,
        extension_of(dir.push('/') + (seq!['.'] + ext)) is None,
{
    let name = stem.push('.') + ext;
    assert forall|i: int| 0 <= i < name.len() implies name[i] != '/' by {
        if i < stem.len() {
            assert(stem.contains(stem[i]));
        } else if i > stem.len() {
            assert(ext.contains(ext[i - stem.len() - 1]));
        }
    }
    assert(name.len() >= 3);
    assert(is_name(name));
    law_a_name_behind_a_slash_is_a_component(dir, name);
    assert(components(dir).push(name).last() == name);
    assert(name != seq!['/'] && name != seq!['.'] && name != seq!['.', '.']);
    assert forall|i: int| stem.len() < i < name.len() implies name[i] != '.' by {
        assert(ext.contains(ext[i - stem.len() - 1]));
    }
    lemma_last_dot(name, name.len() as int, stem.len() as int);
    assert(name.skip((stem.len() + 1) as int) =~= ext);

    assert(!ext.contains('.'));
    assert forall|i: int| 0 <= i < ext.len() implies ext[i] != '.' && ext[i] != '/' by {
        assert(ext.contains(ext[i]));
    }
    assert(ext[0] != '.' && ext[0] != '/');
    assert(is_name(ext));
    law_a_name_behind_a_slash_is_a_component(dir, ext);
    assert(components(dir).push(ext).last() == ext);
    lemma_no_dot(ext, ext.len() as int);

    let hidden = seq!['.'] + ext;
    assert forall|i: int| 0 <= i < hidden.len() implies hidden[i] != '/' by {
        if i > 0 {
            assert(hidden[i] == ext[i - 1]);
        }
    }
    assert(hidden.len() >= 2);
    assert(is_name(hidden));
    law_a_name_behind_a_slash_is_a_component(dir, hidden);
    assert(components(dir).push(hidden).last() == hidden);
    assert(hidden[1] == ext[0]);
    assert forall|i: int| 0 < i < hidden.len() implies hidden[i] != '.' by {
        assert(hidden[i] == ext[i - 1]);
    }
    lemma_last_dot(hidden, hidden.len() as int, 0);
}

/// The parent of a path has its components without the last.
pub proof fn law_the_parent_lacks_the_last_component(p: Seq<char>)
    ensures
        parent_of(p) matches Some(q) ==> components(p).len() > 0 && components(q) == components(
            p,
        ).drop_last(),
        parent_of(p) is None ==> components(p).len() == 0 || components(p) == seq![seq!['/']],
{
    lemma_spans_from(p, 0);
    let n = spans(p).len();
    if let Some(q) = parent_of(p) {
        lemma_within_parent(p);
        if n == 1 {
            if has_root(p) {
                assert(spans_from(q, 1) == Seq::<(int, int)>::empty());
                assert(spans_from(q, 0) == spans_from(q, 1));
            } else {
                assert(spans(q) == Seq::<(int, int)>::empty());
            }
        } else {
            lemma_spans_of_prefix(p, 0, n - 2);
            assert(0 <= spans(p)[n - 2].0 < spans(p)[n - 2].1);
            assert(spans(q) == spans(p).take(n - 1));
            assert(has_root(q) == has_root(p));
        }
        assert(components(q).len() == components(p).len() - 1);
        assert(components(q) == components(p).subrange(0, components(q).len() as int));
        assert(components(q) =~= components(p).drop_last());
    } else if has_root(p) {
        assert(components(p) =~= seq![seq!['/']]);
    }
}

proof fn lemma_last_span(p: Seq<char>, from: int)
    requires
        0 <= from < p.len(),
        p.last() != '/',
        p.last() != '.',
    ensures
        spans_from(p, from).len() > 0,
        spans_from(p, from).last().1 == p.len(),
    decreases p.len() - from,
{
    if p[from] == '/' {
        lemma_last_span(p, from + 1);
    } else {
        text::lemma_next_at(p, '/', from);
        let e = text::next_at(p, '/', from);
        if e < p.len() {
            lemma_last_span(p, e);
        } else {
            assert(p[p.len() - 1] != '.');
            assert(is_component(p, from, e));
            assert(spans_from(p, e) =~= Seq::empty());
            assert(spans_from(p, from) =~= seq![(from, e)]);
        }
    }
}

/// What remains of a path below a directory is what stands behind it. A path that does not lie
/// within the directory stays as it is.
pub proof fn law_what_remains_stands_behind_the_base(
    base: Seq<char>,
    rest: Seq<char>,
    path: Seq<char>,
)
    requires
        components(base).len() > 0,
        rest.len() > 0,
        rest[0] != '/',
        rest[0] != '.',
        rest.last() != '/',
        rest.last() != '.',
    ensures
        relative_to(base.push('/') + rest, base) == rest,
        !within(path, base) ==> relative_to(path, base) == path,
{
    let all = base.push('/') + rest;
    let n = base.len() as int;
    assert(n > 0) by {
        if n == 0 {
            assert(spans(base) =~= Seq::empty());
        }
    }
    assert(all.take(n) =~= base);
    assert(all[n + 1] == rest[0]);
    assert(all.last() == rest.last());
    lemma_components_go_on(base, all);
    lemma_spans_go_on(base, all, 0);
    assert(components(all).subrange(0, components(base).len() as int) =~= components(base));
    lemma_last_span(all, n + 1);
    text::lemma_next_at(all, '/', n + 1);
    let e = text::next_at(all, '/', n + 1);
    let more = spans_from(all, n + 1);
    assert(is_component(all, n + 1, e));
    assert(more == seq![(n + 1, e)] + spans_from(all, e));
    assert(more[0] == (n + 1, e));
    assert(has_root(all) == has_root(base)) by {
        assert(all[0] == base[0]);
    }
    let s = spans(all);
    assert(s[spans(base).len() as int] == more[0]);
    assert(s.last() == more.last());
    assert(all.subrange(n + 1, all.len() as int) =~= rest);
}

/// The ancestors of a path are the path and the ancestors of its parent.
pub proof fn law_ancestors_are_reached_by_parents(p: Seq<char>)
    ensures
        ancestors_of(p).len() > 0,
        ancestors_of(p)[0] == p,
        parent_of(p) is None ==> ancestors_of(p).len() == 1,
        parent_of(p) matches Some(q) ==> ancestors_of(p).len() == ancestors_of(q).len() + 1,
        parent_of(p) matches Some(q) ==> forall|i: int|
            0 <= i < ancestors_of(q).len() ==> ancestors_of(p)[i + 1] == #[trigger] ancestors_of(q)[i],
{
}

/// A name stands behind its base, with one slash in between. An absolute name stands alone.
pub proof fn law_joining_puts_one_slash_between(base: Seq<char>, name: Seq<char>)
    ensures
        name.len() > 0 && name[0] == '/' ==> joined_path(base, name) == name,
        (name.len() == 0 || name[0] != '/') && base.len() > 0 && base.last() != '/' ==> joined_path(
            base,
            name,
        ) == base + seq!['/'] + name,
        (name.len() == 0 || name[0] != '/') && (base.len() == 0 || base.last() == '/')
            ==> joined_path(base, name) == base + name,
{
    assert(base + seq!['/'] + name =~= base.push('/') + name);
}

} // verus!
