//! An index from names to sets of members, used to find cache entries by project or by file.

use crate::paths;
use crate::text;
use vstd::prelude::*;

verus! {

/// One name with its members.
pub struct Group {
    pub name: String,
    pub members: Vec<String>,
}

impl Group {
    /// The members as a set.
    pub open spec fn set(self) -> Set<Seq<char>> {
        text::views(self.members@).to_set()
    }
}

/// A map from names to non-repeating members.
pub struct Registry {
    pub groups: Vec<Group>,
}

/// The names of the groups, in order.
pub open spec fn names(gs: Seq<Group>) -> Seq<Seq<char>> {
    Seq::new(gs.len(), |i: int| gs[i].name@)
}

/// No name occurs twice, and no member occurs twice under one name.
pub open spec fn distinct(gs: Seq<Group>) -> bool {
    &&& names(gs).no_duplicates()
    &&& forall|i: int|
        0 <= i < gs.len() ==> (#[trigger] text::views(gs[i].members@)).no_duplicates()
}

/// Where a name stands, if it does.
pub open spec fn place(gs: Seq<Group>, n: Seq<char>) -> int {
    choose|i: int| 0 <= i < gs.len() && (#[trigger] gs[i]).name@ == n
}

/// The groups as a map.
pub open spec fn as_map(gs: Seq<Group>) -> Map<Seq<char>, Set<Seq<char>>> {
    Map::new(|n: Seq<char>| names(gs).contains(n), |n: Seq<char>| gs[place(gs, n)].set())
}

impl View for Registry {
    type V = Map<Seq<char>, Set<Seq<char>>>;

    open spec fn view(&self) -> Map<Seq<char>, Set<Seq<char>>> {
        as_map(self.groups@)
    }
}

/// The members under a name, none where the name does not occur.
pub open spec fn under(m: Map<Seq<char>, Set<Seq<char>>>, n: Seq<char>) -> Set<Seq<char>> {
    if m.dom().contains(n) {
        m[n]
    } else {
        Set::empty()
    }
}

/// The groups that a path does not lie within.
pub open spec fn outside(
    m: Map<Seq<char>, Set<Seq<char>>>,
    path: Seq<char>,
) -> Map<Seq<char>, Set<Seq<char>>> {
    Map::new(|n: Seq<char>| m.dom().contains(n) && !paths::within(path, n), |n: Seq<char>| m[n])
}

/// The members of all groups that a path lies within.
pub open spec fn members_around(
    m: Map<Seq<char>, Set<Seq<char>>>,
    path: Seq<char>,
) -> Set<Seq<char>> {
    Set::new(
        |k: Seq<char>|
            exists|n: Seq<char>| #[trigger]
                m.dom().contains(n) && paths::within(path, n) && m[n].contains(k),
    )
}

/// The members under each name that `live` has under it too. A name without such members goes.
pub open spec fn retained(
    m: Map<Seq<char>, Set<Seq<char>>>,
    live: Map<Seq<char>, Set<Seq<char>>>,
) -> Map<Seq<char>, Set<Seq<char>>> {
    Map::new(
        |n: Seq<char>|
            exists|k: Seq<char>| under(m, n).contains(k) && #[trigger] under(live, n).contains(k),
        |n: Seq<char>| under(m, n).intersect(under(live, n)),
    )
}

/// The largest number of members under one name is at most `cap`.
pub open spec fn members_capped(m: Map<Seq<char>, Set<Seq<char>>>, cap: nat) -> bool {
    forall|n: Seq<char>| #[trigger] m.dom().contains(n) ==> m[n].len() <= cap
}

/// A group is found under its name, and has as many members as its list.
pub proof fn lemma_at(gs: Seq<Group>, i: int)
    requires
        distinct(gs),
        0 <= i < gs.len(),
    ensures
        as_map(gs).dom().contains(gs[i].name@),
        as_map(gs)[gs[i].name@] == gs[i].set(),
        gs[i].set().finite(),
        gs[i].set().len() == gs[i].members@.len(),
{
    let n = gs[i].name@;
    assert(names(gs)[i] == n);
    let j = place(gs, n);
    assert(gs[j].name@ == n);
    assert(names(gs)[j] == n);
    assert(i == j);
    let v = text::views(gs[i].members@);
    v.unique_seq_to_set();
    vstd::seq_lib::seq_to_set_is_finite(v);
}

proof fn lemma_absent(gs: Seq<Group>, n: Seq<char>)
    requires
        forall|i: int| 0 <= i < gs.len() ==> (#[trigger] gs[i]).name@ != n,
    ensures
        !as_map(gs).dom().contains(n),
{
    if names(gs).contains(n) {
        let i = choose|i: int| 0 <= i < names(gs).len() && names(gs)[i] == n;
        assert(gs[i].name@ == n);
    }
}

proof fn lemma_names_len(gs: Seq<Group>)
    requires
        distinct(gs),
    ensures
        as_map(gs).dom().finite(),
        as_map(gs).dom().len() == gs.len(),
{
    names(gs).unique_seq_to_set();
    vstd::seq_lib::seq_to_set_is_finite(names(gs));
    assert(as_map(gs).dom() =~= names(gs).to_set());
}

/// A map that agrees with the groups place by place is the map of the groups.
proof fn lemma_is_map(gs: Seq<Group>, m: Map<Seq<char>, Set<Seq<char>>>)
    requires
        distinct(gs),
        forall|n: Seq<char>| #[trigger]
            m.dom().contains(n) ==> exists|i: int| 0 <= i < gs.len() && (#[trigger] gs[i]).name@ == n,
        forall|i: int|
            0 <= i < gs.len() ==> m.dom().contains((#[trigger] gs[i]).name@) && m[gs[i].name@]
                == gs[i].set(),
    ensures
        as_map(gs) == m,
{
    let a = as_map(gs);
    assert forall|n: Seq<char>| a.dom().contains(n) == m.dom().contains(n) by {
        if a.dom().contains(n) {
            let i = choose|i: int| 0 <= i < names(gs).len() && names(gs)[i] == n;
            assert(gs[i].name@ == n);
        }
        if m.dom().contains(n) {
            let i = choose|i: int| 0 <= i < gs.len() && (#[trigger] gs[i]).name@ == n;
            assert(names(gs)[i] == n);
        }
    }
    assert forall|n: Seq<char>| a.dom().contains(n) implies a[n] == m[n] by {
        let i = choose|i: int| 0 <= i < names(gs).len() && names(gs)[i] == n;
        lemma_at(gs, i);
        assert(gs[i].name@ == n);
    }
    assert(a =~= m);
}

/// Whether a text is one of a list.
pub fn is_listed(list: &Vec<String>, x: &str) -> (r: bool)
    ensures
        r == text::views(list@).contains(x@),
        r == text::views(list@).to_set().contains(x@),
{
    let mut i: usize = 0;
    while i < list.len()
        invariant
            i <= list.len(),
            forall|j: int| 0 <= j < i ==> (#[trigger] list@[j])@ != x@,
        decreases list.len() - i,
    {
        if text::str_eq(list[i].as_str(), x) {
            assert(text::views(list@)[i as int] == x@);
            return true;
        }
        i += 1;
    }
    proof {
        if text::views(list@).contains(x@) {
            let j = choose|j: int| 0 <= j < text::views(list@).len() && text::views(list@)[j] == x@;
            assert(list@[j]@ == x@);
        }
    }
    false
}

impl Registry {
    /// The registry repeats neither names nor members.
    pub open spec fn wf(self) -> bool {
        distinct(self.groups@)
    }

    /// A registry without names.
    pub fn new() -> (r: Registry)
        ensures
            r.wf(),
            r@ == Map::<Seq<char>, Set<Seq<char>>>::empty(),
    {
        let r = Registry { groups: Vec::new() };
        assert(r@ =~= Map::<Seq<char>, Set<Seq<char>>>::empty());
        r
    }

    /// The names and the members under each name are finitely many.
    pub proof fn lemma_finite(self)
        requires
            self.wf(),
        ensures
            self@.dom().finite(),
            forall|n: Seq<char>| #[trigger] self@.dom().contains(n) ==> self@[n].finite(),
    {
        lemma_names_len(self.groups@);
        assert forall|n: Seq<char>| #[trigger] self@.dom().contains(n) implies self@[n].finite() by {
            let j = choose|j: int|
                0 <= j < names(self.groups@).len() && names(self.groups@)[j] == n;
            lemma_at(self.groups@, j);
        }
    }

    fn position(&self, name: &str) -> (r: Option<usize>)
        requires
            self.wf(),
        ensures
            r matches Some(i) ==> i < self.groups@.len() && self.groups@[i as int].name@ == name@
                && self@.dom().contains(name@) && self@[name@] == self.groups@[i as int].set(),
            r is None ==> !self@.dom().contains(name@),
            r is None ==> forall|i: int|
                0 <= i < self.groups@.len() ==> (#[trigger] self.groups@[i]).name@ != name@,
    {
        let mut i: usize = 0;
        while i < self.groups.len()
            invariant
                self.wf(),
                i <= self.groups.len(),
                forall|j: int| 0 <= j < i ==> (#[trigger] self.groups@[j]).name@ != name@,
            decreases self.groups.len() - i,
        {
            if text::str_eq(self.groups[i].name.as_str(), name) {
                proof {
                    lemma_at(self.groups@, i as int);
                }
                return Some(i);
            }
            i += 1;
        }
        proof {
            lemma_absent(self.groups@, name@);
        }
        None
    }

    /// How many names there are.
    pub fn len(&self) -> (n: usize)
        requires
            self.wf(),
        ensures
            n == self@.dom().len(),
            self@.dom().finite(),
            n == 0 ==> self@ == Map::<Seq<char>, Set<Seq<char>>>::empty(),
    {
        proof {
            lemma_names_len(self.groups@);
            if self.groups@.len() == 0 {
                assert(self@ =~= Map::<Seq<char>, Set<Seq<char>>>::empty());
            }
        }
        self.groups.len()
    }

    /// How many members a name has, if it occurs.
    pub fn count(&self, name: &str) -> (r: Option<usize>)
        requires
            self.wf(),
        ensures
            r is Some <==> self@.dom().contains(name@),
            r matches Some(n) ==> n == self@[name@].len() && self@[name@].finite(),
    {
        match self.position(name) {
            Some(i) => {
                proof {
                    lemma_at(self.groups@, i as int);
                }
                Some(self.groups[i].members.len())
            },
            None => None,
        }
    }

    /// Whether a name has a member.
    pub fn has(&self, name: &str, member: &str) -> (r: bool)
        requires
            self.wf(),
        ensures
            r == under(self@, name@).contains(member@),
    {
        match self.position(name) {
            Some(i) => is_listed(&self.groups[i].members, member),
            None => false,
        }
    }

    /// Keeps the members that `live` has under the same name.
    pub fn retain_live(&mut self, live: &Registry)
        requires
            old(self).wf(),
            live.wf(),
        ensures
            final(self).wf(),
            final(self)@ == retained(old(self)@, live@),
    {
        let ghost m = self@;
        let ghost l = live@;
        let ghost gs = self.groups@;
        let mut kept = Registry::new();
        let mut i: usize = 0;
        while i < self.groups.len()
            invariant
                i <= self.groups@.len(),
                self.wf(),
                live.wf(),
                self@ == m,
                live@ == l,
                self.groups@ == gs,
                kept.wf(),
                forall|n: Seq<char>, k: Seq<char>| #[trigger]
                    under(kept@, n).contains(k) ==> under(m, n).contains(k) && under(
                        l,
                        n,
                    ).contains(k),
                forall|a: int, b: int|
                    0 <= a < i && 0 <= b < gs[a].members@.len() && under(l, gs[a].name@).contains(
                        gs[a].members@[b]@,
                    ) ==> under(kept@, gs[a].name@).contains(#[trigger] gs[a].members@[b]@),
                forall|n: Seq<char>| #[trigger]
                    kept@.dom().contains(n) ==> exists|k: Seq<char>| kept@[n].contains(k),
            decreases self.groups@.len() - i,
        {
            let group: &Group = &self.groups[i];
            proof {
                lemma_at(gs, i as int);
            }
            let mut j: usize = 0;
            while j < group.members.len()
                invariant
                    i < gs.len(),
                    j <= group.members@.len(),
                    *group == gs[i as int],
                    m.dom().contains(group.name@),
                    m[group.name@] == group.set(),
                    live.wf(),
                    live@ == l,
                    kept.wf(),
                    forall|n: Seq<char>, k: Seq<char>| #[trigger]
                        under(kept@, n).contains(k) ==> under(m, n).contains(k) && under(
                            l,
                            n,
                        ).contains(k),
                    forall|a: int, b: int|
                        0 <= a < i && 0 <= b < gs[a].members@.len() && under(
                            l,
                            gs[a].name@,
                        ).contains(gs[a].members@[b]@) ==> under(kept@, gs[a].name@).contains(
                            #[trigger] gs[a].members@[b]@,
                        ),
                    forall|b: int|
                        0 <= b < j && under(l, group.name@).contains(group.members@[b]@) ==> under(
                            kept@,
                            group.name@,
                        ).contains(#[trigger] group.members@[b]@),
                    forall|n: Seq<char>| #[trigger]
                        kept@.dom().contains(n) ==> exists|k: Seq<char>| kept@[n].contains(k),
                decreases group.members@.len() - j,
            {
                let ghost before = kept@;
                proof {
                    assert(text::views(group.members@)[j as int] == group.members@[j as int]@);
                    assert(group.set().contains(group.members@[j as int]@));
                }
                if live.has(group.name.as_str(), group.members[j].as_str()) {
                    kept.add(group.name.as_str(), group.members[j].as_str());
                    proof {
                        let q = kept@;
                        let x = group.members@[j as int]@;
                        assert(q[group.name@].contains(x));
                        assert forall|n: Seq<char>| #[trigger] q.dom().contains(n) implies exists|
                            k: Seq<char>,
                        |
                            q[n].contains(k) by {
                            if n != group.name@ {
                                assert(before.dom().contains(n));
                                let k = choose|k: Seq<char>| before[n].contains(k);
                                assert(q[n].contains(k));
                            }
                        }
                        assert forall|n: Seq<char>, k: Seq<char>| #[trigger]
                            under(q, n).contains(k) implies under(m, n).contains(k) && under(
                            l,
                            n,
                        ).contains(k) by {
                            if !(n == group.name@ && k == x) {
                                assert(under(before, n).contains(k));
                            }
                        }
                    }
                }
                j += 1;
            }
            i += 1;
        }
        proof {
            let q = kept@;
            let goal = retained(m, l);
            assert forall|n: Seq<char>, k: Seq<char>|
                under(m, n).contains(k) && #[trigger] under(l, n).contains(k) implies under(
                q,
                n,
            ).contains(k) by {
                let a = choose|a: int| 0 <= a < names(gs).len() && names(gs)[a] == n;
                lemma_at(gs, a);
                let v = text::views(gs[a].members@);
                let b = choose|b: int| 0 <= b < v.len() && v[b] == k;
                assert(gs[a].members@[b]@ == k);
            }
            assert forall|n: Seq<char>| goal.dom().contains(n) == q.dom().contains(n) by {
                if goal.dom().contains(n) {
                    let k = choose|k: Seq<char>|
                        under(m, n).contains(k) && #[trigger] under(l, n).contains(k);
                    assert(under(q, n).contains(k));
                }
                if q.dom().contains(n) {
                    let k = choose|k: Seq<char>| q[n].contains(k);
                    assert(under(q, n).contains(k));
                    assert(under(l, n).contains(k));
                }
            }
            assert forall|n: Seq<char>| goal.dom().contains(n) implies goal[n] == q[n] by {
                assert forall|k: Seq<char>| goal[n].contains(k) == q[n].contains(k) by {
                    assert(under(q, n) == q[n]);
                    if q[n].contains(k) {
                        assert(under(q, n).contains(k));
                    }
                    if goal[n].contains(k) {
                        assert(under(l, n).contains(k));
                    }
                }
                assert(goal[n] =~= q[n]);
            }
            assert(goal =~= q);
        }
        *self = kept;
    }

    /// Adds a member under a name.
    pub fn add(&mut self, name: &str, member: &str)
        requires
            old(self).wf(),
        ensures
            final(self).wf(),
            final(self)@ == old(self)@.insert(name@, under(old(self)@, name@).insert(member@)),
    {
        let ghost gs = self.groups@;
        let ghost m = self@.insert(name@, under(self@, name@).insert(member@));
        match self.position(name) {
            Some(i) => {
                let mut g = self.groups.remove(i);
                if !is_listed(&g.members, member) {
                    let ghost before = g.members@;
                    g.members.push(text::copy(member));
                    proof {
                        text::lemma_views_push(before, g.members@.last());
                        let v = text::views(before);
                        assert(v.push(member@).to_set() =~= v.to_set().insert(member@)) by {
                            lemma_push_to_set(v, member@);
                        }
                        assert(v.push(member@).no_duplicates());
                    }
                } else {
                    assert(g.set().insert(member@) =~= g.set());
                }
                assert(g.set() == gs[i as int].set().insert(member@));
                self.groups.insert(i, g);
                proof {
                    let hs = self.groups@;
                    assert(hs =~= gs.update(i as int, g));
                    assert(names(hs) =~= names(gs));
                    assert(distinct(hs)) by {
                        assert forall|j: int| 0 <= j < hs.len() implies (#[trigger] text::views(
                            hs[j].members@,
                        )).no_duplicates() by {
                            if j != i {
                                assert(hs[j] == gs[j]);
                                assert(text::views(gs[j].members@).no_duplicates());
                            }
                        }
                    }
                    assert forall|j: int| 0 <= j < hs.len() implies m.dom().contains(
                        (#[trigger] hs[j]).name@,
                    ) && m[hs[j].name@] == hs[j].set() by {
                        lemma_at(gs, j);
                        if j != i {
                            assert(hs[j] == gs[j]);
                            assert(names(gs)[j] != names(gs)[i as int]);
                        }
                    }
                    assert forall|n: Seq<char>| #[trigger] m.dom().contains(n) implies exists|j: int|
                        0 <= j < hs.len() && (#[trigger] hs[j]).name@ == n by {
                        if n == name@ {
                            assert(hs[i as int].name@ == n);
                        } else {
                            let j = choose|j: int| 0 <= j < names(gs).len() && names(gs)[j] == n;
                            assert(hs[j].name@ == n);
                        }
                    }
                    lemma_is_map(hs, m);
                }
            },
            None => {
                let mut members: Vec<String> = Vec::new();
                members.push(text::copy(member));
                let g = Group { name: text::copy(name), members };
                self.groups.push(g);
                proof {
                    let hs = self.groups@;
                    assert(hs == gs.push(g));
                    assert(g.set() =~= Set::<Seq<char>>::empty().insert(member@)) by {
                        let v = text::views(g.members@);
                        assert(v =~= Seq::<Seq<char>>::empty().push(member@));
                        lemma_push_to_set(Seq::<Seq<char>>::empty(), member@);
                        assert(Seq::<Seq<char>>::empty().to_set() =~= Set::<Seq<char>>::empty());
                    }
                    assert(names(hs) =~= names(gs).push(name@));
                    assert(distinct(hs)) by {
                        assert forall|j: int| 0 <= j < hs.len() implies (#[trigger] text::views(
                            hs[j].members@,
                        )).no_duplicates() by {
                            if j < gs.len() {
                                assert(hs[j] == gs[j]);
                                assert(text::views(gs[j].members@).no_duplicates());
                            }
                        }
                        assert forall|a: int, b: int|
                            0 <= a < names(hs).len() && 0 <= b < names(hs).len() && a
                                != b implies names(hs)[a] != names(hs)[b] by {
                            if a < gs.len() {
                                assert(gs[a].name@ == names(gs)[a]);
                            }
                            if b < gs.len() {
                                assert(gs[b].name@ == names(gs)[b]);
                            }
                        }
                    }
                    assert forall|j: int| 0 <= j < hs.len() implies m.dom().contains(
                        (#[trigger] hs[j]).name@,
                    ) && m[hs[j].name@] == hs[j].set() by {
                        if j < gs.len() {
                            lemma_at(gs, j);
                            assert(hs[j] == gs[j]);
                        }
                    }
                    assert forall|n: Seq<char>| #[trigger] m.dom().contains(n) implies exists|j: int|
                        0 <= j < hs.len() && (#[trigger] hs[j]).name@ == n by {
                        if n == name@ {
                            assert(hs[gs.len() as int].name@ == n);
                        } else {
                            let j = choose|j: int| 0 <= j < names(gs).len() && names(gs)[j] == n;
                            assert(hs[j].name@ == n);
                        }
                    }
                    lemma_is_map(hs, m);
                }
            },
        }
    }

    /// Takes a name out, with its members.
    pub fn take(&mut self, name: &str) -> (r: Vec<String>)
        requires
            old(self).wf(),
        ensures
            final(self).wf(),
            final(self)@ == old(self)@.remove(name@),
            text::views(r@).to_set() == under(old(self)@, name@),
            text::views(r@).no_duplicates(),
    {
        let ghost gs = self.groups@;
        let ghost m = self@.remove(name@);
        match self.position(name) {
            Some(i) => {
                let g = self.groups.remove(i);
                proof {
                    lemma_without(gs, i as int);
                    lemma_at(gs, i as int);
                    assert(text::views(gs[i as int].members@).no_duplicates());
                }
                g.members
            },
            None => {
                let r: Vec<String> = Vec::new();
                proof {
                    assert(m =~= self@);
                    assert(text::views(r@).to_set() =~= Set::<Seq<char>>::empty());
                }
                r
            },
        }
    }

    /// Takes out every name that a path lies within, and hands out their members.
    pub fn take_around(&mut self, path: &str) -> (r: Vec<String>)
        requires
            old(self).wf(),
        ensures
            final(self).wf(),
            final(self)@ == outside(old(self)@, path@),
            text::views(r@).to_set() == members_around(old(self)@, path@),
    {
        let ghost m0 = self@;
        let ghost p = path@;
        let mut r: Vec<String> = Vec::new();
        let mut i: usize = 0;
        proof {
            assert(text::views(r@).to_set() =~= Set::<Seq<char>>::empty());
        }
        let ghost mut gone = Map::<Seq<char>, Set<Seq<char>>>::empty();
        while i < self.groups.len()
            invariant
                self.wf(),
                i <= self.groups.len(),
                p == path@,
                forall|n: Seq<char>| #[trigger] self@.dom().contains(n) ==> m0.dom().contains(n)
                    && self@[n] == m0[n],
                forall|n: Seq<char>| #[trigger] m0.dom().contains(n) ==> self@.dom().contains(n)
                    || gone.dom().contains(n),
                forall|n: Seq<char>| #[trigger] gone.dom().contains(n) ==> m0.dom().contains(n)
                    && gone[n] == m0[n] && paths::within(p, n) && !self@.dom().contains(n),
                forall|j: int| 0 <= j < i ==> !paths::within(p, (#[trigger] self.groups@[j]).name@),
                forall|k: Seq<char>| #[trigger]
                    text::views(r@).to_set().contains(k) ==> members_around(m0, p).contains(k),
                forall|n: Seq<char>, k: Seq<char>|
                    gone.dom().contains(n) && #[trigger] gone[n].contains(k) ==> text::views(
                        r@,
                    ).to_set().contains(k),
            decreases self.groups.len() - i,
        {
            if paths::is_within(path, self.groups[i].name.as_str()) {
                let ghost gs = self.groups@;
                let ghost now = self@;
                let mut g = self.groups.remove(i);
                proof {
                    lemma_without(gs, i as int);
                    lemma_at(gs, i as int);
                    gone = gone.insert(g.name@, g.set());
                    assert(self.groups@ =~= gs.remove(i as int));
                    assert forall|j: int| 0 <= j < i implies !paths::within(
                        p,
                        (#[trigger] self.groups@[j]).name@,
                    ) by {
                        assert(self.groups@[j] == gs[j]);
                    }
                }
                let ghost before = r@;
                let ghost added = g.members@;
                r.append(&mut g.members);
                proof {
                    let a = text::views(before);
                    let b = text::views(added);
                    assert(text::views(r@) =~= a + b);
                    lemma_add_to_set(a, b);
                    assert(b.to_set() == now[g.name@]);
                }
            } else {
                i += 1;
            }
        }
        proof {
            assert forall|n: Seq<char>| self@.dom().contains(n) implies !paths::within(p, n) by {
                let j = choose|j: int|
                    0 <= j < names(self.groups@).len() && names(self.groups@)[j] == n;
                assert(self.groups@[j].name@ == n);
            }
            assert(self@ =~= outside(m0, p));
            assert forall|k: Seq<char>| members_around(m0, p).contains(k) implies text::views(
                r@,
            ).to_set().contains(k) by {
                let n = choose|n: Seq<char>| #[trigger]
                    m0.dom().contains(n) && paths::within(p, n) && m0[n].contains(k);
                assert(gone.dom().contains(n));
                assert(gone[n].contains(k));
            }
            assert(text::views(r@).to_set() =~= members_around(m0, p));
        }
        r
    }

    /// Whether some name has more than `limit` members.
    pub fn any_over(&self, limit: usize) -> (r: bool)
        requires
            self.wf(),
        ensures
            r == !members_capped(self@, limit as nat),
    {
        let mut i: usize = 0;
        while i < self.groups.len()
            invariant
                self.wf(),
                i <= self.groups.len(),
                forall|j: int| 0 <= j < i ==> (#[trigger] self.groups@[j]).members@.len() <= limit,
            decreases self.groups.len() - i,
        {
            if self.groups[i].members.len() > limit {
                proof {
                    lemma_at(self.groups@, i as int);
                    assert(self@.dom().contains(self.groups@[i as int].name@));
                }
                return true;
            }
            i += 1;
        }
        proof {
            assert forall|n: Seq<char>| #[trigger] self@.dom().contains(n) implies self@[n].len()
                <= limit by {
                let j = choose|j: int|
                    0 <= j < names(self.groups@).len() && names(self.groups@)[j] == n;
                lemma_at(self.groups@, j);
                assert(self.groups@[j].members@.len() <= limit);
            }
        }
        false
    }
}

/// Adding an item at the end of a list adds it to the set of the list.
pub proof fn lemma_push_to_set(v: Seq<Seq<char>>, x: Seq<char>)
    ensures
        v.push(x).to_set() == v.to_set().insert(x),
{
    assert forall|k: Seq<char>| v.push(x).to_set().contains(k) == v.to_set().insert(x).contains(
        k,
    ) by {
        if v.push(x).contains(k) {
            let i = choose|i: int| 0 <= i < v.push(x).len() && v.push(x)[i] == k;
            if i < v.len() {
                assert(v[i] == k);
            }
        }
        if v.contains(k) {
            let i = choose|i: int| 0 <= i < v.len() && v[i] == k;
            assert(v.push(x)[i] == k);
        }
        if k == x {
            assert(v.push(x)[v.len() as int] == k);
        }
    }
    assert(v.push(x).to_set() =~= v.to_set().insert(x));
}

/// The set of two lists in a row is the union of their sets.
pub proof fn lemma_add_to_set(a: Seq<Seq<char>>, b: Seq<Seq<char>>)
    ensures
        (a + b).to_set() == a.to_set().union(b.to_set()),
{
    assert forall|k: Seq<char>| (a + b).to_set().contains(k) == a.to_set().union(
        b.to_set(),
    ).contains(k) by {
        if (a + b).contains(k) {
            let i = choose|i: int| 0 <= i < (a + b).len() && (a + b)[i] == k;
            if i < a.len() {
                assert(a[i] == k);
            } else {
                assert(b[i - a.len()] == k);
            }
        }
        if a.contains(k) {
            let i = choose|i: int| 0 <= i < a.len() && a[i] == k;
            assert((a + b)[i] == k);
        }
        if b.contains(k) {
            let i = choose|i: int| 0 <= i < b.len() && b[i] == k;
            assert((a + b)[i + a.len()] == k);
        }
    }
    assert((a + b).to_set() =~= a.to_set().union(b.to_set()));
}

proof fn lemma_without(gs: Seq<Group>, i: int)
    requires
        distinct(gs),
        0 <= i < gs.len(),
    ensures
        distinct(gs.remove(i)),
        as_map(gs.remove(i)) == as_map(gs).remove(gs[i].name@),
{
    let hs = gs.remove(i);
    let m = as_map(gs).remove(gs[i].name@);
    assert(names(hs) =~= names(gs).remove(i));
    assert(distinct(hs)) by {
        assert forall|j: int| 0 <= j < hs.len() implies (#[trigger] text::views(
            hs[j].members@,
        )).no_duplicates() by {
            let k = if j < i {
                j
            } else {
                j + 1
            };
            assert(hs[j] == gs[k]);
            assert(text::views(gs[k].members@).no_duplicates());
        }
        assert forall|a: int, b: int|
            0 <= a < names(hs).len() && 0 <= b < names(hs).len() && a != b implies names(hs)[a]
            != names(hs)[b] by {
            let x = if a < i {
                a
            } else {
                a + 1
            };
            let y = if b < i {
                b
            } else {
                b + 1
            };
            assert(names(hs)[a] == names(gs)[x]);
            assert(names(hs)[b] == names(gs)[y]);
        }
    }
    assert forall|j: int| 0 <= j < hs.len() implies m.dom().contains((#[trigger] hs[j]).name@)
        && m[hs[j].name@] == hs[j].set() by {
        let k = if j < i {
            j
        } else {
            j + 1
        };
        assert(hs[j] == gs[k]);
        lemma_at(gs, k);
        assert(names(gs)[k] != names(gs)[i]);
    }
    assert forall|n: Seq<char>| #[trigger] m.dom().contains(n) implies exists|j: int|
        0 <= j < hs.len() && (#[trigger] hs[j]).name@ == n by {
        let k = choose|k: int| 0 <= k < names(gs).len() && names(gs)[k] == n;
        assert(k != i);
        if k < i {
            assert(hs[k].name@ == n);
        } else {
            assert(hs[k - 1].name@ == n);
        }
    }
    lemma_is_map(hs, m);
}

/// What stands under a name is what the map holds for it.
pub proof fn law_members_stand_under_their_name(
    m: Map<Seq<char>, Set<Seq<char>>>,
    n: Seq<char>,
    k: Seq<char>,
)
    ensures
        under(m, n).contains(k) <==> m.dom().contains(n) && m[n].contains(k),
{
}

/// Of a registry, a path leaves the names that it does not lie within, with their members, and
/// takes the members of all others.
pub proof fn law_a_path_parts_a_registry(
    m: Map<Seq<char>, Set<Seq<char>>>,
    path: Seq<char>,
    n: Seq<char>,
    k: Seq<char>,
)
    requires
        m.dom().contains(n),
    ensures
        paths::within(path, n) ==> !outside(m, path).dom().contains(n),
        !paths::within(path, n) ==> outside(m, path).dom().contains(n) && outside(m, path)[n]
            == m[n],
        paths::within(path, n) && m[n].contains(k) ==> members_around(m, path).contains(k),
        (forall|o: Seq<char>| #[trigger]
            m.dom().contains(o) && paths::within(path, o) ==> !m[o].contains(k))
            ==> !members_around(m, path).contains(k),
{
}

/// Members are retained where they are live, and a name as long as it has one.
pub proof fn law_live_members_are_retained(
    m: Map<Seq<char>, Set<Seq<char>>>,
    live: Map<Seq<char>, Set<Seq<char>>>,
    n: Seq<char>,
    k: Seq<char>,
)
    ensures
        under(retained(m, live), n).contains(k) <==> under(m, n).contains(k) && under(
            live,
            n,
        ).contains(k),
        retained(m, live).dom().contains(n) <==> exists|j: Seq<char>|
            under(m, n).contains(j) && #[trigger] under(live, n).contains(j),
{
}

/// A cap holds where no name has more members.
pub proof fn law_a_cap_bounds_every_name(
    m: Map<Seq<char>, Set<Seq<char>>>,
    cap: nat,
    n: Seq<char>,
)
    ensures
        members_capped(m, cap) && m.dom().contains(n) ==> m[n].len() <= cap,
        m.dom().contains(n) && m[n].len() > cap ==> !members_capped(m, cap),
        (forall|o: Seq<char>| #[trigger] m.dom().contains(o) ==> m[o].len() <= cap)
            ==> members_capped(m, cap),
{
}

} // verus!
