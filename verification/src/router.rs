//! The router's per-navigation decisions: which route a path resolves to,
//! which layout chain wraps it, and whether the mounted layout shell can stay.
use vstd::prelude::*;
use crate::route_match::{first_match, route_match_spec, select_route, ParamMap};

verus! {

/// One registered row: a route path and its layout chain (layouts named by
/// the number the caller gave each layout function, nearest first).
pub open spec fn row_views(rows: Seq<(String, Vec<usize>)>) -> Seq<(Seq<char>, Seq<usize>)> {
    rows.map_values(|r: (String, Vec<usize>)| (r.0@, r.1@))
}

/// The chain registered for `path`: the first row with that path.
pub open spec fn rows_lookup(rows: Seq<(Seq<char>, Seq<usize>)>, path: Seq<char>) -> Option<Seq<usize>>
    decreases rows.len(),
{
    if rows.len() == 0 {
        None
    } else if rows[0].0 == path {
        Some(rows[0].1)
    } else {
        rows_lookup(rows.drop_first(), path)
    }
}

pub open spec fn rows_have(rows: Seq<(Seq<char>, Seq<usize>)>, path: Seq<char>) -> bool {
    exists|i: int| 0 <= i < rows.len() && rows[i].0 == path
}

/// Registering `entries` in order: a path already present keeps its chain.
pub open spec fn register_spec(
    rows: Seq<(Seq<char>, Seq<usize>)>,
    entries: Seq<(Seq<char>, Seq<usize>)>,
) -> Seq<(Seq<char>, Seq<usize>)>
    decreases entries.len(),
{
    if entries.len() == 0 {
        rows
    } else {
        let before = register_spec(rows, entries.drop_last());
        if rows_have(before, entries.last().0) {
            before
        } else {
            before.push(entries.last())
        }
    }
}

pub open spec fn distinct_paths(rows: Seq<(Seq<char>, Seq<usize>)>) -> bool {
    forall|i: int, j: int| 0 <= i < j < rows.len() ==> rows[i].0 != rows[j].0
}

/// The layout chains of the file-based routes, by route path.
pub struct LayoutRegistry {
    rows: Vec<(String, Vec<usize>)>,
}

impl View for LayoutRegistry {
    type V = Seq<(Seq<char>, Seq<usize>)>;

    closed spec fn view(&self) -> Seq<(Seq<char>, Seq<usize>)> {
        row_views(self.rows@)
    }
}

proof fn lemma_lookup_found(rows: Seq<(Seq<char>, Seq<usize>)>, path: Seq<char>, i: int)
    requires
        distinct_paths(rows),
        0 <= i < rows.len(),
        rows[i].0 == path,
    ensures
        rows_lookup(rows, path) == Some(rows[i].1),
    decreases rows.len(),
{
    if i > 0 {
        assert(rows[0].0 != rows[i].0);
        assert(rows.drop_first()[i - 1] == rows[i]);
        lemma_lookup_found(rows.drop_first(), path, i - 1);
    }
}

proof fn lemma_lookup_absent(rows: Seq<(Seq<char>, Seq<usize>)>, path: Seq<char>)
    requires
        !rows_have(rows, path),
    ensures
        rows_lookup(rows, path) is None,
    decreases rows.len(),
{
    if rows.len() > 0 {
        assert(rows[0].0 != path);
        assert forall|i: int| 0 <= i < rows.drop_first().len() implies rows.drop_first()[i].0 != path by {
            assert(rows.drop_first()[i] == rows[i + 1]);
        }
        lemma_lookup_absent(rows.drop_first(), path);
    }
}

impl LayoutRegistry {
    /// Each path has at most one row (see `distinct_paths`).
    pub open spec fn wf(&self) -> bool {
        distinct_paths(self@)
    }

    /// No route has a layout chain yet.
    pub fn new() -> (r: LayoutRegistry)
        ensures
            r.wf(),
            r@ == Seq::<(Seq<char>, Seq<usize>)>::empty(),
    {
        let r = LayoutRegistry { rows: Vec::new() };
        assert(r@ =~= Seq::<(Seq<char>, Seq<usize>)>::empty());
        r
    }

    /// Registers the layout chain of each route path; a path that already
    /// has a chain keeps it.
    pub fn register_app_layouts(&mut self, entries: &Vec<(String, Vec<usize>)>)
        requires
            old(self).wf(),
        ensures
            final(self).wf(),
            final(self)@ == register_spec(old(self)@, row_views(entries@)),
    {
        let ghost ev = row_views(entries@);
        let mut k: usize = 0;
        while k < entries.len()
            invariant
                k <= entries.len(),
                ev == row_views(entries@),
                distinct_paths(self@),
                self@ == register_spec(old(self)@, ev.subrange(0, k as int)),
            decreases entries.len() - k,
        {
            let ghost sub = ev.subrange(0, k as int + 1);
            assert(sub.drop_last() =~= ev.subrange(0, k as int));
            assert(sub.last() == ev[k as int]);
            let path = &entries[k].0;
            let mut found = false;
            let mut i: usize = 0;
            while i < self.rows.len()
                invariant
                    i <= self.rows.len(),
                    path@ == ev[k as int].0,
                    found ==> rows_have(self@, path@),
                    !found ==> forall|j: int| 0 <= j < i ==> self@[j].0 != path@,
                decreases self.rows.len() - i,
            {
                if self.rows[i].0 == *path {
                    found = true;
                    assert(self@[i as int].0 == path@);
                }
                i = i + 1;
            }
            if !found {
                let ghost before = self@;
                self.rows.push((path.clone(), entries[k].1.clone()));
                proof {
                    assert(self@ =~= before.push(ev[k as int]));
                    assert forall|a: int, b: int| 0 <= a < b < self@.len() implies self@[a].0 != self@[b].0 by {
                        if b == before.len() {
                            assert(self@[a] == before[a]);
                        } else {
                            assert(self@[a] == before[a] && self@[b] == before[b]);
                        }
                    }
                }
            }
            k = k + 1;
        }
        assert(ev.subrange(0, entries.len() as int) =~= ev);
    }

    /// The layout chain registered for `path` (empty for a route without one).
    pub fn app_layouts(&self, path: &str) -> (r: Vec<usize>)
        requires
            self.wf(),
        ensures
            r@ == match rows_lookup(self@, path@) {
                Some(c) => c,
                None => Seq::<usize>::empty(),
            },
    {
        let key = String::from_str(path);
        let mut i: usize = 0;
        while i < self.rows.len()
            invariant
                i <= self.rows.len(),
                key@ == path@,
                distinct_paths(self@),
                forall|j: int| 0 <= j < i ==> self@[j].0 != path@,
            decreases self.rows.len() - i,
        {
            if self.rows[i].0 == key {
                proof {
                    assert(self@[i as int].0 == path@);
                    lemma_lookup_found(self@, path@, i as int);
                }
                return self.rows[i].1.clone();
            }
            i = i + 1;
        }
        proof {
            lemma_lookup_absent(self@, path@);
        }
        Vec::new()
    }
}

/// The index of the route that `current` resolves to: the first match.
pub open spec fn matched_route(paths: Seq<String>, current: Seq<char>) -> Option<int> {
    if exists|i: int| first_match(paths, current, i) {
        Some(choose|i: int| first_match(paths, current, i))
    } else {
        None
    }
}

/// The layout chain that wraps the page `current` resolves to.
pub open spec fn chain_for(
    paths: Seq<String>,
    rows: Seq<(Seq<char>, Seq<usize>)>,
    current: Seq<char>,
) -> Seq<usize> {
    match matched_route(paths, current) {
        Some(i) => match rows_lookup(rows, paths[i]@) {
            Some(c) => c,
            None => Seq::empty(),
        },
        None => Seq::empty(),
    }
}

/// The mounted layout shell: the chain it was built from, and whether one is
/// mounted at all.
pub struct ShellView {
    pub chain: Seq<usize>,
    pub mounted: bool,
}

/// One navigation: the shell is rebuilt when none is mounted or the new page
/// needs another chain; afterwards the shell for `chain` is mounted.
pub open spec fn nav_step(st: ShellView, chain: Seq<usize>) -> (ShellView, bool) {
    (ShellView { chain, mounted: true }, !st.mounted || st.chain != chain)
}

/// The router's view of what is on screen: the chain of the mounted layout
/// shell, if one is mounted.
pub struct RouterState {
    chain: Vec<usize>,
    mounted: bool,
}

/// What a navigation to a path does.
pub struct NavPlan {
    /// Index of the route shown, or `None` for the not-found page.
    pub matched: Option<usize>,
    /// Parameters bound by the matched route (empty when none matched).
    pub params: ParamMap,
    /// Layout chain of the shown page, nearest layout first.
    pub chain: Vec<usize>,
    /// Whether the layout shell is torn down and built again around the
    /// outlet; otherwise only the page inside the outlet is swapped.
    pub rebuild_shell: bool,
}

proof fn lemma_first_match_unique(paths: Seq<String>, current: Seq<char>, i: int)
    requires
        first_match(paths, current, i),
    ensures
        matched_route(paths, current) == Some(i),
{
    let c = choose|j: int| first_match(paths, current, j);
    assert(first_match(paths, current, c));
    if c < i {
        assert(route_match_spec(paths[c]@, current) is None);
    } else if c > i {
        assert(route_match_spec(paths[i]@, current) is None);
    }
}

fn chains_equal(a: &Vec<usize>, b: &Vec<usize>) -> (r: bool)
    ensures
        r == (a@ == b@),
{
    if a.len() != b.len() {
        return false;
    }
    let mut i: usize = 0;
    while i < a.len()
        invariant
            i <= a.len(),
            a.len() == b.len(),
            forall|j: int| 0 <= j < i ==> a@[j] == b@[j],
        decreases a.len() - i,
    {
        if a[i] != b[i] {
            return false;
        }
        i = i + 1;
    }
    assert(a@ =~= b@);
    true
}

impl RouterState {
    pub closed spec fn shell(&self) -> ShellView {
        ShellView { chain: self.chain@, mounted: self.mounted }
    }

    /// Nothing mounted yet.
    pub fn new() -> (r: RouterState)
        ensures
            !r.shell().mounted,
            r.shell().chain == Seq::<usize>::empty(),
    {
        RouterState { chain: Vec::new(), mounted: false }
    }

    /// Resolves `current` against the route table `paths` and decides what
    /// the router does: which page it shows with which parameters, and
    /// whether the layout shell stays mounted.
    pub fn navigate(&mut self, paths: &Vec<String>, layouts: &LayoutRegistry, current: &str) -> (r:
        NavPlan)
        requires
            layouts.wf(),
        ensures
            match r.matched {
                Some(i) => matched_route(paths@, current@) == Some(i as int) && route_match_spec(
                    paths@[i as int]@,
                    current@,
                ) == Some(r.params@),
                None => matched_route(paths@, current@) is None && r.params@ == Map::<
                    Seq<char>,
                    Seq<char>,
                >::empty(),
            },
            r.chain@ == chain_for(paths@, layouts@, current@),
            (final(self).shell(), r.rebuild_shell) == nav_step(old(self).shell(), r.chain@),
    {
        let sel = select_route(paths, current);
        let (matched, params, chain) = match sel {
            Some((i, m)) => {
                proof {
                    lemma_first_match_unique(paths@, current@, i as int);
                }
                let c = layouts.app_layouts(paths[i].as_str());
                (Some(i), m, c)
            },
            None => {
                assert(!exists|i: int| first_match(paths@, current@, i));
                (None, ParamMap::new(), Vec::new())
            },
        };
        let same = chains_equal(&chain, &self.chain);
        let rebuild_shell = !self.mounted || !same;
        self.chain = chain.clone();
        self.mounted = true;
        assert(self.chain@ == chain@);
        NavPlan { matched, params, chain, rebuild_shell }
    }
}

/// Moving between pages that share a layout chain keeps the mounted shell:
/// once a shell is up, a navigation whose page needs the same chain as the
/// one shown swaps only the page.
pub proof fn lemma_same_chain_keeps_shell(
    paths: Seq<String>,
    rows: Seq<(Seq<char>, Seq<usize>)>,
    st: ShellView,
    a: Seq<char>,
    b: Seq<char>,
)
    requires
        chain_for(paths, rows, a) == chain_for(paths, rows, b),
    ensures
        !nav_step(nav_step(st, chain_for(paths, rows, a)).0, chain_for(paths, rows, b)).1,
{
}

/// Registering the same layout table twice changes nothing the second time.
pub proof fn lemma_register_idempotent(
    rows: Seq<(Seq<char>, Seq<usize>)>,
    entries: Seq<(Seq<char>, Seq<usize>)>,
)
    requires
        distinct_paths(rows),
    ensures
        register_spec(register_spec(rows, entries), entries) == register_spec(rows, entries),
{
    let once = register_spec(rows, entries);
    lemma_register_keeps_all(rows, entries);
    lemma_register_present(once, entries);
}

/// Every path of `entries` is present after registering them.
proof fn lemma_register_keeps_all(
    rows: Seq<(Seq<char>, Seq<usize>)>,
    entries: Seq<(Seq<char>, Seq<usize>)>,
)
    ensures
        forall|k: int| 0 <= k < entries.len() ==> rows_have(register_spec(rows, entries), #[trigger] entries[k].0),
        forall|p: Seq<char>| rows_have(rows, p) ==> rows_have(register_spec(rows, entries), p),
    decreases entries.len(),
{
    if entries.len() > 0 {
        let before = register_spec(rows, entries.drop_last());
        lemma_register_keeps_all(rows, entries.drop_last());
        let after = register_spec(rows, entries);
        assert forall|p: Seq<char>| rows_have(before, p) implies rows_have(after, p) by {
            let i = choose|i: int| 0 <= i < before.len() && before[i].0 == p;
            if !rows_have(before, entries.last().0) {
                assert(after[i] == before[i]);
            }
        }
        assert forall|k: int| 0 <= k < entries.len() implies rows_have(after, #[trigger] entries[k].0) by {
            if k < entries.len() - 1 {
                assert(entries.drop_last()[k] == entries[k]);
                assert(rows_have(before, entries[k].0));
            } else {
                if !rows_have(before, entries.last().0) {
                    assert(after[before.len() as int] == entries.last());
                }
            }
        }
        assert forall|p: Seq<char>| rows_have(rows, p) implies rows_have(after, p) by {
            assert(rows_have(before, p));
        }
    }
}

/// Registering entries whose paths are all present changes nothing.
proof fn lemma_register_present(
    rows: Seq<(Seq<char>, Seq<usize>)>,
    entries: Seq<(Seq<char>, Seq<usize>)>,
)
    requires
        forall|k: int| 0 <= k < entries.len() ==> rows_have(rows, #[trigger] entries[k].0),
    ensures
        register_spec(rows, entries) == rows,
    decreases entries.len(),
{
    if entries.len() > 0 {
        assert forall|k: int| 0 <= k < entries.drop_last().len() implies rows_have(
            rows,
            #[trigger] entries.drop_last()[k].0,
        ) by {
            assert(entries.drop_last()[k] == entries[k]);
        }
        lemma_register_present(rows, entries.drop_last());
        assert(rows_have(rows, entries[entries.len() - 1].0));
    }
}

proof fn lemma_lookup_have(rows: Seq<(Seq<char>, Seq<usize>)>, p: Seq<char>)
    ensures
        rows_lookup(rows, p) is Some <==> rows_have(rows, p),
    decreases rows.len(),
{
    if rows.len() > 0 {
        lemma_lookup_have(rows.drop_first(), p);
        if rows_have(rows.drop_first(), p) {
            let i = choose|i: int| 0 <= i < rows.drop_first().len() && rows.drop_first()[i].0 == p;
            assert(rows[i + 1].0 == p);
        }
        if rows_have(rows, p) && rows[0].0 != p {
            let i = choose|i: int| 0 <= i < rows.len() && rows[i].0 == p;
            assert(rows.drop_first()[i - 1].0 == p);
        }
    }
}

proof fn lemma_lookup_concat(
    a: Seq<(Seq<char>, Seq<usize>)>,
    b: Seq<(Seq<char>, Seq<usize>)>,
    p: Seq<char>,
)
    ensures
        rows_lookup(a + b, p) == if rows_have(a, p) {
            rows_lookup(a, p)
        } else {
            rows_lookup(b, p)
        },
    decreases a.len(),
{
    if a.len() == 0 {
        assert(a + b =~= b);
    } else {
        assert((a + b).drop_first() =~= a.drop_first() + b);
        assert((a + b)[0] == a[0]);
        lemma_lookup_concat(a.drop_first(), b, p);
        if rows_have(a.drop_first(), p) {
            let i = choose|i: int| 0 <= i < a.drop_first().len() && a.drop_first()[i].0 == p;
            assert(a[i + 1].0 == p);
        }
        if rows_have(a, p) && a[0].0 != p {
            let i = choose|i: int| 0 <= i < a.len() && a[i].0 == p;
            assert(a.drop_first()[i - 1].0 == p);
        }
    }
}

/// Layout registration keeps the first row for a path: after registering
/// `entries` on top of `rows`, every path resolves to the chain of its
/// first row in `rows` followed by `entries` (and to none when neither has
/// it). Registering the same table twice changes nothing
/// (`lemma_register_idempotent`).
pub proof fn lemma_register_first_wins(
    rows: Seq<(Seq<char>, Seq<usize>)>,
    entries: Seq<(Seq<char>, Seq<usize>)>,
    p: Seq<char>,
)
    ensures
        rows_lookup(register_spec(rows, entries), p) == rows_lookup(rows + entries, p),
    decreases entries.len(),
{
    if entries.len() == 0 {
        assert(rows + entries =~= rows);
    } else {
        let e1 = entries.drop_last();
        let x = entries.last();
        let before = register_spec(rows, e1);
        lemma_register_first_wins(rows, e1, p);
        lemma_register_first_wins(rows, e1, x.0);
        assert(rows + entries =~= (rows + e1) + seq![x]);
        lemma_lookup_concat(rows + e1, seq![x], p);
        lemma_lookup_concat(before, seq![x], p);
        lemma_lookup_have(before, p);
        lemma_lookup_have(rows + e1, p);
        lemma_lookup_have(before, x.0);
        lemma_lookup_have(rows + e1, x.0);
        assert(seq![x].drop_first() =~= Seq::<(Seq<char>, Seq<usize>)>::empty());
        assert(seq![x][0] == x);
        assert(rows_lookup(seq![x].drop_first(), p) is None);
        assert(rows_lookup(seq![x], p) == if x.0 == p {
            Some(x.1)
        } else {
            None::<Seq<usize>>
        });
        assert(register_spec(rows, entries) == if rows_have(before, x.0) {
            before
        } else {
            before.push(x)
        });
        if !rows_have(before, x.0) {
            assert(before.push(x) =~= before + seq![x]);
        } else {
            assert(rows_have(rows + e1, x.0));
            if !rows_have(rows + e1, p) {
                assert(p != x.0);
            }
        }
    }
}

} // verus!
