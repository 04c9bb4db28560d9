//! Keyed list reconciliation: how a keyed list's DOM children are brought
//! from the previous key order to the new one.
use vstd::prelude::*;

verus! {

/// One DOM step of a keyed update.
#[derive(PartialEq, Eq, Structural, Clone, Copy, Debug)]
pub enum ListOp {
    /// Remove the node of this key from the container.
    Remove(u64),
    /// Move (or first insert) the node of `key` before the node of
    /// `before`, or to the end when there is none.
    Place { key: u64, before: Option<u64> },
}

/// The steps of one keyed update, in the order they are carried out.
pub struct ListPlan {
    /// Nodes whose key disappeared, removed first (previous order).
    pub removals: Vec<u64>,
    /// Positions (in the new list) of the items whose node must be built.
    pub renders: Vec<usize>,
    /// Placements, carried out after the removals, from the last key of the
    /// new order to the first.
    pub places: Vec<ListOp>,
}

/// Keys of `prev` that are gone from `new`, in previous order.
pub open spec fn stale_spec(prev: Seq<u64>, new: Seq<u64>) -> Seq<u64>
    decreases prev.len(),
{
    if prev.len() == 0 {
        Seq::empty()
    } else if new.contains(prev.last()) {
        stale_spec(prev.drop_last(), new)
    } else {
        stale_spec(prev.drop_last(), new).push(prev.last())
    }
}

/// Positions of `new` (below `n`) whose key had no node before.
pub open spec fn renders_spec(prev: Seq<u64>, new: Seq<u64>, n: int) -> Seq<int>
    decreases n,
{
    if n <= 0 {
        Seq::empty()
    } else if prev.contains(new[n - 1]) {
        renders_spec(prev, new, n - 1)
    } else {
        renders_spec(prev, new, n - 1).push(n - 1)
    }
}

/// The placements of an update to `new`, in the order they are carried
/// out: from the last key to the first, each node goes before the node of
/// the key after it, the last one to the end.
pub open spec fn back_places(new: Seq<u64>) -> Seq<ListOp> {
    Seq::new(
        new.len(),
        |i: int|
            ListOp::Place {
                key: new[new.len() - 1 - i],
                before: if i == 0 {
                    None
                } else {
                    Some(new[new.len() - i])
                },
            },
    )
}

fn contains_key(list: &Vec<u64>, k: u64) -> (r: bool)
    ensures
        r == list@.contains(k),
{
    let mut i: usize = 0;
    while i < list.len()
        invariant
            i <= list.len(),
            forall|j: int| 0 <= j < i ==> list@[j] != k,
        decreases list.len() - i,
    {
        if list[i] == k {
            assert(list@[i as int] == k);
            return true;
        }
        i = i + 1;
    }
    false
}

/// Plans one keyed update from key order `prev` to key order `new_keys`:
/// remove the nodes of vanished keys, build nodes for keys that had none,
/// then, from the last key to the first, put each node before the node of
/// the key after it (the last one at the end). With distinct keys this
/// leaves the container holding exactly the nodes of `new_keys`, in order.
pub fn plan_keyed_update(prev: &Vec<u64>, new_keys: &Vec<u64>) -> (r: ListPlan)
    ensures
        r.removals@ == stale_spec(prev@, new_keys@),
        r.renders@.map_values(|i: usize| i as int) == renders_spec(
            prev@,
            new_keys@,
            new_keys@.len() as int,
        ),
        r.places@ == back_places(new_keys@),
        distinct_keys(prev@) && distinct_keys(new_keys@) ==> apply_plan(prev@, new_keys@)
            == new_keys@,
{
    let mut removals: Vec<u64> = Vec::new();
    let mut i: usize = 0;
    while i < prev.len()
        invariant
            i <= prev.len(),
            removals@ == stale_spec(prev@.subrange(0, i as int), new_keys@),
        decreases prev.len() - i,
    {
        let ghost sub = prev@.subrange(0, i as int + 1);
        assert(sub.drop_last() =~= prev@.subrange(0, i as int));
        assert(sub.last() == prev@[i as int]);
        if !contains_key(new_keys, prev[i]) {
            removals.push(prev[i]);
        }
        i = i + 1;
    }
    assert(prev@.subrange(0, prev.len() as int) =~= prev@);
    let mut renders: Vec<usize> = Vec::new();
    let mut idx: usize = 0;
    while idx < new_keys.len()
        invariant
            idx <= new_keys.len(),
            renders@.map_values(|i: usize| i as int) == renders_spec(prev@, new_keys@, idx as int),
        decreases new_keys.len() - idx,
    {
        if !contains_key(prev, new_keys[idx]) {
            let ghost before = renders@;
            renders.push(idx);
            assert(renders@.map_values(|i: usize| i as int) =~= before.map_values(
                |i: usize| i as int,
            ).push(idx as int));
        }
        idx = idx + 1;
    }
    let n = new_keys.len();
    let ghost want = back_places(new_keys@);
    let mut places: Vec<ListOp> = Vec::new();
    let mut k: usize = n;
    while k > 0
        invariant
            k <= n,
            n == new_keys.len(),
            want == back_places(new_keys@),
            places@ == want.take((n - k) as int),
        decreases k,
    {
        let before = if k < n {
            Some(new_keys[k])
        } else {
            None
        };
        places.push(ListOp::Place { key: new_keys[k - 1], before });
        proof {
            let m = (n - k) as int;
            assert(want[m] == ListOp::Place { key: new_keys@[k - 1], before });
            assert(places@ =~= want.take(m + 1));
        }
        k = k - 1;
    }
    assert(want.take(n as int) =~= want);
    proof {
        if distinct_keys(prev@) && distinct_keys(new_keys@) {
            lemma_keyed_update_reaches_new(prev@, new_keys@);
        }
    }
    ListPlan { removals, renders, places }
}


// A model of the container: the keys of its child nodes, in DOM order.

pub open spec fn distinct_keys(s: Seq<u64>) -> bool {
    forall|i: int, j: int| 0 <= i < j < s.len() ==> s[i] != s[j]
}

/// `s` without key `k`.
pub open spec fn without(s: Seq<u64>, k: u64) -> Seq<u64>
    decreases s.len(),
{
    if s.len() == 0 {
        s
    } else if s.last() == k {
        without(s.drop_last(), k)
    } else {
        without(s.drop_last(), k).push(s.last())
    }
}

/// The keys of `s` that `keep` contains, in order.
pub open spec fn keep_if_in(s: Seq<u64>, keep: Seq<u64>) -> Seq<u64>
    decreases s.len(),
{
    if s.len() == 0 {
        s
    } else if keep.contains(s.last()) {
        keep_if_in(s.drop_last(), keep).push(s.last())
    } else {
        keep_if_in(s.drop_last(), keep)
    }
}

/// The keys of `s` that `gone` does not contain, in order.
pub open spec fn drop_listed(s: Seq<u64>, gone: Seq<u64>) -> Seq<u64>
    decreases s.len(),
{
    if s.len() == 0 {
        s
    } else if gone.contains(s.last()) {
        drop_listed(s.drop_last(), gone)
    } else {
        drop_listed(s.drop_last(), gone).push(s.last())
    }
}

pub open spec fn position_of(c: Seq<u64>, b: u64) -> int {
    choose|i: int| 0 <= i < c.len() && c[i] == b
}

/// A placement in the container: the node of `key` is taken out and put
/// back before the node of `before` (or at the end).
pub open spec fn place(s: Seq<u64>, key: u64, before: Option<u64>) -> Seq<u64> {
    let c = without(s, key);
    match before {
        Some(b) => if c.contains(b) {
            c.insert(position_of(c, b), key)
        } else {
            c.push(key)
        },
        None => c.push(key),
    }
}

/// The container after the placements `ops`, in order.
pub open spec fn apply_places(s: Seq<u64>, ops: Seq<ListOp>) -> Seq<u64>
    decreases ops.len(),
{
    if ops.len() == 0 {
        s
    } else {
        let c = apply_places(s, ops.drop_last());
        match ops.last() {
            ListOp::Place { key, before } => place(c, key, before),
            ListOp::Remove(k) => without(c, k),
        }
    }
}

/// The container after a keyed update from `prev` to `new`, starting from
/// the children of `prev`.
pub open spec fn apply_plan(prev: Seq<u64>, new: Seq<u64>) -> Seq<u64> {
    apply_places(drop_listed(prev, stale_spec(prev, new)), back_places(new))
}

proof fn lemma_without_absent(s: Seq<u64>, k: u64)
    requires
        !s.contains(k),
    ensures
        without(s, k) == s,
    decreases s.len(),
{
    if s.len() > 0 {
        assert(!s.drop_last().contains(k)) by {
            if s.drop_last().contains(k) {
                let i = choose|i: int| 0 <= i < s.drop_last().len() && s.drop_last()[i] == k;
                assert(s[i] == k);
            }
        }
        assert(s.last() != k) by {
            if s.last() == k {
                assert(s[s.len() - 1] == k);
            }
        }
        lemma_without_absent(s.drop_last(), k);
        assert(s.drop_last().push(s.last()) =~= s);
    }
}

proof fn lemma_without_at(s: Seq<u64>, i: int)
    requires
        distinct_keys(s),
        0 <= i < s.len(),
    ensures
        without(s, s[i]) == s.remove(i),
    decreases s.len(),
{
    if i == s.len() - 1 {
        assert(!s.drop_last().contains(s[i])) by {
            if s.drop_last().contains(s[i]) {
                let j = choose|j: int| 0 <= j < s.drop_last().len() && s.drop_last()[j] == s[i];
                assert(s[j] == s[i]);
            }
        }
        lemma_without_absent(s.drop_last(), s[i]);
        assert(s.remove(i) =~= s.drop_last());
    } else {
        assert(s.drop_last()[i] == s[i]);
        assert(distinct_keys(s.drop_last()));
        lemma_without_at(s.drop_last(), i);
        assert(s.last() != s[i]);
        assert(s.drop_last().remove(i).push(s.last()) =~= s.remove(i));
    }
}

proof fn lemma_position_of(c: Seq<u64>, j: int)
    requires
        distinct_keys(c),
        0 <= j < c.len(),
    ensures
        c.contains(c[j]),
        position_of(c, c[j]) == j,
{
    assert(c[j] == c[j]);
    let p = position_of(c, c[j]);
    assert(0 <= p < c.len() && c[p] == c[j]);
}

proof fn lemma_stale_members(prev: Seq<u64>, new: Seq<u64>, x: u64)
    ensures
        stale_spec(prev, new).contains(x) <==> (prev.contains(x) && !new.contains(x)),
    decreases prev.len(),
{
    if prev.len() > 0 {
        lemma_stale_members(prev.drop_last(), new, x);
        let st = stale_spec(prev.drop_last(), new);
        assert(prev.contains(x) <==> (prev.drop_last().contains(x) || prev.last() == x)) by {
            if prev.contains(x) {
                let i = choose|i: int| 0 <= i < prev.len() && prev[i] == x;
                if i < prev.len() - 1 {
                    assert(prev.drop_last()[i] == x);
                }
            }
            if prev.drop_last().contains(x) {
                let i = choose|i: int| 0 <= i < prev.drop_last().len() && prev.drop_last()[i] == x;
                assert(prev[i] == x);
            }
        }
        if !new.contains(prev.last()) {
            assert(st.push(prev.last()).contains(x) <==> (st.contains(x) || prev.last() == x)) by {
                if st.push(prev.last()).contains(x) {
                    let i = choose|i: int| 0 <= i < st.push(prev.last()).len() && st.push(prev.last())[i] == x;
                    if i < st.len() {
                        assert(st[i] == x);
                    }
                }
                if st.contains(x) {
                    let i = choose|i: int| 0 <= i < st.len() && st[i] == x;
                    assert(st.push(prev.last())[i] == x);
                }
                if prev.last() == x {
                    assert(st.push(prev.last())[st.len() as int] == x);
                }
            }
        }
    }
}

proof fn lemma_drop_stale(p: Seq<u64>, prev: Seq<u64>, new: Seq<u64>)
    requires
        forall|k: u64| p.contains(k) ==> #[trigger] prev.contains(k),
    ensures
        drop_listed(p, stale_spec(prev, new)) == keep_if_in(p, new),
    decreases p.len(),
{
    if p.len() > 0 {
        assert forall|k: u64| p.drop_last().contains(k) implies #[trigger] prev.contains(k) by {
            let i = choose|i: int| 0 <= i < p.drop_last().len() && p.drop_last()[i] == k;
            assert(p[i] == k);
        }
        lemma_drop_stale(p.drop_last(), prev, new);
        assert(p.contains(p.last())) by {
            assert(p[p.len() - 1] == p.last());
        }
        lemma_stale_members(prev, new, p.last());
    }
}

proof fn lemma_keep_subset(s: Seq<u64>, keep: Seq<u64>, k: u64)
    requires
        keep_if_in(s, keep).contains(k),
    ensures
        s.contains(k),
    decreases s.len(),
{
    if s.len() > 0 {
        let r = keep_if_in(s.drop_last(), keep);
        if keep.contains(s.last()) {
            let i = choose|i: int| 0 <= i < r.push(s.last()).len() && r.push(s.last())[i] == k;
            if i < r.len() {
                assert(r[i] == k);
                lemma_keep_subset(s.drop_last(), keep, k);
                let j = choose|j: int| 0 <= j < s.drop_last().len() && s.drop_last()[j] == k;
                assert(s[j] == k);
            } else {
                assert(s[s.len() - 1] == k);
            }
        } else {
            lemma_keep_subset(s.drop_last(), keep, k);
            let j = choose|j: int| 0 <= j < s.drop_last().len() && s.drop_last()[j] == k;
            assert(s[j] == k);
        }
    }
}

proof fn lemma_keep_props(s: Seq<u64>, keep: Seq<u64>)
    requires
        distinct_keys(s),
    ensures
        distinct_keys(keep_if_in(s, keep)),
        forall|k: u64| #[trigger] keep_if_in(s, keep).contains(k) ==> keep.contains(k),
    decreases s.len(),
{
    if s.len() > 0 {
        let r = keep_if_in(s.drop_last(), keep);
        assert(distinct_keys(s.drop_last()));
        lemma_keep_props(s.drop_last(), keep);
        if keep.contains(s.last()) {
            let x = s.last();
            assert(!r.contains(x)) by {
                if r.contains(x) {
                    lemma_keep_subset(s.drop_last(), keep, x);
                    let j = choose|j: int| 0 <= j < s.drop_last().len() && s.drop_last()[j] == x;
                    assert(s[j] == s[s.len() - 1]);
                }
            }
            let t = r.push(x);
            assert forall|a: int, b: int| 0 <= a < b < t.len() implies t[a] != t[b] by {
                if b == r.len() {
                    assert(r.contains(t[a]));
                }
            }
            assert forall|k: u64| #[trigger] t.contains(k) implies keep.contains(k) by {
                let i = choose|i: int| 0 <= i < t.len() && t[i] == k;
                if i < r.len() {
                    assert(r.contains(k));
                }
            }
        }
    }
}

/// Taking the node of `key` out of a container whose last `m` nodes differ
/// from it keeps those nodes last, and keeps the keys distinct.
proof fn lemma_take_out(c: Seq<u64>, new: Seq<u64>, key: u64, m: int)
    requires
        distinct_keys(c),
        0 <= m <= c.len(),
        forall|j: int| c.len() - m <= j < c.len() ==> c[j] != key,
        forall|k: u64| #[trigger] c.contains(k) ==> new.contains(k),
    ensures
        ({
            let c1 = without(c, key);
            &&& distinct_keys(c1)
            &&& c1.len() >= m
            &&& c1.subrange(c1.len() - m, c1.len() as int) == c.subrange(c.len() - m, c.len() as int)
            &&& forall|k: u64| #[trigger] c1.contains(k) ==> new.contains(k) && k != key
        }),
{
    let c1 = without(c, key);
    if c.contains(key) {
        let i = choose|i: int| 0 <= i < c.len() && c[i] == key;
        lemma_without_at(c, i);
        assert(i < c.len() - m);
        assert(c1 == c.remove(i));
        assert(c1.subrange(c1.len() - m, c1.len() as int) =~= c.subrange(c.len() - m, c.len() as int));
        assert forall|a: int, b: int| 0 <= a < b < c1.len() implies c1[a] != c1[b] by {
            let pa = if a < i { a } else { a + 1 };
            let pb = if b < i { b } else { b + 1 };
            assert(c1[a] == c[pa] && c1[b] == c[pb]);
        }
        assert forall|k: u64| #[trigger] c1.contains(k) implies new.contains(k) && k != key by {
            let j = choose|j: int| 0 <= j < c1.len() && c1[j] == k;
            let pj = if j < i { j } else { j + 1 };
            assert(c[pj] == k);
            assert(c.contains(k));
        }
    } else {
        lemma_without_absent(c, key);
        assert forall|k: u64| #[trigger] c1.contains(k) implies new.contains(k) && k != key by {}
    }
}

/// One placement toward `new`: if the last `m - 1` nodes are the last
/// `m - 1` keys of `new`, placing the key before them makes the last `m`.
#[verifier::rlimit(40)]
proof fn lemma_back_step(c: Seq<u64>, new: Seq<u64>, m: int, before: Option<u64>)
    requires
        m == 1 ==> before is None,
        m > 1 ==> before == Some(new[new.len() - m + 1]),
        distinct_keys(c),
        distinct_keys(new),
        1 <= m <= new.len(),
        c.len() >= m - 1,
        c.subrange(c.len() - (m - 1), c.len() as int) == new.subrange(new.len() - (m - 1), new.len() as int),
        forall|k: u64| #[trigger] c.contains(k) ==> new.contains(k),
    ensures
        ({
            let c2 = place(c, new[new.len() - m], before);
            &&& distinct_keys(c2)
            &&& c2.len() >= m
            &&& c2.subrange(c2.len() - m, c2.len() as int) == new.subrange(new.len() - m, new.len() as int)
            &&& forall|k: u64| #[trigger] c2.contains(k) ==> new.contains(k)
        }),
{
    let n = new.len() as int;
    let key = new[n - m];
    let sfx = c.len() - (m - 1);
    assert forall|j: int| sfx <= j < c.len() implies c[j] != key by {
        assert(c.subrange(sfx, c.len() as int)[j - sfx] == c[j]);
        assert(new.subrange(n - (m - 1), n)[j - sfx] == new[n - (m - 1) + (j - sfx)]);
    }
    lemma_take_out(c, new, key, m - 1);
    let c1 = without(c, key);
    assert(!c1.contains(key));
    if m == 1 {
        let c2 = c1.push(key);
        assert(place(c, key, None) == c2);
        assert(c2.subrange(c2.len() - 1, c2.len() as int) =~= new.subrange(n - 1, n));
        assert forall|a: int, b: int| 0 <= a < b < c2.len() implies c2[a] != c2[b] by {
            if b == c1.len() {
                assert(c1.contains(c2[a]));
            }
        }
        assert forall|k: u64| #[trigger] c2.contains(k) implies new.contains(k) by {
            let j = choose|j: int| 0 <= j < c2.len() && c2[j] == k;
            if j < c1.len() {
                assert(c1.contains(k));
            }
        }
    } else {
        let b = new[n - m + 1];
        let p = c1.len() - (m - 1);
        assert(c1.subrange(p, c1.len() as int)[0] == c1[p]);
        assert(new.subrange(n - (m - 1), n)[0] == b);
        assert(c1[p] == b);
        lemma_position_of(c1, p);
        let c2 = c1.insert(p, key);
        assert(place(c, key, Some(b)) == c2);
        assert(c2.subrange(c2.len() - m, c2.len() as int) =~= seq![key] + c1.subrange(p, c1.len() as int));
        assert(new.subrange(n - m, n) =~= seq![key] + new.subrange(n - (m - 1), n));
        assert forall|a: int, b2: int| 0 <= a < b2 < c2.len() implies c2[a] != c2[b2] by {
            if a == p {
                assert(c2[b2] == c1[b2 - 1]);
                assert(c1.contains(c1[b2 - 1]));
            } else if b2 == p {
                assert(c2[a] == c1[a]);
                assert(c1.contains(c1[a]));
            } else {
                let pa = if a < p { a } else { a - 1 };
                let pb = if b2 < p { b2 } else { b2 - 1 };
                assert(c2[a] == c1[pa] && c2[b2] == c1[pb]);
            }
        }
        assert forall|k: u64| #[trigger] c2.contains(k) implies new.contains(k) by {
            let j = choose|j: int| 0 <= j < c2.len() && c2[j] == k;
            if j < p {
                assert(c2[j] == c1[j]);
                assert(c1.contains(k));
            } else if j > p {
                assert(c2[j] == c1[j - 1]);
                assert(c1.contains(k));
            }
        }
    }
}

/// The container after the first `m` placements toward `new`: its last `m`
/// nodes are the last `m` keys of `new`, it holds no key twice, and only
/// keys of `new`.
proof fn lemma_back_steps(c0: Seq<u64>, new: Seq<u64>, m: int)
    requires
        distinct_keys(c0),
        distinct_keys(new),
        forall|k: u64| #[trigger] c0.contains(k) ==> new.contains(k),
        0 <= m <= new.len(),
    ensures
        ({
            let c = apply_places(c0, back_places(new).take(m));
            &&& distinct_keys(c)
            &&& c.len() >= m
            &&& c.subrange(c.len() - m, c.len() as int) == new.subrange(new.len() - m, new.len() as int)
            &&& forall|k: u64| #[trigger] c.contains(k) ==> new.contains(k)
        }),
    decreases m,
{
    let n = new.len() as int;
    if m == 0 {
        assert(back_places(new).take(0) =~= Seq::<ListOp>::empty());
        assert(c0.subrange(c0.len() as int, c0.len() as int) =~= new.subrange(n, n));
    } else {
        lemma_back_steps(c0, new, m - 1);
        let ops = back_places(new).take(m);
        assert(ops.drop_last() =~= back_places(new).take(m - 1));
        let before: Option<u64> = if m == 1 {
            None
        } else {
            Some(new[n - m + 1])
        };
        assert(ops.last() == back_places(new)[m - 1]);
        assert(ops.last() == ListOp::Place { key: new[n - m], before });
        let c = apply_places(c0, back_places(new).take(m - 1));
        assert(apply_places(c0, ops) == place(c, new[n - m], before));
        lemma_back_step(c, new, m, before);
    }
}

/// A keyed update reaches the new order: with distinct keys before and
/// after, removing the vanished nodes and carrying out the placements
/// leaves the container holding exactly the nodes of `new`, in order.
pub proof fn lemma_keyed_update_reaches_new(prev: Seq<u64>, new: Seq<u64>)
    requires
        distinct_keys(prev),
        distinct_keys(new),
    ensures
        apply_plan(prev, new) == new,
{
    assert forall|k: u64| prev.contains(k) implies #[trigger] prev.contains(k) by {}
    lemma_drop_stale(prev, prev, new);
    let c0 = keep_if_in(prev, new);
    lemma_keep_props(prev, new);
    let n = new.len() as int;
    lemma_back_steps(c0, new, n);
    assert(back_places(new).take(n) =~= back_places(new));
    let c = apply_places(c0, back_places(new));
    assert(new.subrange(0, n) =~= new);
    if c.len() > n {
        let d = c.len() - n;
        assert(c.contains(c[0]));
        assert(new.contains(c[0]));
        let j = choose|j: int| 0 <= j < n && new[j] == c[0];
        assert(c.subrange(d, c.len() as int)[j] == c[d + j]);
        assert(c[d + j] == new[j]);
    }
    assert(c =~= c.subrange(0, c.len() as int));
    assert(c.subrange(c.len() - n, c.len() as int) == c);
}

/// Every new key gets its node built exactly once, and no surviving key
/// gets one: position `i` of `new` is rendered when its key had no node.
pub proof fn lemma_renders_exactly_new_keys(prev: Seq<u64>, new: Seq<u64>, i: int)
    requires
        0 <= i < new.len(),
    ensures
        renders_spec(prev, new, new.len() as int).contains(i) <==> !prev.contains(new[i]),
{
    lemma_renders_members(prev, new, new.len() as int, i);
}

proof fn lemma_renders_members(prev: Seq<u64>, new: Seq<u64>, n: int, i: int)
    requires
        0 <= i,
        n <= new.len(),
    ensures
        renders_spec(prev, new, n).contains(i) <==> (i < n && !prev.contains(new[i])),
    decreases n,
{
    if n > 0 {
        lemma_renders_members(prev, new, n - 1, i);
        let r = renders_spec(prev, new, n - 1);
        lemma_renders_bound(prev, new, n - 1);
        if !prev.contains(new[n - 1]) {
            let t = r.push(n - 1);
            if t.contains(i) {
                let j = choose|j: int| 0 <= j < t.len() && t[j] == i;
                if j < r.len() {
                    assert(r.contains(i));
                }
            }
            if r.contains(i) {
                let j = choose|j: int| 0 <= j < r.len() && r[j] == i;
                assert(t[j] == i);
            }
            if i == n - 1 {
                assert(t[r.len() as int] == i);
            }
        } else {
            if r.contains(i) {
                let j = choose|j: int| 0 <= j < r.len() && r[j] == i;
                assert(r[j] < n - 1);
            }
        }
    } else {
        if renders_spec(prev, new, n).contains(i) {
            assert(renders_spec(prev, new, n).len() == 0);
        }
    }
}

proof fn lemma_renders_bound(prev: Seq<u64>, new: Seq<u64>, n: int)
    ensures
        forall|j: int| 0 <= j < renders_spec(prev, new, n).len() ==> #[trigger] renders_spec(prev, new, n)[j] < n,
    decreases n,
{
    if n > 0 {
        lemma_renders_bound(prev, new, n - 1);
        let r = renders_spec(prev, new, n - 1);
        if !prev.contains(new[n - 1]) {
            assert forall|j: int| 0 <= j < r.push(n - 1).len() implies #[trigger] r.push(n - 1)[j] < n by {
                if j < r.len() {
                    assert(r[j] < n - 1);
                }
            }
        }
    }
}

} // verus!
