//! The reactivity engine's bookkeeping: signal values, which effects
//! subscribe to which signals, the queue of effects due to re-run, batching
//! and disposal. Running an effect's body is the caller's part: the engine
//! says which effect runs next and tracks the reads it makes meanwhile.
use vstd::prelude::*;

verus! {

/// Identity of an effect; ids are handed out as 1, 2, 3, ...
#[derive(Clone, Copy, PartialEq, Eq, Structural, Debug, Hash)]
pub struct EffectId(pub usize);

/// Identity of a signal: its index in creation order.
#[derive(Clone, Copy, PartialEq, Eq, Structural, Debug, Hash)]
pub struct SignalId(pub usize);

/// The engine's state as mathematical values.
pub struct RuntimeView<V> {
    /// Current value of each signal.
    pub values: Seq<V>,
    /// Effects subscribed to each signal, in subscription order.
    pub subs: Seq<Seq<EffectId>>,
    /// For effect id `k`, entry `k - 1` says whether it was disposed.
    pub disposed: Seq<bool>,
    /// The effect whose body is running, if any.
    pub active: Option<EffectId>,
    /// Effects queued to re-run, in queue order.
    pub pending: Seq<EffectId>,
    /// Nesting depth of `batch` calls.
    pub depth: nat,
}

/// The reactivity engine.
pub struct Runtime<V> {
    values: Vec<V>,
    subs: Vec<Vec<EffectId>>,
    disposed: Vec<bool>,
    active: Option<EffectId>,
    pending: Vec<EffectId>,
    depth: usize,
}

impl<V> View for Runtime<V> {
    type V = RuntimeView<V>;

    closed spec fn view(&self) -> RuntimeView<V> {
        RuntimeView {
            values: self.values@,
            subs: self.subs@.map_values(|l: Vec<EffectId>| l@),
            disposed: self.disposed@,
            active: self.active,
            pending: self.pending@,
            depth: self.depth as nat,
        }
    }
}

/// `e` was created by the engine.
pub open spec fn registered(disposed: Seq<bool>, e: EffectId) -> bool {
    1 <= e.0 <= disposed.len()
}

/// `e` was created and not yet disposed.
pub open spec fn live(disposed: Seq<bool>, e: EffectId) -> bool {
    registered(disposed, e) && !disposed[e.0 - 1]
}

pub open spec fn distinct(s: Seq<EffectId>) -> bool {
    forall|i: int, j: int| 0 <= i < j < s.len() ==> s[i] != s[j]
}

pub open spec fn all_registered(s: Seq<EffectId>, disposed: Seq<bool>) -> bool {
    forall|i: int| 0 <= i < s.len() ==> registered(disposed, #[trigger] s[i])
}

/// Well-formedness: one subscriber list per signal, subscriber lists and
/// the queue hold each registered effect at most once, and the running
/// effect is a registered one.
pub open spec fn view_wf<V>(v: RuntimeView<V>) -> bool {
    &&& v.values.len() == v.subs.len()
    &&& forall|s: int|
        0 <= s < v.subs.len() ==> distinct(#[trigger] v.subs[s]) && all_registered(
            v.subs[s],
            v.disposed,
        )
    &&& distinct(v.pending)
    &&& all_registered(v.pending, v.disposed)
    &&& (v.active matches Some(e) ==> registered(v.disposed, e))
}

/// Reading signal `s` subscribes the running effect to it (once), provided
/// that effect is live.
pub open spec fn track_spec<V>(v: RuntimeView<V>, s: int) -> RuntimeView<V> {
    if v.active is Some && live(v.disposed, v.active->0) && !v.subs[s].contains(v.active->0) {
        RuntimeView { subs: v.subs.update(s, v.subs[s].push(v.active->0)), ..v }
    } else {
        v
    }
}

/// `acc` extended by the effects of `list`, in order, that are live and not
/// already present.
pub open spec fn queue_add(acc: Seq<EffectId>, list: Seq<EffectId>, disposed: Seq<bool>) -> Seq<
    EffectId,
>
    decreases list.len(),
{
    if list.len() == 0 {
        acc
    } else {
        let a = queue_add(acc, list.drop_last(), disposed);
        let e = list.last();
        if live(disposed, e) && !a.contains(e) {
            a.push(e)
        } else {
            a
        }
    }
}

/// A change of signal `s` queues its live subscribers that are not queued
/// yet.
pub open spec fn notify_spec<V>(v: RuntimeView<V>, s: int) -> RuntimeView<V> {
    RuntimeView { pending: queue_add(v.pending, v.subs[s], v.disposed), ..v }
}

/// Draining the queue: it empties, and the effects to run are its live
/// entries, each once, in queue order.
pub open spec fn take_spec<V>(v: RuntimeView<V>) -> (RuntimeView<V>, Seq<EffectId>) {
    (RuntimeView { pending: Seq::empty(), ..v }, queue_add(Seq::empty(), v.pending, v.disposed))
}

/// Disposing `e`: marks it disposed; the flag says its cleanup is due (it was
/// live until now).
pub open spec fn dispose_spec<V>(v: RuntimeView<V>, e: EffectId) -> (RuntimeView<V>, bool) {
    if !v.disposed[e.0 - 1] {
        (RuntimeView { disposed: v.disposed.update(e.0 - 1, true), ..v }, true)
    } else {
        (v, false)
    }
}

/// Entering a `batch`: one level deeper; the flag says this is the
/// outermost batch.
pub open spec fn batch_enter_spec<V>(v: RuntimeView<V>) -> (RuntimeView<V>, bool) {
    (RuntimeView { depth: v.depth + 1, ..v }, v.depth + 1 == 1)
}

/// Leaving a `batch`: one level up; the flag says the outermost batch ended,
/// so the queue is due to be flushed.
pub open spec fn batch_exit_spec<V>(v: RuntimeView<V>) -> (RuntimeView<V>, bool) {
    (RuntimeView { depth: (v.depth - 1) as nat, ..v }, v.depth - 1 == 0)
}

fn copy_ids(list: &Vec<EffectId>) -> (r: Vec<EffectId>)
    ensures
        r@ == list@,
{
    let mut out: Vec<EffectId> = Vec::new();
    let mut i: usize = 0;
    while i < list.len()
        invariant
            i <= list.len(),
            out@ == list@.subrange(0, i as int),
        decreases list.len() - i,
    {
        out.push(list[i]);
        assert(out@ =~= list@.subrange(0, i as int + 1));
        i = i + 1;
    }
    assert(list@.subrange(0, list.len() as int) =~= list@);
    out
}

fn contains_id(list: &Vec<EffectId>, e: EffectId) -> (r: bool)
    ensures
        r == list@.contains(e),
{
    let mut i: usize = 0;
    while i < list.len()
        invariant
            i <= list.len(),
            forall|j: int| 0 <= j < i ==> list@[j] != e,
        decreases list.len() - i,
    {
        if list[i] == e {
            assert(list@[i as int] == e);
            return true;
        }
        i = i + 1;
    }
    false
}

proof fn lemma_queue_add_props(acc: Seq<EffectId>, list: Seq<EffectId>, disposed: Seq<bool>)
    requires
        distinct(acc),
        all_registered(acc, disposed),
        all_registered(list, disposed),
    ensures
        distinct(queue_add(acc, list, disposed)),
        all_registered(queue_add(acc, list, disposed), disposed),
        queue_add(acc, list, disposed).len() >= acc.len(),
        queue_add(acc, list, disposed).subrange(0, acc.len() as int) == acc,
    decreases list.len(),
{
    if list.len() > 0 {
        assert(all_registered(list.drop_last(), disposed)) by {
            assert forall|i: int| 0 <= i < list.drop_last().len() implies registered(
                disposed,
                #[trigger] list.drop_last()[i],
            ) by {
                assert(list.drop_last()[i] == list[i]);
            }
        }
        lemma_queue_add_props(acc, list.drop_last(), disposed);
        let a = queue_add(acc, list.drop_last(), disposed);
        let e = list.last();
        if live(disposed, e) && !a.contains(e) {
            assert forall|i: int, j: int| 0 <= i < j < a.push(e).len() implies a.push(e)[i] != a.push(
                e,
            )[j] by {
                if j == a.len() {
                    assert(a.push(e)[i] == a[i]);
                    assert(a.contains(a[i]));
                }
            }
            assert(a.push(e).subrange(0, acc.len() as int) =~= a.subrange(0, acc.len() as int));
        }
    }
}

proof fn lemma_queue_add_step(acc: Seq<EffectId>, list: Seq<EffectId>, disposed: Seq<bool>, k: int)
    requires
        0 <= k < list.len(),
    ensures
        queue_add(acc, list.subrange(0, k + 1), disposed) == ({
            let a = queue_add(acc, list.subrange(0, k), disposed);
            if live(disposed, list[k]) && !a.contains(list[k]) {
                a.push(list[k])
            } else {
                a
            }
        }),
{
    assert(list.subrange(0, k + 1).drop_last() =~= list.subrange(0, k));
    assert(list.subrange(0, k + 1).last() == list[k]);
}

impl<V> Runtime<V> {
    /// The engine's state is well formed (see `view_wf`).
    pub open spec fn wf(&self) -> bool {
        view_wf(self@)
    }

    /// An engine with no signals and no effects.
    pub fn new() -> (r: Runtime<V>)
        ensures
            r.wf(),
            r@ == (RuntimeView::<V> {
                values: Seq::empty(),
                subs: Seq::empty(),
                disposed: Seq::empty(),
                active: None,
                pending: Seq::empty(),
                depth: 0,
            }),
    {
        let r = Runtime {
            values: Vec::new(),
            subs: Vec::new(),
            disposed: Vec::new(),
            active: None,
            pending: Vec::new(),
            depth: 0,
        };
        assert(r@.subs =~= Seq::<Seq<EffectId>>::empty());
        assert(r@.values =~= Seq::<V>::empty());
        assert(r@.disposed =~= Seq::<bool>::empty());
        assert(r@.pending =~= Seq::<EffectId>::empty());
        r
    }

    /// Creates a signal holding `value`; no effect subscribes to it yet.
    pub fn create_signal(&mut self, value: V) -> (s: SignalId)
        requires
            old(self).wf(),
        ensures
            final(self).wf(),
            s.0 == old(self)@.values.len(),
            final(self)@ == (RuntimeView {
                values: old(self)@.values.push(value),
                subs: old(self)@.subs.push(Seq::empty()),
                ..old(self)@
            }),
    {
        let s = SignalId(self.values.len());
        self.values.push(value);
        self.subs.push(Vec::new());
        assert(self@.subs =~= old(self)@.subs.push(Seq::empty()));
        proof {
            let v = self@;
            assert forall|k: int| 0 <= k < v.subs.len() implies distinct(#[trigger] v.subs[k])
                && all_registered(v.subs[k], v.disposed) by {
                if k < old(self)@.subs.len() {
                    assert(v.subs[k] == old(self)@.subs[k]);
                }
            }
        }
        s
    }

    /// The current value of signal `s` (no subscription).
    pub fn value(&self, s: SignalId) -> (r: &V)
        requires
            s.0 < self@.values.len(),
        ensures
            *r == self@.values[s.0 as int],
    {
        &self.values[s.0]
    }

    /// Mutable access to the value of `s`, for in-place updates; the
    /// caller notifies subscribers afterwards (see `notify`).
    pub fn value_mut(&mut self, s: SignalId) -> (r: &mut V)
        requires
            old(self).wf(),
            s.0 < old(self)@.values.len(),
        ensures
            *r == old(self)@.values[s.0 as int],
            final(self)@ == (RuntimeView {
                values: old(self)@.values.update(s.0 as int, *final(r)),
                ..old(self)@
            }),
            final(self).wf(),
    {
        &mut self.values[s.0]
    }

    /// Records a read of signal `s`: the running effect, when live,
    /// becomes a subscriber of `s` (at most once).
    pub fn track(&mut self, s: SignalId)
        requires
            old(self).wf(),
            s.0 < old(self)@.values.len(),
        ensures
            final(self).wf(),
            final(self)@ == track_spec(old(self)@, s.0 as int),
    {
        if let Some(e) = self.active {
            if 1 <= e.0 && e.0 <= self.disposed.len() && !self.disposed[e.0 - 1] {
                let present = contains_id(&self.subs[s.0], e);
                if !present {
                    let ghost before = self@;
                    let mut list = copy_ids(&self.subs[s.0]);
                    list.push(e);
                    self.subs.set(s.0, list);
                    proof {
                        let v = self@;
                        assert(v.subs =~= before.subs.update(s.0 as int, before.subs[s.0 as int].push(e)));
                        assert forall|k: int| 0 <= k < v.subs.len() implies distinct(#[trigger] v.subs[k])
                            && all_registered(v.subs[k], v.disposed) by {
                            if k == s.0 {
                                let l = before.subs[k];
                                assert forall|i: int, j: int| 0 <= i < j < l.push(e).len() implies l.push(
                                    e,
                                )[i] != l.push(e)[j] by {
                                    if j == l.len() {
                                        assert(l.push(e)[i] == l[i]);
                                        assert(l.contains(l[i]));
                                    }
                                }
                            } else {
                                assert(v.subs[k] == before.subs[k]);
                            }
                        }
                    }
                    return;
                }
            }
        }
    }

    /// Queues the live subscribers of `s` that are not queued yet; the flag
    /// says the queue is due to be flushed now (no batch is open).
    pub fn notify(&mut self, s: SignalId) -> (flush_now: bool)
        requires
            old(self).wf(),
            s.0 < old(self)@.values.len(),
        ensures
            final(self).wf(),
            final(self)@ == notify_spec(old(self)@, s.0 as int),
            flush_now == (old(self)@.depth == 0),
    {
        let ghost v0 = self@;
        let n = self.subs[s.0].len();
        let mut i: usize = 0;
        while i < n
            invariant
                i <= n,
                view_wf(v0),
                n == v0.subs[s.0 as int].len(),
                s.0 < v0.subs.len(),
                self.subs@.map_values(|l: Vec<EffectId>| l@) == v0.subs,
                self.values@ == v0.values,
                self.disposed@ == v0.disposed,
                self.active == v0.active,
                self.depth == v0.depth,
                self.pending@ == queue_add(
                    v0.pending,
                    v0.subs[s.0 as int].subrange(0, i as int),
                    v0.disposed,
                ),
            decreases n - i,
        {
            proof {
                lemma_queue_add_step(v0.pending, v0.subs[s.0 as int], v0.disposed, i as int);
                assert(self.subs@[s.0 as int]@ == v0.subs[s.0 as int]);
            }
            let e = self.subs[s.0][i];
            if 1 <= e.0 && e.0 <= self.disposed.len() && !self.disposed[e.0 - 1] {
                if !contains_id(&self.pending, e) {
                    self.pending.push(e);
                }
            }
            i = i + 1;
        }
        proof {
            assert(v0.subs[s.0 as int].subrange(0, n as int) =~= v0.subs[s.0 as int]);
            lemma_queue_add_props(v0.pending, v0.subs[s.0 as int], v0.disposed);
            assert(self@.subs == v0.subs);
        }
        self.depth == 0
    }

    /// Replaces the value of `s` and notifies its subscribers (see
    /// `notify`).
    pub fn set(&mut self, s: SignalId, value: V) -> (flush_now: bool)
        requires
            old(self).wf(),
            s.0 < old(self)@.values.len(),
        ensures
            final(self).wf(),
            final(self)@ == notify_spec(
                RuntimeView { values: old(self)@.values.update(s.0 as int, value), ..old(self)@ },
                s.0 as int,
            ),
            flush_now == (old(self)@.depth == 0),
    {
        self.values.set(s.0, value);
        self.notify(s)
    }

    /// Drains the queue, returning the effects to run now: its live
    /// entries, each once, in queue order.
    pub fn take_pending(&mut self) -> (runs: Vec<EffectId>)
        requires
            old(self).wf(),
        ensures
            final(self).wf(),
            (final(self)@, runs@) == take_spec(old(self)@),
    {
        let mut queued: Vec<EffectId> = Vec::new();
        std::mem::swap(&mut queued, &mut self.pending);
        let ghost v0 = old(self)@;
        let mut out: Vec<EffectId> = Vec::new();
        let mut i: usize = 0;
        while i < queued.len()
            invariant
                i <= queued.len(),
                queued@ == v0.pending,
                self.disposed@ == v0.disposed,
                out@ == queue_add(Seq::empty(), v0.pending.subrange(0, i as int), v0.disposed),
            decreases queued.len() - i,
        {
            proof {
                lemma_queue_add_step(Seq::empty(), v0.pending, v0.disposed, i as int);
            }
            let e = queued[i];
            if 1 <= e.0 && e.0 <= self.disposed.len() && !self.disposed[e.0 - 1] {
                if !contains_id(&out, e) {
                    out.push(e);
                }
            }
            i = i + 1;
        }
        assert(v0.pending.subrange(0, queued.len() as int) =~= v0.pending);
        assert(self@.pending =~= Seq::<EffectId>::empty());
        out
    }

    /// Makes registered effect `e` the running one (to re-run its body);
    /// returns the previously running effect.
    pub fn enter(&mut self, e: EffectId) -> (prev: Option<EffectId>)
        requires
            old(self).wf(),
            registered(old(self)@.disposed, e),
        ensures
            final(self).wf(),
            prev == old(self)@.active,
            final(self)@ == (RuntimeView { active: Some(e), ..old(self)@ }),
    {
        let prev = self.active;
        self.active = Some(e);
        prev
    }

    /// Restores the running effect saved by `create_effect` / `enter`.
    pub fn exit(&mut self, prev: Option<EffectId>)
        requires
            old(self).wf(),
            prev matches Some(e) ==> registered(old(self)@.disposed, e),
        ensures
            final(self).wf(),
            final(self)@ == (RuntimeView { active: prev, ..old(self)@ }),
    {
        self.active = prev;
    }

    /// Disposes effect `e`; returns `true` the first time (its cleanup is
    /// then due) and `false` after that.
    pub fn dispose(&mut self, e: EffectId) -> (run_cleanup: bool)
        requires
            old(self).wf(),
            registered(old(self)@.disposed, e),
        ensures
            final(self).wf(),
            (final(self)@, run_cleanup) == dispose_spec(old(self)@, e),
    {
        if !self.disposed[e.0 - 1] {
            self.disposed.set(e.0 - 1, true);
            true
        } else {
            false
        }
    }

    /// Whether effect `e` was disposed.
    pub fn is_disposed(&self, e: EffectId) -> (r: bool)
        requires
            registered(self@.disposed, e),
        ensures
            r == self@.disposed[e.0 - 1],
    {
        self.disposed[e.0 - 1]
    }

    /// Opens a batch; returns `true` for the outermost one.
    pub fn batch_enter(&mut self) -> (outermost: bool)
        requires
            old(self).wf(),
            old(self)@.depth < usize::MAX,
        ensures
            final(self).wf(),
            (final(self)@, outermost) == batch_enter_spec(old(self)@),
    {
        self.depth = self.depth + 1;
        self.depth == 1
    }

    /// Closes a batch; returns `true` when the outermost one ends (the
    /// queue is then flushed).
    pub fn batch_exit(&mut self) -> (flush_now: bool)
        requires
            old(self).wf(),
            old(self)@.depth > 0,
        ensures
            final(self).wf(),
            (final(self)@, flush_now) == batch_exit_spec(old(self)@),
    {
        self.depth = self.depth - 1;
        self.depth == 0
    }

    /// The effect whose body is running, if any.
    pub fn active(&self) -> (r: Option<EffectId>)
        ensures
            r == self@.active,
    {
        self.active
    }
}


/// Creates an effect: registers it under the next id and makes it the
/// running one, so the reads its first run makes subscribe it. Returns its
/// id and the previously running effect, to restore with `exit` once the
/// body has run.
pub fn create_effect<V>(rt: &mut Runtime<V>) -> (r: (EffectId, Option<EffectId>))
    requires
        old(rt).wf(),
        old(rt)@.disposed.len() < usize::MAX,
    ensures
        final(rt).wf(),
        r.0.0 == old(rt)@.disposed.len() + 1,
        r.1 == old(rt)@.active,
        final(rt)@ == create_effect_spec(old(rt)@),
{
    rt.disposed.push(false);
    let id = EffectId(rt.disposed.len());
    let prev = rt.active;
    rt.active = Some(id);
    proof {
        let v = rt@;
        assert forall|k: int| 0 <= k < v.subs.len() implies distinct(#[trigger] v.subs[k])
            && all_registered(v.subs[k], v.disposed) by {
            assert forall|i: int| 0 <= i < v.subs[k].len() implies registered(
                v.disposed,
                #[trigger] v.subs[k][i],
            ) by {
                assert(registered(old(rt)@.disposed, old(rt)@.subs[k][i]));
            }
        }
        assert forall|i: int| 0 <= i < v.pending.len() implies registered(
            v.disposed,
            #[trigger] v.pending[i],
        ) by {
            assert(registered(old(rt)@.disposed, old(rt)@.pending[i]));
        }
    }
    (id, prev)
}


proof fn lemma_queue_add_members(acc: Seq<EffectId>, list: Seq<EffectId>, disposed: Seq<bool>, e: EffectId)
    ensures
        queue_add(acc, list, disposed).contains(e) <==> (acc.contains(e) || (list.contains(e)
            && live(disposed, e))),
    decreases list.len(),
{
    if list.len() > 0 {
        lemma_queue_add_members(acc, list.drop_last(), disposed, e);
        let a = queue_add(acc, list.drop_last(), disposed);
        let x = list.last();
        assert(list.contains(e) <==> (list.drop_last().contains(e) || x == e)) by {
            if list.contains(e) {
                let i = choose|i: int| 0 <= i < list.len() && list[i] == e;
                if i < list.len() - 1 {
                    assert(list.drop_last()[i] == e);
                }
            }
            if list.drop_last().contains(e) {
                let i = choose|i: int| 0 <= i < list.drop_last().len() && list.drop_last()[i] == e;
                assert(list[i] == e);
            }
        }
        if live(disposed, x) && !a.contains(x) {
            assert(a.push(x).contains(e) <==> (a.contains(e) || x == e)) by {
                if a.push(x).contains(e) {
                    let i = choose|i: int| 0 <= i < a.push(x).len() && a.push(x)[i] == e;
                    if i < a.len() {
                        assert(a[i] == e);
                    }
                }
                if a.contains(e) {
                    let i = choose|i: int| 0 <= i < a.len() && a[i] == e;
                    assert(a.push(x)[i] == e);
                }
                if x == e {
                    assert(a.push(x)[a.len() as int] == e);
                }
            }
        }
    }
}

/// A newly created effect (the next id) is in no subscriber list and not
/// queued: until its own runs read signals, no write re-runs it.
pub proof fn lemma_new_effect_unsubscribed<V>(v: RuntimeView<V>, s: int)
    requires
        view_wf(v),
        0 <= s < v.subs.len(),
        v.disposed.len() < usize::MAX,
    ensures
        !v.subs[s].contains(EffectId((v.disposed.len() + 1) as usize)),
        !v.pending.contains(EffectId((v.disposed.len() + 1) as usize)),
{
    let e = EffectId((v.disposed.len() + 1) as usize);
    if v.subs[s].contains(e) {
        let i = choose|i: int| 0 <= i < v.subs[s].len() && v.subs[s][i] == e;
        assert(registered(v.disposed, v.subs[s][i]));
    }
    if v.pending.contains(e) {
        let i = choose|i: int| 0 <= i < v.pending.len() && v.pending[i] == e;
        assert(registered(v.disposed, v.pending[i]));
    }
}

/// The reads of an effect's run, one after the other (see `track_spec`).
pub open spec fn track_all<V>(v: RuntimeView<V>, reads: Seq<int>) -> RuntimeView<V>
    decreases reads.len(),
{
    if reads.len() == 0 {
        v
    } else {
        track_spec(track_all(v, reads.drop_last()), reads.last())
    }
}

/// The engine right after `create_effect`: the next id is registered and
/// running.
pub open spec fn create_effect_spec<V>(v: RuntimeView<V>) -> RuntimeView<V> {
    RuntimeView {
        disposed: v.disposed.push(false),
        active: Some(EffectId((v.disposed.len() + 1) as usize)),
        ..v
    }
}

proof fn lemma_first_run_reads<V>(v: RuntimeView<V>, reads: Seq<int>, x: EffectId, t: int)
    requires
        view_wf(v),
        v.disposed.len() < usize::MAX,
        forall|k: int| 0 <= k < reads.len() ==> 0 <= #[trigger] reads[k] < v.values.len(),
        0 <= t < v.values.len(),
    ensures
        ({
            let e = EffectId((v.disposed.len() + 1) as usize);
            let w = track_all(create_effect_spec(v), reads);
            &&& w.values == v.values
            &&& w.pending == v.pending
            &&& w.disposed == v.disposed.push(false)
            &&& w.active == Some(e)
            &&& w.subs.len() == v.subs.len()
            &&& (w.subs[t].contains(e) <==> reads.contains(t))
            &&& (x != e ==> (w.subs[t].contains(x) <==> v.subs[t].contains(x)))
        }),
    decreases reads.len(),
{
    let e = EffectId((v.disposed.len() + 1) as usize);
    if reads.len() == 0 {
        lemma_new_effect_unsubscribed(v, t);
    } else {
        let pre = reads.drop_last();
        assert forall|k: int| 0 <= k < pre.len() implies 0 <= #[trigger] pre[k] < v.values.len() by {
            assert(pre[k] == reads[k]);
        }
        lemma_first_run_reads(v, pre, x, t);
        let s = reads.last();
        assert(reads[reads.len() - 1] == s);
        lemma_first_run_reads(v, pre, x, s);
        let w0 = track_all(create_effect_spec(v), pre);
        assert(live(w0.disposed, e));
        assert(reads.contains(t) <==> (pre.contains(t) || s == t)) by {
            if reads.contains(t) {
                let i = choose|i: int| 0 <= i < reads.len() && reads[i] == t;
                if i < reads.len() - 1 {
                    assert(pre[i] == t);
                }
            }
            if pre.contains(t) {
                let i = choose|i: int| 0 <= i < pre.len() && pre[i] == t;
                assert(reads[i] == t);
            }
        }
        if !w0.subs[s].contains(e) {
            let l = w0.subs[s].push(e);
            assert(l[l.len() - 1] == e);
            if s == t {
                assert forall|y: EffectId| y != e implies (l.contains(y) <==> w0.subs[s].contains(y)) by {
                    if l.contains(y) {
                        let i = choose|i: int| 0 <= i < l.len() && l[i] == y;
                        assert(w0.subs[s][i] == y);
                    }
                    if w0.subs[s].contains(y) {
                        let i = choose|i: int| 0 <= i < w0.subs[s].len() && w0.subs[s][i] == y;
                        assert(l[i] == y);
                    }
                }
            }
        }
    }
}

/// Creating an effect: once its first run has made its reads `reads` and
/// the engine is back from it (`exit` with what `create_effect` returned),
/// the previously running effect (if any) runs again, the new effect is
/// subscribed to exactly the signals it read, and every other effect's
/// subscriptions, the values and the queue are as before.
pub proof fn lemma_effect_creation_restores<V>(v: RuntimeView<V>, reads: Seq<int>, x: EffectId, t: int)
    requires
        view_wf(v),
        v.disposed.len() < usize::MAX,
        forall|k: int| 0 <= k < reads.len() ==> 0 <= #[trigger] reads[k] < v.values.len(),
        0 <= t < v.values.len(),
    ensures
        ({
            let e = EffectId((v.disposed.len() + 1) as usize);
            let w = RuntimeView { active: v.active, ..track_all(create_effect_spec(v), reads) };
            &&& w.active == v.active
            &&& w.values == v.values
            &&& w.pending == v.pending
            &&& w.disposed == v.disposed.push(false)
            &&& (w.subs[t].contains(e) <==> reads.contains(t))
            &&& (x != e ==> (w.subs[t].contains(x) <==> v.subs[t].contains(x)))
        }),
{
    lemma_first_run_reads(v, reads, x, t);
}

proof fn lemma_queue_add_distinct(acc: Seq<EffectId>, list: Seq<EffectId>, disposed: Seq<bool>)
    requires
        distinct(acc),
    ensures
        distinct(queue_add(acc, list, disposed)),
    decreases list.len(),
{
    if list.len() > 0 {
        lemma_queue_add_distinct(acc, list.drop_last(), disposed);
        let a = queue_add(acc, list.drop_last(), disposed);
        let e = list.last();
        if live(disposed, e) && !a.contains(e) {
            assert forall|i: int, j: int| 0 <= i < j < a.push(e).len() implies a.push(e)[i] != a.push(
                e,
            )[j] by {
                if j == a.len() {
                    assert(a.push(e)[i] == a[i]);
                    assert(a.contains(a[i]));
                }
            }
        }
    }
}

/// Fine-grained reactivity, from creation to re-run: an effect is created
/// and its first run reads the signals `reads`; with nothing queued, a
/// later write of signal `s` makes the next flush run the new effect
/// exactly when it read `s`, and any other effect exactly when it was live
/// and subscribed to `s`; the flush runs each effect at most once, however
/// often it read `s`.
pub proof fn lemma_write_reruns_readers_once<V>(
    v: RuntimeView<V>,
    reads: Seq<int>,
    s: int,
    x: V,
    f: EffectId,
)
    requires
        view_wf(v),
        v.disposed.len() < usize::MAX,
        v.pending.len() == 0,
        forall|k: int| 0 <= k < reads.len() ==> 0 <= #[trigger] reads[k] < v.values.len(),
        0 <= s < v.values.len(),
    ensures
        ({
            let e = EffectId((v.disposed.len() + 1) as usize);
            let w = RuntimeView { active: v.active, ..track_all(create_effect_spec(v), reads) };
            let runs = take_spec(notify_spec(RuntimeView { values: w.values.update(s, x), ..w }, s)).1;
            &&& distinct(runs)
            &&& (runs.contains(e) <==> reads.contains(s))
            &&& (f != e ==> (runs.contains(f) <==> live(v.disposed, f) && v.subs[s].contains(f)))
        }),
{
    let e = EffectId((v.disposed.len() + 1) as usize);
    let w = RuntimeView { active: v.active, ..track_all(create_effect_spec(v), reads) };
    let w1 = RuntimeView { values: w.values.update(s, x), ..w };
    lemma_effect_creation_restores(v, reads, f, s);
    lemma_effect_creation_restores(v, reads, e, s);
    let q = queue_add(w1.pending, w1.subs[s], w1.disposed);
    assert(w1.pending =~= Seq::<EffectId>::empty());
    lemma_queue_add_distinct(Seq::empty(), q, w1.disposed);
    lemma_queue_add_members(w1.pending, w1.subs[s], w1.disposed, e);
    lemma_queue_add_members(Seq::empty(), q, w1.disposed, e);
    lemma_queue_add_members(w1.pending, w1.subs[s], w1.disposed, f);
    lemma_queue_add_members(Seq::empty(), q, w1.disposed, f);
    assert(w1.disposed == v.disposed.push(false));
    assert(live(w1.disposed, e));
    if f != e && registered(w1.disposed, f) {
        assert(f.0 <= v.disposed.len());
        assert(w1.disposed[f.0 - 1] == v.disposed[f.0 - 1]);
    }
}

/// Reading a signal while a live effect runs subscribes that effect to it.
pub proof fn lemma_read_subscribes<V>(v: RuntimeView<V>, s: int)
    requires
        view_wf(v),
        0 <= s < v.values.len(),
        v.active is Some,
        live(v.disposed, v.active->0),
    ensures
        track_spec(v, s).subs[s].contains(v.active->0),
        track_spec(v, s).values == v.values,
        track_spec(v, s).pending == v.pending,
{
    let e = v.active->0;
    if !v.subs[s].contains(e) {
        let l = v.subs[s].push(e);
        assert(l[l.len() - 1] == e);
    }
}

/// Fine-grained reactivity: after a change of signal `s`, the next flush
/// runs every live subscriber of `s`, and an effect that neither subscribes
/// to `s` nor was already queued is not run.
pub proof fn lemma_change_reruns_exactly_subscribers<V>(v: RuntimeView<V>, s: int, e: EffectId)
    requires
        view_wf(v),
        0 <= s < v.values.len(),
    ensures
        take_spec(notify_spec(v, s)).1.contains(e) <==> (live(v.disposed, e) && (v.subs[s].contains(
            e,
        ) || v.pending.contains(e))),
{
    lemma_queue_add_members(v.pending, v.subs[s], v.disposed, e);
    let q = queue_add(v.pending, v.subs[s], v.disposed);
    lemma_queue_add_members(Seq::empty(), q, v.disposed, e);
    if v.pending.contains(e) && !live(v.disposed, e) {
        assert(!(Seq::<EffectId>::empty().contains(e)));
    }
}

/// A flush runs each queued effect once and never a disposed one.
pub proof fn lemma_flush_runs_live_once<V>(v: RuntimeView<V>)
    requires
        view_wf(v),
    ensures
        distinct(take_spec(v).1),
        forall|i: int|
            0 <= i < take_spec(v).1.len() ==> live(v.disposed, #[trigger] take_spec(v).1[i]),
        take_spec(v).0.pending.len() == 0,
{
    lemma_queue_add_props(Seq::empty(), v.pending, v.disposed);
    assert forall|i: int| 0 <= i < take_spec(v).1.len() implies live(
        v.disposed,
        #[trigger] take_spec(v).1[i],
    ) by {
        let x = take_spec(v).1[i];
        assert(take_spec(v).1.contains(x));
        lemma_queue_add_members(Seq::empty(), v.pending, v.disposed, x);
    }
}

/// A disposed effect is never run again by any later flush, and its
/// cleanup is due exactly once: disposing it a second time reports no
/// cleanup.
pub proof fn lemma_dispose_once<V>(v: RuntimeView<V>, e: EffectId)
    requires
        view_wf(v),
        registered(v.disposed, e),
    ensures
        dispose_spec(v, e).1 == !v.disposed[e.0 - 1],
        !dispose_spec(dispose_spec(v, e).0, e).1,
        !take_spec(dispose_spec(v, e).0).1.contains(e),
{
    let v1 = dispose_spec(v, e).0;
    assert(v1.disposed[e.0 - 1]);
    lemma_queue_add_members(Seq::empty(), v1.pending, v1.disposed, e);
}

/// Once disposed, an effect stays silent in every later state: no change
/// queues it, no flush runs it, and disposing it again runs no cleanup and
/// changes nothing.
pub proof fn lemma_disposed_stays_silent<V>(v: RuntimeView<V>, e: EffectId, s: int)
    requires
        view_wf(v),
        registered(v.disposed, e),
        v.disposed[e.0 - 1],
        0 <= s < v.values.len(),
    ensures
        !take_spec(v).1.contains(e),
        !take_spec(notify_spec(v, s)).1.contains(e),
        !dispose_spec(v, e).1,
        dispose_spec(v, e).0 == v,
{
    lemma_queue_add_members(Seq::empty(), v.pending, v.disposed, e);
    let q = queue_add(v.pending, v.subs[s], v.disposed);
    lemma_queue_add_members(Seq::empty(), q, v.disposed, e);
}

/// Signal reads return the last write: after `set(s, x)` the value of `s` is
/// `x` and every other signal keeps its value.
pub proof fn lemma_read_after_write<V>(v: RuntimeView<V>, s: int, x: V, t: int)
    requires
        0 <= s < v.values.len(),
        0 <= t < v.values.len(),
    ensures
        notify_spec(RuntimeView { values: v.values.update(s, x), ..v }, s).values[s] == x,
        t != s ==> notify_spec(RuntimeView { values: v.values.update(s, x), ..v }, s).values[t]
            == v.values[t],
{
}

/// Batching: a batch returns the depth to where it was, and only the end of
/// the outermost batch flushes, so `batch(|| batch(..))` flushes once.
pub proof fn lemma_batch_flushes_once<V>(v: RuntimeView<V>)
    ensures
        batch_exit_spec(batch_enter_spec(v).0).0.depth == v.depth,
        batch_exit_spec(batch_enter_spec(v).0).1 == (v.depth == 0),
        batch_enter_spec(v).1 == (v.depth == 0),
        !batch_exit_spec(batch_enter_spec(batch_enter_spec(v).0).0).1,
{
}

} // verus!
