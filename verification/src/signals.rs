//! Signal handles over the reactivity engine: read/write handles, the
//! combined handle, and the reactive list.
use vstd::prelude::*;
use std::marker::PhantomData;
use crate::reactive::{notify_spec, track_spec, Runtime, RuntimeView, SignalId};

verus! {

/// A combined read + write handle to a signal holding a `T`.
pub struct Signal<T> {
    pub id: SignalId,
    pub marker: PhantomData<T>,
}

/// Read-only handle: reading inside an effect subscribes that effect.
pub struct ReadSignal<T> {
    pub id: SignalId,
    pub marker: PhantomData<T>,
}

/// Write-only handle: writing notifies the subscribers.
pub struct WriteSignal<T> {
    pub id: SignalId,
    pub marker: PhantomData<T>,
}

/// The combined handle under its short name.
pub type RwSignal<T> = Signal<T>;

/// The engine state after writing `value` to signal `s`.
pub open spec fn write_spec<T>(v: RuntimeView<T>, s: SignalId, value: T) -> RuntimeView<T> {
    notify_spec(RuntimeView { values: v.values.update(s.0 as int, value), ..v }, s.0 as int)
}

impl<T> Signal<T> {
    /// Creates a signal holding `initial_value`.
    pub fn new(rt: &mut Runtime<T>, initial_value: T) -> (r: Signal<T>)
        requires
            old(rt).wf(),
        ensures
            final(rt).wf(),
            r.id.0 == old(rt)@.values.len(),
            final(rt)@ == (RuntimeView {
                values: old(rt)@.values.push(initial_value),
                subs: old(rt)@.subs.push(Seq::empty()),
                ..old(rt)@
            }),
    {
        let id = rt.create_signal(initial_value);
        Signal { id, marker: PhantomData }
    }

    /// Reads the value (subscribing the running effect, if any).
    pub fn get(&self, rt: &mut Runtime<T>) -> (r: T) where T: Clone
        requires
            old(rt).wf(),
            self.id.0 < old(rt)@.values.len(),
        ensures
            final(rt).wf(),
            vstd::pervasive::cloned(old(rt)@.values[self.id.0 as int], r),
            final(rt)@ == track_spec(old(rt)@, self.id.0 as int),
    {
        rt.track(self.id);
        rt.value(self.id).clone()
    }

    /// Replaces the value and notifies subscribers; `true` when the queue is
    /// due to be flushed now.
    pub fn set(&self, rt: &mut Runtime<T>, new_value: T) -> (flush_now: bool)
        requires
            old(rt).wf(),
            self.id.0 < old(rt)@.values.len(),
        ensures
            final(rt).wf(),
            final(rt)@ == write_spec(old(rt)@, self.id, new_value),
            flush_now == (old(rt)@.depth == 0),
    {
        rt.set(self.id, new_value)
    }

    /// Splits into separate read and write handles of the same signal.
    pub fn split(self) -> (r: (ReadSignal<T>, WriteSignal<T>))
        ensures
            r.0.id == self.id,
            r.1.id == self.id,
    {
        (ReadSignal { id: self.id, marker: PhantomData }, WriteSignal { id: self.id, marker: PhantomData })
    }

    /// A read-only handle to the same signal.
    pub fn read_only(&self) -> (r: ReadSignal<T>)
        ensures
            r.id == self.id,
    {
        ReadSignal { id: self.id, marker: PhantomData }
    }

    /// A write-only handle to the same signal.
    pub fn write_only(&self) -> (r: WriteSignal<T>)
        ensures
            r.id == self.id,
    {
        WriteSignal { id: self.id, marker: PhantomData }
    }
}

impl<T> ReadSignal<T> {
    /// Reads the value (subscribing the running effect, if any).
    pub fn get(&self, rt: &mut Runtime<T>) -> (r: T) where T: Clone
        requires
            old(rt).wf(),
            self.id.0 < old(rt)@.values.len(),
        ensures
            final(rt).wf(),
            vstd::pervasive::cloned(old(rt)@.values[self.id.0 as int], r),
            final(rt)@ == track_spec(old(rt)@, self.id.0 as int),
    {
        rt.track(self.id);
        rt.value(self.id).clone()
    }
}

impl<T> WriteSignal<T> {
    /// Replaces the value and notifies subscribers; `true` when the queue is
    /// due to be flushed now.
    pub fn set(&self, rt: &mut Runtime<T>, new_value: T) -> (flush_now: bool)
        requires
            old(rt).wf(),
            self.id.0 < old(rt)@.values.len(),
        ensures
            final(rt).wf(),
            final(rt)@ == write_spec(old(rt)@, self.id, new_value),
            flush_now == (old(rt)@.depth == 0),
    {
        rt.set(self.id, new_value)
    }
}

/// Creates a signal, returning a `(read, write)` handle pair.
pub fn create_signal<T>(rt: &mut Runtime<T>, initial_value: T) -> (r: (ReadSignal<T>, WriteSignal<T>))
    requires
        old(rt).wf(),
    ensures
        final(rt).wf(),
        r.0.id == r.1.id,
        r.0.id.0 == old(rt)@.values.len(),
        final(rt)@ == (RuntimeView {
            values: old(rt)@.values.push(initial_value),
            subs: old(rt)@.subs.push(Seq::empty()),
            ..old(rt)@
        }),
{
    let s = Signal::new(rt, initial_value);
    s.split()
}

/// Creates a combined read + write signal.
pub fn signal<T>(rt: &mut Runtime<T>, initial_value: T) -> (r: RwSignal<T>)
    requires
        old(rt).wf(),
    ensures
        final(rt).wf(),
        r.id.0 == old(rt)@.values.len(),
        final(rt)@ == (RuntimeView {
            values: old(rt)@.values.push(initial_value),
            subs: old(rt)@.subs.push(Seq::empty()),
            ..old(rt)@
        }),
{
    Signal::new(rt, initial_value)
}

/// A reactive list: mutations notify the subscribers of its signal.
pub struct SignalVec<T> {
    pub id: SignalId,
    pub marker: PhantomData<T>,
}

impl<T> SignalVec<T> {
    /// The list's items, as stored in the engine.
    pub open spec fn items_of(&self, v: RuntimeView<Vec<T>>) -> Seq<T> {
        v.values[self.id.0 as int]@
    }

    /// Creates a reactive list holding `items`.
    pub fn new(rt: &mut Runtime<Vec<T>>, items: Vec<T>) -> (r: SignalVec<T>)
        requires
            old(rt).wf(),
        ensures
            final(rt).wf(),
            r.id.0 == old(rt)@.values.len(),
            final(rt)@ == (RuntimeView {
                values: old(rt)@.values.push(items),
                subs: old(rt)@.subs.push(Seq::empty()),
                ..old(rt)@
            }),
    {
        let id = rt.create_signal(items);
        SignalVec { id, marker: PhantomData }
    }

    /// Number of items (subscribes the running effect).
    pub fn len(&self, rt: &mut Runtime<Vec<T>>) -> (r: usize)
        requires
            old(rt).wf(),
            self.id.0 < old(rt)@.values.len(),
        ensures
            final(rt).wf(),
            r == self.items_of(old(rt)@).len(),
            final(rt)@ == track_spec(old(rt)@, self.id.0 as int),
    {
        rt.track(self.id);
        rt.value(self.id).len()
    }

    /// `true` when the list has no items (subscribes the running effect).
    pub fn is_empty(&self, rt: &mut Runtime<Vec<T>>) -> (r: bool)
        requires
            old(rt).wf(),
            self.id.0 < old(rt)@.values.len(),
        ensures
            final(rt).wf(),
            r == (self.items_of(old(rt)@).len() == 0),
            final(rt)@ == track_spec(old(rt)@, self.id.0 as int),
    {
        self.len(rt) == 0
    }

    /// A copy of the items (subscribes the running effect).
    pub fn get(&self, rt: &mut Runtime<Vec<T>>) -> (r: Vec<T>) where T: Clone
        requires
            old(rt).wf(),
            self.id.0 < old(rt)@.values.len(),
        ensures
            final(rt).wf(),
            r@.len() == self.items_of(old(rt)@).len(),
            forall|i: int| 0 <= i < r@.len() ==> vstd::pervasive::cloned(self.items_of(old(rt)@)[i], #[trigger] r@[i]),
            final(rt)@ == track_spec(old(rt)@, self.id.0 as int),
    {
        rt.track(self.id);
        let src = rt.value(self.id);
        let mut out: Vec<T> = Vec::new();
        let mut i: usize = 0;
        while i < src.len()
            invariant
                i <= src.len(),
                out@.len() == i,
                forall|j: int| 0 <= j < i ==> vstd::pervasive::cloned(src@[j], #[trigger] out@[j]),
            decreases src.len() - i,
        {
            let c = src[i].clone();
            out.push(c);
            i = i + 1;
        }
        out
    }

    /// The items (no subscription).
    pub fn items<'a>(&self, rt: &'a Runtime<Vec<T>>) -> (r: &'a Vec<T>)
        requires
            self.id.0 < rt@.values.len(),
        ensures
            r@ == self.items_of(rt@),
    {
        rt.value(self.id)
    }

    /// Appends an item and notifies; `true` when the queue is due now.
    pub fn push(&self, rt: &mut Runtime<Vec<T>>, item: T) -> (flush_now: bool)
        requires
            old(rt).wf(),
            self.id.0 < old(rt)@.values.len(),
        ensures
            final(rt).wf(),
            self.items_of(final(rt)@) == self.items_of(old(rt)@).push(item),
            final(rt)@.subs == old(rt)@.subs,
            final(rt)@.pending == notify_spec(old(rt)@, self.id.0 as int).pending,
            final(rt)@.disposed == old(rt)@.disposed,
            final(rt)@.active == old(rt)@.active,
            final(rt)@.depth == old(rt)@.depth,
            final(rt)@.values.len() == old(rt)@.values.len(),
            forall|t: int| 0 <= t < old(rt)@.values.len() && t != self.id.0 ==> final(rt)@.values[t]
                == old(rt)@.values[t],
            flush_now == (old(rt)@.depth == 0),
    {
        let v = rt.value_mut(self.id);
        v.push(item);
        rt.notify(self.id)
    }

    /// Inserts an item at `index` (at most the length) and notifies.
    pub fn insert(&self, rt: &mut Runtime<Vec<T>>, index: usize, item: T) -> (flush_now: bool)
        requires
            old(rt).wf(),
            self.id.0 < old(rt)@.values.len(),
            index <= self.items_of(old(rt)@).len(),
        ensures
            final(rt).wf(),
            self.items_of(final(rt)@) == self.items_of(old(rt)@).insert(index as int, item),
            final(rt)@.subs == old(rt)@.subs,
            final(rt)@.pending == notify_spec(old(rt)@, self.id.0 as int).pending,
            final(rt)@.disposed == old(rt)@.disposed,
            final(rt)@.active == old(rt)@.active,
            final(rt)@.depth == old(rt)@.depth,
            final(rt)@.values.len() == old(rt)@.values.len(),
            forall|t: int| 0 <= t < old(rt)@.values.len() && t != self.id.0 ==> final(rt)@.values[t]
                == old(rt)@.values[t],
            flush_now == (old(rt)@.depth == 0),
    {
        let v = rt.value_mut(self.id);
        v.insert(index, item);
        rt.notify(self.id)
    }

    /// Removes and returns the item at `index` when there is one (the list
    /// is unchanged otherwise), and notifies either way.
    pub fn remove(&self, rt: &mut Runtime<Vec<T>>, index: usize) -> (r: (Option<T>, bool))
        requires
            old(rt).wf(),
            self.id.0 < old(rt)@.values.len(),
        ensures
            final(rt).wf(),
            index < self.items_of(old(rt)@).len() ==> r.0 == Some(self.items_of(old(rt)@)[index as int])
                && self.items_of(final(rt)@) == self.items_of(old(rt)@).remove(index as int),
            index >= self.items_of(old(rt)@).len() ==> r.0 is None && self.items_of(final(rt)@)
                == self.items_of(old(rt)@),
            final(rt)@.subs == old(rt)@.subs,
            final(rt)@.pending == notify_spec(old(rt)@, self.id.0 as int).pending,
            final(rt)@.disposed == old(rt)@.disposed,
            final(rt)@.active == old(rt)@.active,
            final(rt)@.depth == old(rt)@.depth,
            final(rt)@.values.len() == old(rt)@.values.len(),
            forall|t: int| 0 <= t < old(rt)@.values.len() && t != self.id.0 ==> final(rt)@.values[t]
                == old(rt)@.values[t],
            r.1 == (old(rt)@.depth == 0),
    {
        let v = rt.value_mut(self.id);
        let mut out: Option<T> = None;
        if index < v.len() {
            out = Some(v.remove(index));
        }
        let flush = rt.notify(self.id);
        (out, flush)
    }

    /// Removes every item and notifies.
    pub fn clear(&self, rt: &mut Runtime<Vec<T>>) -> (flush_now: bool)
        requires
            old(rt).wf(),
            self.id.0 < old(rt)@.values.len(),
        ensures
            final(rt).wf(),
            self.items_of(final(rt)@) == Seq::<T>::empty(),
            final(rt)@.subs == old(rt)@.subs,
            final(rt)@.pending == notify_spec(old(rt)@, self.id.0 as int).pending,
            final(rt)@.disposed == old(rt)@.disposed,
            final(rt)@.active == old(rt)@.active,
            final(rt)@.depth == old(rt)@.depth,
            final(rt)@.values.len() == old(rt)@.values.len(),
            forall|t: int| 0 <= t < old(rt)@.values.len() && t != self.id.0 ==> final(rt)@.values[t]
                == old(rt)@.values[t],
            flush_now == (old(rt)@.depth == 0),
    {
        let v = rt.value_mut(self.id);
        v.clear();
        rt.notify(self.id)
    }
}

} // verus!
