//! Context: values provided to a scope and read back by type key from
//! anywhere inside it, innermost scope first.
use vstd::prelude::*;
use std::any::TypeId;

verus! {

#[verifier::external_type_specification]
#[verifier::external_body]
pub struct ExTypeId(TypeId);

/// `TypeId`'s `==`: two type ids compare equal exactly when they are the
/// same id (`impl PartialEq for TypeId`).
#[verifier::external_body]
fn type_id_eq(a: &TypeId, b: &TypeId) -> (r: bool)
    ensures
        r == (*a == *b),
{
    *a == *b
}

/// A stack of context scopes. Scope 0 is the root; each scope holds the
/// bindings made while it was the innermost one, oldest first.
pub struct ContextStack<V> {
    frames: Vec<Vec<(TypeId, V)>>,
}

impl<V> View for ContextStack<V> {
    type V = Seq<Seq<(TypeId, V)>>;

    closed spec fn view(&self) -> Seq<Seq<(TypeId, V)>> {
        self.frames@.map_values(|f: Vec<(TypeId, V)>| f@)
    }
}

/// The latest binding of `key` in one scope.
pub open spec fn frame_lookup<V>(frame: Seq<(TypeId, V)>, key: TypeId) -> Option<V>
    decreases frame.len(),
{
    if frame.len() == 0 {
        None
    } else if frame.last().0 == key {
        Some(frame.last().1)
    } else {
        frame_lookup(frame.drop_last(), key)
    }
}

/// The value `key` resolves to: its latest binding in the innermost scope
/// that binds it.
pub open spec fn lookup<V>(frames: Seq<Seq<(TypeId, V)>>, key: TypeId) -> Option<V>
    decreases frames.len(),
{
    if frames.len() == 0 {
        None
    } else if frame_lookup(frames.last(), key) is Some {
        frame_lookup(frames.last(), key)
    } else {
        lookup(frames.drop_last(), key)
    }
}

/// `provide_context`: a binding in the innermost scope.
pub open spec fn provide_spec<V>(frames: Seq<Seq<(TypeId, V)>>, key: TypeId, value: V) -> Seq<
    Seq<(TypeId, V)>,
> {
    if frames.len() == 0 {
        frames
    } else {
        frames.update(frames.len() - 1, frames.last().push((key, value)))
    }
}

/// Entering a scope that binds `key` to `value`.
pub open spec fn enter_spec<V>(frames: Seq<Seq<(TypeId, V)>>, key: TypeId, value: V) -> Seq<
    Seq<(TypeId, V)>,
> {
    frames.push(seq![(key, value)])
}

impl<V> ContextStack<V> {
    /// A stack holding only the (empty) root scope.
    pub fn new() -> (r: ContextStack<V>)
        ensures
            r@ == seq![Seq::<(TypeId, V)>::empty()],
    {
        let mut frames: Vec<Vec<(TypeId, V)>> = Vec::new();
        frames.push(Vec::new());
        let r = ContextStack { frames };
        assert(r@ =~= seq![Seq::<(TypeId, V)>::empty()]);
        r
    }

    /// Opens a scope binding `key` to `value` (see `with_context`).
    pub fn enter_scope(&mut self, key: TypeId, value: V)
        ensures
            final(self)@ == enter_spec(old(self)@, key, value),
    {
        let mut frame: Vec<(TypeId, V)> = Vec::new();
        frame.push((key, value));
        self.frames.push(frame);
        assert(self@ =~= enter_spec(old(self)@, key, value));
    }

    /// Closes the innermost scope, restoring the context outside it.
    pub fn exit_scope(&mut self)
        requires
            old(self)@.len() > 1,
        ensures
            final(self)@ == old(self)@.drop_last(),
    {
        let _ = self.frames.pop();
        assert(self@ =~= old(self)@.drop_last());
    }

    /// Number of open scopes, the root included.
    pub fn depth(&self) -> (r: usize)
        ensures
            r == self@.len(),
    {
        self.frames.len()
    }

}

/// Provides `value` under `key` to the current scope and everything
/// created within it.
pub fn provide_context<V>(ctx: &mut ContextStack<V>, key: TypeId, value: V)
    ensures
        final(ctx)@ == provide_spec(old(ctx)@, key, value),
{
    let n = ctx.frames.len();
    if n > 0 {
        let mut top = ctx.frames.pop().unwrap();
        top.push((key, value));
        ctx.frames.push(top);
        assert(ctx@ =~= provide_spec(old(ctx)@, key, value));
    }
}

/// `after` keeps the scopes of `before`: as many, and every scope but the
/// innermost one unchanged (what a body run inside a scope may do).
pub open spec fn keeps_outer_scopes<V>(
    before: Seq<Seq<(TypeId, V)>>,
    after: Seq<Seq<(TypeId, V)>>,
) -> bool {
    after.len() == before.len() && after.drop_last() == before.drop_last()
}

/// Providing a value changes only the innermost scope.
pub proof fn lemma_provide_keeps_outer_scopes<V>(frames: Seq<Seq<(TypeId, V)>>, key: TypeId, value: V)
    ensures
        keeps_outer_scopes(frames, provide_spec(frames, key, value)),
{
    if frames.len() > 0 {
        assert(provide_spec(frames, key, value).drop_last() =~= frames.drop_last());
    }
}

/// Runs `f` with `value` provided under `key` for its duration, then
/// restores the previous context. `f` may provide further values; they
/// are dropped with the scope.
pub fn with_context<V, R, F: FnOnce(&mut ContextStack<V>) -> R>(
    ctx: &mut ContextStack<V>,
    key: TypeId,
    value: V,
    f: F,
) -> (r: R)
    requires
        forall|c: &mut ContextStack<V>| #[trigger] f.requires((c,)),
        forall|c: &mut ContextStack<V>, x: R| #[trigger]
            f.ensures((c,), x) ==> keeps_outer_scopes(c@, final(c)@),
    ensures
        final(ctx)@ == old(ctx)@,
        exists|c: &mut ContextStack<V>| #[trigger] f.ensures((c,), r) && c@ == enter_spec(old(ctx)@, key, value),
{
    ctx.enter_scope(key, value);
    let ghost mid = ctx@;
    let r = f(ctx);
    let ghost after = ctx@;
    assert(keeps_outer_scopes(mid, after));
    let _ = ctx.frames.pop();
    assert(ctx@ =~= after.drop_last());
    assert(mid.drop_last() =~= old(ctx)@);
    r
}

/// The value provided under `key` by the nearest enclosing scope, or
/// `None` when no scope provides one.
pub fn use_context<'a, V>(ctx: &'a ContextStack<V>, key: &TypeId) -> (r: Option<&'a V>)
    ensures
        match r {
            Some(v) => lookup(ctx@, *key) == Some(*v),
            None => lookup(ctx@, *key) is None,
        },
{
    let mut k: usize = ctx.frames.len();
    assert(ctx@.subrange(0, k as int) =~= ctx@);
    while k > 0
        invariant
            k <= ctx.frames.len(),
            lookup(ctx@, *key) == lookup(ctx@.subrange(0, k as int), *key),
        decreases k,
    {
        let frame = &ctx.frames[k - 1];
        let ghost sub = ctx@.subrange(0, k as int);
        assert(sub.last() == frame@);
        assert(sub.drop_last() =~= ctx@.subrange(0, k - 1));
        let mut j: usize = frame.len();
        assert(frame@.subrange(0, j as int) =~= frame@);
        while j > 0
            invariant
                j <= frame.len(),
                0 < k <= ctx.frames.len(),
                sub == ctx@.subrange(0, k as int),
                sub.last() == frame@,
                lookup(ctx@, *key) == lookup(sub, *key),
                frame_lookup(frame@, *key) == frame_lookup(frame@.subrange(0, j as int), *key),
            decreases j,
        {
            let ghost fs = frame@.subrange(0, j as int);
            assert(fs.drop_last() =~= frame@.subrange(0, j - 1));
            assert(fs.last() == frame@[j - 1]);
            if type_id_eq(&frame[j - 1].0, key) {
                assert(frame_lookup(frame@, *key) == Some(frame@[j - 1].1));
                assert(lookup(sub, *key) == Some(frame@[j - 1].1));
                return Some(&frame[j - 1].1);
            }
            j = j - 1;
        }
        assert(frame@.subrange(0, 0) =~= Seq::<(TypeId, V)>::empty());
        k = k - 1;
    }
    assert(ctx@.subrange(0, 0) =~= Seq::<Seq<(TypeId, V)>>::empty());
    None
}

/// A provided value is what the key then resolves to; other keys resolve
/// as before.
pub proof fn lemma_use_after_provide<V>(
    frames: Seq<Seq<(TypeId, V)>>,
    key: TypeId,
    value: V,
    other: TypeId,
)
    requires
        frames.len() > 0,
    ensures
        lookup(provide_spec(frames, key, value), key) == Some(value),
        other != key ==> lookup(provide_spec(frames, key, value), other) == lookup(frames, other),
{
    let p = provide_spec(frames, key, value);
    assert(p.last() == frames.last().push((key, value)));
    assert(p.last().drop_last() =~= frames.last());
    assert(p.drop_last() =~= frames.drop_last());
}

/// Scoping: inside `with_context(key, value, ..)` the key resolves to
/// `value` and every other key as outside; leaving the scope (after any
/// bindings made inside it) restores the outside context exactly.
pub proof fn lemma_scope_restores<V>(
    frames: Seq<Seq<(TypeId, V)>>,
    key: TypeId,
    value: V,
    other: TypeId,
    inner_key: TypeId,
    inner_value: V,
)
    ensures
        lookup(enter_spec(frames, key, value), key) == Some(value),
        other != key ==> lookup(enter_spec(frames, key, value), other) == lookup(frames, other),
        enter_spec(frames, key, value).drop_last() == frames,
        provide_spec(enter_spec(frames, key, value), inner_key, inner_value).drop_last() == frames,
{
    let e = enter_spec(frames, key, value);
    assert(e.last() == seq![(key, value)]);
    assert(e.last().drop_last() =~= Seq::<(TypeId, V)>::empty());
    assert(e.drop_last() =~= frames);
    if other != key {
        assert(frame_lookup(e.last().drop_last(), other) is None);
        assert(frame_lookup(e.last(), other) is None);
    }
    let p = provide_spec(e, inner_key, inner_value);
    assert(p.drop_last() =~= frames);
}


} // verus!
