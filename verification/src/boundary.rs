//! Error boundaries: the stack of open boundaries, nearest last, and how a
//! reported fault reaches the closest one.
use vstd::prelude::*;

verus! {

/// The fault status of each open boundary, outermost first.
pub struct BoundaryStack {
    statuses: Vec<Option<String>>,
}

pub open spec fn status_views(s: Seq<Option<String>>) -> Seq<Option<Seq<char>>> {
    s.map_values(|o: Option<String>| match o {
        Some(m) => Some(m@),
        None => None,
    })
}

impl View for BoundaryStack {
    type V = Seq<Option<Seq<char>>>;

    closed spec fn view(&self) -> Seq<Option<Seq<char>>> {
        status_views(self.statuses@)
    }
}

/// Opening a boundary: a new innermost one, not faulted.
pub open spec fn enter_spec(s: Seq<Option<Seq<char>>>) -> Seq<Option<Seq<char>>> {
    s.push(None)
}

/// Reporting a fault marks the innermost open boundary as failed with
/// `message`; with no boundary open nothing happens.
pub open spec fn fault_spec(s: Seq<Option<Seq<char>>>, message: Seq<char>) -> Seq<Option<Seq<char>>> {
    if s.len() > 0 {
        s.update(s.len() - 1, Some(message))
    } else {
        s
    }
}

/// Closing the innermost boundary yields its status.
pub open spec fn exit_spec(s: Seq<Option<Seq<char>>>) -> (Seq<Option<Seq<char>>>, Option<Seq<char>>) {
    (s.drop_last(), s.last())
}

impl BoundaryStack {
    /// No boundary open.
    pub fn new() -> (r: BoundaryStack)
        ensures
            r@ == Seq::<Option<Seq<char>>>::empty(),
    {
        let r = BoundaryStack { statuses: Vec::new() };
        assert(r@ =~= Seq::<Option<Seq<char>>>::empty());
        r
    }

    /// Opens a boundary around a subtree that is about to be built.
    pub fn enter(&mut self)
        ensures
            final(self)@ == enter_spec(old(self)@),
    {
        self.statuses.push(None);
        assert(self@ =~= enter_spec(old(self)@));
    }

    /// Declares the subtree being built as failed with `message`.
    pub fn fault(&mut self, message: String)
        ensures
            final(self)@ == fault_spec(old(self)@, message@),
    {
        let n = self.statuses.len();
        if n > 0 {
            self.statuses.set(n - 1, Some(message));
            assert(self@ =~= fault_spec(old(self)@, message@));
        }
    }

    /// Closes the innermost boundary and returns its fault, if any.
    pub fn exit(&mut self) -> (r: Option<String>)
        requires
            old(self)@.len() > 0,
        ensures
            final(self)@ == exit_spec(old(self)@).0,
            match r {
                Some(m) => exit_spec(old(self)@).1 == Some(m@),
                None => exit_spec(old(self)@).1 is None,
            },
    {
        let r = self.statuses.pop().unwrap();
        assert(self@ =~= old(self)@.drop_last());
        r
    }

    /// The number of open boundaries.
    pub fn depth(&self) -> (r: usize)
        ensures
            r == self@.len(),
    {
        self.statuses.len()
    }
}

/// Whether a boundary shows its fallback: when building the subtree did not
/// finish, or the subtree reported a fault.
pub fn shows_fallback(built: bool, status: &Option<String>) -> (r: bool)
    ensures
        r == (!built || status is Some),
{
    !built || status.is_some()
}

/// A fault is consumed by the closest boundary: when a subtree built inside
/// an open boundary reports a fault, closing that boundary yields the fault
/// and leaves every enclosing boundary exactly as it was.
pub proof fn lemma_fault_reaches_innermost(s: Seq<Option<Seq<char>>>, message: Seq<char>)
    ensures
        exit_spec(fault_spec(enter_spec(s), message)) == (s, Some(message)),
{
    assert(fault_spec(enter_spec(s), message).drop_last() =~= s);
}

/// A fault reported outside every boundary changes nothing.
pub proof fn lemma_fault_without_boundary(message: Seq<char>)
    ensures
        fault_spec(Seq::<Option<Seq<char>>>::empty(), message) == Seq::<Option<Seq<char>>>::empty(),
{
}

/// A boundary whose subtree reports nothing closes clean, and the boundaries
/// around it are unchanged.
pub proof fn lemma_clean_subtree(s: Seq<Option<Seq<char>>>)
    ensures
        exit_spec(enter_spec(s)) == (s, Option::<Seq<char>>::None),
{
    assert(enter_spec(s).drop_last() =~= s);
}

} // verus!
