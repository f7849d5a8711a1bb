//! A queue of events raised during a frame.
use vstd::prelude::*;

verus! {

/// The events raised so far, oldest first.
///
/// A queue is owned by one frame and lent to its systems; it is not `Clone`,
/// since handles to one shared queue would need shared interior mutability.
#[derive(Debug)]
pub struct Events<E> {
    events: Vec<E>,
}

impl<E> View for Events<E> {
    type V = Seq<E>;

    closed spec fn view(&self) -> Seq<E> {
        self.events@
    }
}

impl<E> Events<E> {
    /// A queue without events.
    pub fn empty_custom() -> (r: Self)
        ensures
            r@ == Seq::<E>::empty(),
    {
        Events { events: Vec::new() }
    }

    /// Appends one event.
    pub fn push_event(&mut self, event: E)
        ensures
            final(self)@ == old(self)@.push(event),
    {
        self.events.push(event);
    }

    /// Moves all of `new_events`, in order, to the end of the queue and
    /// leaves `new_events` empty.
    pub fn push_events(&mut self, new_events: &mut Vec<E>)
        ensures
            final(self)@ == old(self)@ + old(new_events)@,
            final(new_events)@ == Seq::<E>::empty(),
    {
        self.events.append(new_events);
    }

    /// The queued events, oldest first.
    pub fn events(&self) -> (r: &[E])
        ensures
            r@ == self@,
    {
        self.events.as_slice()
    }

    /// Calls `predicate` on every event, oldest first, and collects the
    /// values it returns in `Some`.
    pub fn handle_events<F, U>(&self, predicate: F) -> (r: Vec<U>)
        where
            F: Fn(&E) -> Option<U>,
        requires
            forall|i: int| 0 <= i < self@.len() ==> predicate.requires((&self@[i],)),
        ensures
            exists|outs: Seq<Option<U>>|
                {
                    &&& outs.len() == self@.len()
                    &&& forall|i: int|
                        0 <= i < self@.len() ==> predicate.ensures((&self@[i],), #[trigger] outs[i])
                    &&& r@ == outs.filter_map(|o: Option<U>| o)
                },
    {
        let mut r: Vec<U> = Vec::new();
        let ghost mut outs: Seq<Option<U>> = Seq::empty();
        let n = self.events.len();
        let mut i: usize = 0;
        while i < n
            invariant
                n == self@.len(),
                0 <= i <= n,
                forall|k: int| 0 <= k < self@.len() ==> predicate.requires((&self@[k],)),
                outs.len() == i,
                forall|k: int| 0 <= k < i ==> predicate.ensures((&self@[k],), #[trigger] outs[k]),
                r@ == outs.filter_map(|o: Option<U>| o),
            decreases n - i,
        {
            let out = predicate(&self.events[i]);
            let ghost before = outs;
            proof {
                outs = outs.push(out);
                assert(outs.drop_last() =~= before);
            }
            match out {
                Some(v) => {
                    r.push(v);
                },
                None => {},
            }
            i += 1;
        }
        r
    }
}

} // verus!
