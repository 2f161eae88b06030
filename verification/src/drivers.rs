//! The map of endpoint drivers of the routing core

use vstd::prelude::*;

verus! {

/// The endpoint drivers known to the routing core, addressed by their
/// position. The same endpoint may be in the map several times, under
/// distinct ids.
pub struct DriverMap<E> {
    map: Vec<E>,
}

impl<E> View for DriverMap<E> {
    type V = Seq<E>;

    closed spec fn view(&self) -> Seq<E> {
        self.map@
    }
}

impl<E> DriverMap<E> {
    /// An empty driver map.
    pub fn new() -> (r: DriverMap<E>)
        ensures
            r@ == Seq::<E>::empty(),
    {
        DriverMap { map: Vec::new() }
    }

    /// The number of drivers.
    pub fn len(&self) -> (r: usize)
        ensures
            r == self@.len(),
    {
        self.map.len()
    }

    /// Adds an endpoint; its id is the number of drivers before it.
    pub fn add(&mut self, ep: E)
        ensures
            final(self)@ == old(self)@.push(ep),
    {
        self.map.push(ep);
    }

    /// Removes the endpoint with the given id and returns it, if there is
    /// one; the drivers after it move down by one id.
    pub fn remove(&mut self, id: usize) -> (r: Option<E>)
        ensures
            id < old(self)@.len() ==> r == Some(old(self)@[id as int]) && final(self)@ == old(self)@.remove(id as int),
            id >= old(self)@.len() ==> r is None && final(self)@ == old(self)@,
    {
        if id < self.map.len() {
            Some(self.map.remove(id))
        } else {
            None
        }
    }

    /// Shared access to the endpoint with the given id, if there is one.
    pub fn get(&self, id: usize) -> (r: Option<&E>)
        ensures
            r is Some <==> id < self@.len(),
            id < self@.len() ==> r == Some(&self@[id as int]),
            id >= self@.len() ==> r is None,
    {
        if id < self.map.len() {
            Some(&self.map[id])
        } else {
            None
        }
    }

    /// Mutable access to the endpoint with the given id, if there is one.
    pub fn get_mut(&mut self, id: usize) -> (r: Option<&mut E>)
        ensures
            r is Some <==> id < old(self)@.len(),
            id >= old(self)@.len() ==> r is None && final(self)@ == old(self)@,
            id < old(self)@.len() ==> (r matches Some(e) && *e == old(self)@[id as int]
                && final(self)@ == old(self)@.update(id as int, *final(e))),
    {
        if id < self.map.len() {
            Some(&mut self.map[id])
        } else {
            None
        }
    }
}

/// Removing the driver that was added last gives it back and leaves the
/// map as it was before.
pub proof fn lemma_add_then_remove<E>(before: Seq<E>, ep: E)
    ensures
        before.push(ep)[before.len() as int] == ep,
        before.push(ep).remove(before.len() as int) == before,
{
    assert(before.push(ep).remove(before.len() as int) =~= before);
}

} // verus!
