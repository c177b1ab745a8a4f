use vstd::prelude::*;

use std::collections::HashMap;

verus! {

broadcast use vstd::std_specs::hash::group_hash_axioms;

/// Every id in the registry is below `next_id`.
pub open spec fn ids_below<T>(lights: Map<usize, T>, next_id: usize) -> bool {
    forall|id: usize| #[trigger] lights.contains_key(id) ==> id < next_id
}

/// The lights of the world by id. Each light is given a fresh id when it
/// is added and can only be removed by that id. The lights themselves
/// (position, colour, intensity, radius) are of the caller's type `T`.
pub struct Lights<T> {
    pub all_lights: HashMap<usize, T>,
    next_id: usize,
}

impl<T> Lights<T> {
    /// The lights by id.
    pub closed spec fn lights(&self) -> Map<usize, T> {
        self.all_lights@
    }

    /// The id that the next added light gets.
    pub closed spec fn issued(&self) -> usize {
        self.next_id
    }

    /// The id that the next added light gets.
    pub fn next_id(&self) -> (n: usize)
        ensures
            n == self.issued(),
    {
        self.next_id
    }

    /// No lights; the first id is 0.
    pub fn new() -> (l: Lights<T>)
        ensures
            l.lights() == Map::<usize, T>::empty(),
            l.issued() == 0,
    {
        Lights { all_lights: HashMap::new(), next_id: 0 }
    }

    /// Adds a light under the next id, which is returned; the id was not in
    /// use. The id is the only way to remove the light again.
    #[must_use]
    pub fn add_light(&mut self, light: T) -> (id: usize)
        requires
            old(self).issued() < usize::MAX,
        ensures
            id == old(self).issued(),
            final(self).lights() == old(self).lights().insert(id, light),
            final(self).issued() == old(self).issued() + 1,
            ids_below(old(self).lights(), old(self).issued()) ==> {
                &&& !old(self).lights().contains_key(id)
                &&& ids_below(final(self).lights(), final(self).issued())
            },
    {
        let id = self.next_id;
        self.all_lights.insert(id, light);
        self.next_id = self.next_id + 1;
        id
    }

    /// The light with the given id, if there is one.
    pub fn get_light(&self, id: usize) -> (r: Option<&T>)
        ensures
            r is Some <==> self.lights().contains_key(id),
            r matches Some(l) ==> *l == self.lights()[id],
    {
        self.all_lights.get(&id)
    }

    /// Replaces the light with the given id, if there is one; nothing
    /// happens otherwise.
    pub fn replace_light(&mut self, id: usize, light: T)
        ensures
            final(self).lights() == (if old(self).lights().contains_key(id) {
                old(self).lights().insert(id, light)
            } else {
                old(self).lights()
            }),
            final(self).issued() == old(self).issued(),
            ids_below(old(self).lights(), old(self).issued()) ==> ids_below(
                final(self).lights(),
                final(self).issued(),
            ),
    {
        if self.all_lights.contains_key(&id) {
            self.all_lights.insert(id, light);
        }
    }

    /// Removes the light with the given id, if there is one.
    pub fn remove_light(&mut self, id: usize)
        ensures
            final(self).lights() == old(self).lights().remove(id),
            final(self).issued() == old(self).issued(),
            ids_below(old(self).lights(), old(self).issued()) ==> ids_below(
                final(self).lights(),
                final(self).issued(),
            ),
    {
        self.all_lights.remove(&id);
    }
}

} // verus!
