//! A view on one entity: its id and its components, one per type.
use crate::component::{
    by_type, distinct_types, find_type, has_type, lemma_by_type_distinct, lemma_position_absent,
    lemma_position_in_distinct, lemma_position_of_flag, position_of_flag, Component,
};
use crate::slots::{flag_slots, flag_slots_get, flag_slots_insert, flag_slots_new};
use indexmap::IndexMap;
use std::hash::RandomState;
use vstd::prelude::*;

verus! {

/// The values behind a list of component references.
pub open spec fn deref_all<'a, T>(cs: Seq<&'a T>) -> Seq<T> {
    cs.map_values(|c: &'a T| *c)
}

/// Set of [components](Component) representing a (part of a) single entity,
/// at most one component per type.
#[derive(Debug)]
pub struct Entity<'a, T: Component> {
    id: usize,
    slots: IndexMap<u32, usize, RandomState>,
    components: Vec<&'a T>,
}

impl<'a, T: Component> Entity<'a, T> {
    /// The entity's components in the order in which their types first came.
    pub closed spec fn components_view(&self) -> Seq<T> {
        deref_all(self.components@)
    }

    /// The entity's id.
    pub closed spec fn id_view(&self) -> usize {
        self.id
    }

    /// The type lookup table agrees with the component list.
    #[verifier::type_invariant]
    closed spec fn slots_agree(&self) -> bool {
        let cv = deref_all(self.components@);
        &&& distinct_types(cv)
        &&& forall|t: u32| #[trigger] flag_slots(self.slots).dom().contains(t) <==> has_type(cv, t)
        &&& forall|j: int|
            0 <= j < cv.len() ==> #[trigger] flag_slots(self.slots)[cv[j].type_flag()] == j
    }

    /// Builds an entity from a list of components; a component whose type
    /// occurs earlier in the list replaces the earlier one in its place.
    pub fn new(id: usize, components: Vec<&'a T>) -> (r: Self)
        ensures
            r.id_view() == id,
            r.components_view() == by_type(deref_all(components@)),
    {
        let mut slots = flag_slots_new();
        let mut comps: Vec<&'a T> = Vec::new();
        let n = components.len();
        let mut i: usize = 0;
        let ghost all = deref_all(components@);
        while i < n
            invariant
                n == components.len(),
                all == deref_all(components@),
                0 <= i <= n,
                deref_all(comps@) == by_type(all.take(i as int)),
                distinct_types(deref_all(comps@)),
                forall|t: u32|
                    #[trigger] flag_slots(slots).dom().contains(t) <==> has_type(deref_all(comps@), t),
                forall|j: int|
                    0 <= j < comps@.len() ==> #[trigger] flag_slots(slots)[deref_all(comps@)[j].type_flag()]
                        == j,
            decreases n - i,
        {
            let c: &'a T = components[i];
            let t = c.get_type();
            let ghost prev = deref_all(comps@);
            let ghost pos = position_of_flag(prev, t);
            proof {
                lemma_position_of_flag(prev, t);
                assert(all.take(i + 1).drop_last() =~= all.take(i as int));
                assert(all.take(i + 1).last() == *c);
            }
            match flag_slots_get(&slots, t) {
                Some(p) => {
                    proof {
                        let j = choose|j: int| 0 <= j < prev.len() && #[trigger] prev[j].type_flag() == t;
                        assert(flag_slots(slots)[prev[j].type_flag()] == j);
                        lemma_position_in_distinct(prev, j);
                    }
                    comps.set(p, c);
                    proof {
                        assert(deref_all(comps@) =~= prev.update(pos, *c));
                    }
                },
                None => {
                    proof {
                        assert forall|j: int| 0 <= j < prev.len() implies prev[j].type_flag() != t by {
                            if prev[j].type_flag() == t {
                                assert(has_type(prev, t));
                            }
                        }
                        lemma_position_absent(prev, t);
                    }
                    let len = comps.len();
                    flag_slots_insert(&mut slots, t, len);
                    comps.push(c);
                    proof {
                        assert(deref_all(comps@) =~= prev.push(*c));
                    }
                },
            }
            proof {
                lemma_by_type_distinct(all.take(i + 1));
                let cv = deref_all(comps@);
                assert forall|t2: u32|
                    #[trigger] flag_slots(slots).dom().contains(t2) <==> has_type(cv, t2) by {
                    if has_type(cv, t2) && t2 != t {
                        let j = choose|j: int| 0 <= j < cv.len() && #[trigger] cv[j].type_flag() == t2;
                        assert(j < prev.len() && prev[j] == cv[j]);
                        assert(has_type(prev, t2));
                    }
                    if t2 == t {
                        if pos < prev.len() {
                            assert(cv[pos].type_flag() == t);
                        } else {
                            assert(cv[prev.len() as int].type_flag() == t);
                        }
                    }
                    if flag_slots(slots).dom().contains(t2) && t2 != t {
                        assert(has_type(prev, t2));
                        let j = choose|j: int| 0 <= j < prev.len() && #[trigger] prev[j].type_flag() == t2;
                        assert(j != pos);
                        assert(cv[j] == prev[j]);
                    }
                }
                assert forall|j: int| 0 <= j < cv.len() implies #[trigger] flag_slots(slots)[cv[j].type_flag()] == j by {
                    if j != pos && j < prev.len() {
                        assert(cv[j] == prev[j]);
                    }
                }
            }
            i += 1;
        }
        proof {
            assert(all.take(n as int) =~= all);
        }
        Entity { id, slots, components: comps }
    }

    /// The id of the entity.
    pub fn id(&self) -> (r: usize)
        ensures
            r == self.id_view(),
    {
        self.id
    }

    /// The number of components of the entity.
    pub fn len(&self) -> (r: usize)
        ensures
            r == self.components_view().len(),
    {
        self.components.len()
    }

    /// The component of type `component_type`, if the entity has one.
    pub fn get(&self, component_type: u32) -> (r: Option<&'a T>)
        ensures
            match r {
                Some(c) => find_type(self.components_view(), component_type) == Some(*c),
                None => find_type(self.components_view(), component_type) is None,
            },
    {
        proof {
            use_type_invariant(self);
        }
        let ghost cv = self.components_view();
        proof {
            lemma_position_of_flag(cv, component_type);
        }
        match flag_slots_get(&self.slots, component_type) {
            Some(p) => {
                proof {
                    let j = choose|j: int| 0 <= j < cv.len() && #[trigger] cv[j].type_flag() == component_type;
                    assert(flag_slots(self.slots)[cv[j].type_flag()] == j);
                    lemma_position_in_distinct(cv, j);
                }
                Some(self.components[p])
            },
            None => {
                proof {
                    assert forall|j: int| 0 <= j < cv.len() implies cv[j].type_flag() != component_type by {
                        if cv[j].type_flag() == component_type {
                            assert(has_type(cv, component_type));
                        }
                    }
                    lemma_position_absent(cv, component_type);
                }
                None
            },
        }
    }

    /// The component of type `component_type`; the entity must have one.
    pub fn component(&self, component_type: u32) -> (r: &'a T)
        requires
            find_type(self.components_view(), component_type) is Some,
        ensures
            find_type(self.components_view(), component_type) == Some(*r),
    {
        self.get(component_type).unwrap()
    }

    /// The component at position `index` of the entity's list.
    pub fn component_at(&self, index: usize) -> (r: &'a T)
        requires
            index < self.components_view().len(),
        ensures
            *r == self.components_view()[index as int],
    {
        self.components[index]
    }
}

} // verus!
