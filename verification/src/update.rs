//! Staging area for component writes, applied to the store by
//! `Entities::commit`.
use crate::component::Component;
use crate::slots::{
    flag_slots, flag_slots_get, flag_slots_insert, flag_slots_new, id_slots, id_slots_get,
    id_slots_insert, id_slots_new, lemma_indexes_push,
};
use crate::laws::{last_of_type, law_stage_all_keeps_others, law_stage_keeps_others};
use indexmap::IndexMap;
use std::hash::RandomState;
use vstd::prelude::*;

verus! {

/// Position of the first occurrence of `k` in `ks`; `ks.len()` when absent.
pub open spec fn key_position<K>(ks: Seq<K>, k: K) -> int
    decreases ks.len(),
{
    if ks.len() == 0 {
        0
    } else if ks[0] == k {
        0
    } else {
        1 + key_position(ks.drop_first(), k)
    }
}

/// `key_position` lies in `0..=ks.len()` and points at `k` when below the
/// length, with no earlier occurrence of `k`.
pub proof fn lemma_key_position<K>(ks: Seq<K>, k: K)
    ensures
        0 <= key_position(ks, k) <= ks.len(),
        key_position(ks, k) < ks.len() ==> ks[key_position(ks, k)] == k,
        key_position(ks, k) == ks.len() <==> !ks.contains(k),
        forall|j: int| 0 <= j < key_position(ks, k) ==> ks[j] != k,
    decreases ks.len(),
{
    if ks.len() > 0 && ks[0] != k {
        lemma_key_position(ks.drop_first(), k);
        assert forall|j: int| 0 <= j < key_position(ks, k) implies ks[j] != k by {
            if j > 0 {
                assert(ks[j] == ks.drop_first()[j - 1]);
            }
        }
        if ks.contains(k) {
            let j = choose|j: int| 0 <= j < ks.len() && ks[j] == k;
            assert(ks.drop_first()[j - 1] == k);
        }
        if ks.drop_first().contains(k) {
            let j = choose|j: int| 0 <= j < ks.drop_first().len() && ks.drop_first()[j] == k;
            assert(ks[j + 1] == k);
        }
    } else if ks.len() > 0 {
        assert(ks[0] == k);
    }
}

/// In a sequence without duplicates, the position of an element is its index.
pub proof fn lemma_key_position_unique<K>(ks: Seq<K>, i: int)
    requires
        ks.no_duplicates(),
        0 <= i < ks.len(),
    ensures
        key_position(ks, ks[i]) == i,
{
    lemma_key_position(ks, ks[i]);
}

/// The type flags of a list of staged groups.
pub open spec fn group_flags<T>(groups: Seq<(u32, Seq<(usize, T)>)>) -> Seq<u32> {
    groups.map_values(|g: (u32, Seq<(usize, T)>)| g.0)
}

/// The entity ids of a list of staged entries.
pub open spec fn entry_ids<T>(entries: Seq<(usize, T)>) -> Seq<usize> {
    entries.map_values(|p: (usize, T)| p.0)
}

/// Stages `c` for entity `e` within one group: the entry of `e` is replaced
/// in its place, or appended when `e` has none.
pub open spec fn stage_entry<T>(entries: Seq<(usize, T)>, e: usize, c: T) -> Seq<(usize, T)> {
    let p = key_position(entry_ids(entries), e);
    if p < entries.len() {
        entries.update(p, (e, c))
    } else {
        entries.push((e, c))
    }
}

/// Stages `c` for entity `e`: into the group of `c`'s type when there is one
/// (keeping the group's place), else into a new last group.
pub open spec fn stage<T: Component>(groups: Seq<(u32, Seq<(usize, T)>)>, e: usize, c: T) -> Seq<
    (u32, Seq<(usize, T)>),
> {
    let t = c.type_flag();
    let g = key_position(group_flags(groups), t);
    if g < groups.len() {
        groups.update(g, (t, stage_entry(groups[g].1, e, c)))
    } else {
        groups.push((t, seq![(e, c)]))
    }
}

/// The component staged for entity `e` under type flag `t`: the entry of
/// `e` in the group of `t`, if there is one.
pub open spec fn staged_for<T>(groups: Seq<(u32, Seq<(usize, T)>)>, t: u32, e: usize) -> Option<T> {
    let g = key_position(group_flags(groups), t);
    if g < groups.len() {
        let entries = groups[g].1;
        let p = key_position(entry_ids(entries), e);
        if p < entries.len() {
            Some(entries[p].1)
        } else {
            None
        }
    } else {
        None
    }
}

/// Stages every component of `cs`, in order, for entity `e`.
pub open spec fn stage_all<T: Component>(
    groups: Seq<(u32, Seq<(usize, T)>)>,
    e: usize,
    cs: Seq<T>,
) -> Seq<(u32, Seq<(usize, T)>)>
    decreases cs.len(),
{
    if cs.len() == 0 {
        groups
    } else {
        stage(stage_all(groups, e, cs.drop_last()), e, cs.last())
    }
}

/// Staging components for one entity only adds writes for that entity;
/// staging no component stages nothing.
pub proof fn lemma_stage_all_targets<T: Component>(
    groups: Seq<(u32, Seq<(usize, T)>)>,
    e: usize,
    cs: Seq<T>,
)
    requires
        forall|i: int, j: int|
            0 <= i < groups.len() && 0 <= j < groups[i].1.len() ==> (#[trigger] groups[i].1[j]).0 == e,
    ensures
        forall|i: int, j: int|
            0 <= i < stage_all(groups, e, cs).len() && 0 <= j < stage_all(groups, e, cs)[i].1.len()
                ==> (#[trigger] stage_all(groups, e, cs)[i].1[j]).0 == e,
        cs.len() == 0 ==> stage_all(groups, e, cs) == groups,
    decreases cs.len(),
{
    if cs.len() > 0 {
        let prev = stage_all(groups, e, cs.drop_last());
        lemma_stage_all_targets(groups, e, cs.drop_last());
        let c = cs.last();
        let g = key_position(group_flags(prev), c.type_flag());
        lemma_key_position(group_flags(prev), c.type_flag());
        let r = stage_all(groups, e, cs);
        assert(r == stage(prev, e, c));
        assert forall|i: int, j: int| 0 <= i < r.len() && 0 <= j < r[i].1.len() implies (#[trigger] r[i].1[j]).0 == e by {
            if g < prev.len() && i == g {
                let entries = prev[g].1;
                let p = key_position(entry_ids(entries), e);
                lemma_key_position(entry_ids(entries), e);
                if j < entries.len() && j != p {
                    assert(r[i].1[j] == entries[j]);
                }
            } else if i < prev.len() {
                assert(r[i] == prev[i]);
            }
        }
    }
}

/// The writes of a list of groups, group after group, each group's entries
/// in order: (type flag, entity id, component).
pub open spec fn writes<T>(groups: Seq<(u32, Seq<(usize, T)>)>) -> Seq<(u32, usize, T)>
    decreases groups.len(),
{
    if groups.len() == 0 {
        Seq::empty()
    } else {
        writes(groups.drop_last()) + group_writes(groups.last())
    }
}

/// The writes of one group.
pub open spec fn group_writes<T>(g: (u32, Seq<(usize, T)>)) -> Seq<(u32, usize, T)> {
    g.1.map_values(|p: (usize, T)| (g.0, p.0, p.1))
}

/// Staged groups are well formed: no type twice, no entity twice within a
/// group, and every component staged under the flag of its own type.
pub open spec fn groups_wf<T: Component>(groups: Seq<(u32, Seq<(usize, T)>)>) -> bool {
    &&& group_flags(groups).no_duplicates()
    &&& forall|i: int|
        0 <= i < groups.len() ==> entry_ids(#[trigger] groups[i].1).no_duplicates()
    &&& forall|i: int, j: int|
        0 <= i < groups.len() && 0 <= j < groups[i].1.len() ==> (#[trigger] groups[i].1[j]).1.type_flag()
            == groups[i].0
}

/// The writes staged for one component type.
#[derive(Debug)]
struct Group<T> {
    flag: u32,
    slots: IndexMap<usize, usize, RandomState>,
    entries: Vec<(usize, T)>,
}

impl<T: Component> Group<T> {
    spec fn wf(&self) -> bool {
        let ids = entry_ids(self.entries@);
        &&& ids.no_duplicates()
        &&& forall|e: usize| #[trigger] id_slots(self.slots).dom().contains(e) <==> ids.contains(e)
        &&& forall|j: int| 0 <= j < ids.len() ==> #[trigger] id_slots(self.slots)[ids[j]] == j
        &&& forall|j: int| 0 <= j < self.entries@.len() ==> (#[trigger] self.entries@[j]).1.type_flag() == self.flag
    }

    fn put(&mut self, entity_id: usize, component: T)
        requires
            old(self).wf(),
            component.type_flag() == old(self).flag,
        ensures
            final(self).wf(),
            final(self).flag == old(self).flag,
            final(self).entries@ == stage_entry(old(self).entries@, entity_id, component),
    {
        let ghost ids = entry_ids(self.entries@);
        proof {
            lemma_key_position(ids, entity_id);
        }
        match id_slots_get(&self.slots, entity_id) {
            Some(p) => {
                proof {
                    let j = choose|j: int| 0 <= j < ids.len() && ids[j] == entity_id;
                    assert(id_slots(self.slots)[ids[j]] == j);
                    lemma_key_position_unique(ids, j);
                }
                self.entries.set(p, (entity_id, component));
                proof {
                    assert(entry_ids(self.entries@) =~= ids);
                }
            },
            None => {
                let len = self.entries.len();
                id_slots_insert(&mut self.slots, entity_id, len);
                self.entries.push((entity_id, component));
                proof {
                    assert(entry_ids(self.entries@) =~= ids.push(entity_id));
                    lemma_indexes_push(id_slots(old(self).slots), ids, entity_id, len);
                }
            },
        }
    }
}

/// Set of staged component writes; [crate::entities::Entities::commit]
/// applies them.
#[derive(Debug)]
pub struct Update<T> {
    slots: IndexMap<u32, usize, RandomState>,
    groups: Vec<Group<T>>,
}

impl<T: Component> Update<T> {
    /// The staged writes, grouped by component type in the order in which
    /// each type was first staged.
    pub closed spec fn staged(&self) -> Seq<(u32, Seq<(usize, T)>)> {
        self.groups@.map_values(|g: Group<T>| (g.flag, g.entries@))
    }

    /// The staging area is consistent with its lookup tables.
    pub closed spec fn wf(&self) -> bool {
        let gs = self.staged();
        &&& groups_wf(gs)
        &&& forall|i: int| 0 <= i < self.groups@.len() ==> (#[trigger] self.groups@[i]).wf()
        &&& forall|t: u32|
            #[trigger] flag_slots(self.slots).dom().contains(t) <==> group_flags(gs).contains(t)
        &&& forall|i: int|
            0 <= i < gs.len() ==> #[trigger] flag_slots(self.slots)[group_flags(gs)[i]] == i
    }

    /// An update that stages nothing.
    pub fn new() -> (r: Self)
        ensures
            r.wf(),
            r.staged() == Seq::<(u32, Seq<(usize, T)>)>::empty(),
    {
        let r = Update { slots: flag_slots_new(), groups: Vec::new() };
        proof {
            assert(r.staged() =~= Seq::<(u32, Seq<(usize, T)>)>::empty());
            assert(group_flags(r.staged()) =~= Seq::<u32>::empty());
        }
        r
    }

    /// A consistent staging area holds well-formed groups.
    pub proof fn lemma_wf_groups(&self)
        requires
            self.wf(),
        ensures
            groups_wf(self.staged()),
    {
    }

    /// Hands out the staged writes, group by group.
    pub(crate) fn into_groups(self) -> (r: Vec<(u32, Vec<(usize, T)>)>)
        ensures
            r@.map_values(|g: (u32, Vec<(usize, T)>)| (g.0, g.1@)) == self.staged(),
    {
        let ghost all = self.groups@;
        let mut r: Vec<(u32, Vec<(usize, T)>)> = Vec::new();
        for g in it: self.groups
            invariant
                it.seq() == all,
                r@.map_values(|g: (u32, Vec<(usize, T)>)| (g.0, g.1@)) == all.take(it.index() as int).map_values(
                    |g: Group<T>| (g.flag, g.entries@),
                ),
        {
            let ghost idx = it.index();
            assert(g == all[idx as int]);
            let ghost before = r@;
            let Group { flag, slots: _, entries } = g;
            r.push((flag, entries));
            proof {
                assert(r@ == before.push((flag, entries)));
                let lhs = r@.map_values(|g: (u32, Vec<(usize, T)>)| (g.0, g.1@));
                let prev = before.map_values(|g: (u32, Vec<(usize, T)>)| (g.0, g.1@));
                let rhs = all.take(idx + 1).map_values(|g: Group<T>| (g.flag, g.entries@));
                let prhs = all.take(idx as int).map_values(|g: Group<T>| (g.flag, g.entries@));
                assert(prev == prhs);
                assert(idx < all.len());
                assert(prhs.len() == idx);
                assert(before.len() == idx);
                assert(lhs.len() == idx + 1);
                assert forall|j: int| 0 <= j < idx + 1 implies lhs[j] == rhs[j] by {
                    if j < idx {
                        assert(lhs[j] == prev[j]);
                        assert(rhs[j] == prhs[j]);
                    }
                }
                assert(lhs =~= rhs);
            }
        }
        proof {
            assert(all.take(all.len() as int) =~= all);
        }
        r
    }

    /// Stages `component` for entity `entity_id`, replacing a component of
    /// the same type staged earlier for that entity.
    pub fn set(&mut self, entity_id: usize, component: T) -> (r: &mut Self)
        requires
            old(self).wf(),
        ensures
            r.wf(),
            r.staged() == stage(old(self).staged(), entity_id, component),
            *final(self) == *final(r),
            staged_for(r.staged(), component.type_flag(), entity_id) == Some(component),
            forall|t: u32, e: usize|
                !(t == component.type_flag() && e == entity_id) ==> #[trigger] staged_for(r.staged(), t, e)
                    == staged_for(old(self).staged(), t, e),
    {
        let ghost comp = component;
        let t = component.get_type();
        let ghost gs = self.staged();
        let ghost flags = group_flags(gs);
        proof {
            lemma_key_position(flags, t);
        }
        match flag_slots_get(&self.slots, t) {
            Some(g) => {
                proof {
                    let j = choose|j: int| 0 <= j < flags.len() && flags[j] == t;
                    assert(flag_slots(self.slots)[flags[j]] == j);
                    lemma_key_position_unique(flags, j);
                    assert(self.groups@[g as int].wf());
                    assert(gs[g as int].0 == t);
                }
                let group = &mut self.groups[g];
                group.put(entity_id, component);
                proof {
                    let ngs = self.staged();
                    assert(ngs =~= gs.update(g as int, (t, stage_entry(gs[g as int].1, entity_id, component))));
                    assert(group_flags(ngs) =~= flags);
                    assert forall|i: int| 0 <= i < self.groups@.len() implies (#[trigger] self.groups@[i]).wf() by {
                        if i != g {
                            assert(self.groups@[i] == old(self).groups@[i]);
                        }
                    }
                    assert forall|i: int| 0 <= i < ngs.len() implies entry_ids(#[trigger] ngs[i].1).no_duplicates() by {
                        assert(self.groups@[i].wf());
                    }
                    assert forall|i: int, j: int|
                        0 <= i < ngs.len() && 0 <= j < ngs[i].1.len() implies (#[trigger] ngs[i].1[j]).1.type_flag()
                            == ngs[i].0 by {
                        assert(self.groups@[i].wf());
                    }
                }
            },
            None => {
                let mut group_slots = id_slots_new();
                id_slots_insert(&mut group_slots, entity_id, 0);
                let mut entries = Vec::new();
                entries.push((entity_id, component));
                let group = Group { flag: t, slots: group_slots, entries };
                proof {
                    assert(entry_ids(group.entries@) =~= seq![entity_id]);
                    assert forall|e: usize| #[trigger] id_slots(group.slots).dom().contains(e) <==> entry_ids(group.entries@).contains(e) by {
                        if e == entity_id {
                            assert(entry_ids(group.entries@)[0] == e);
                        }
                    }
                    assert(group.wf());
                }
                let len = self.groups.len();
                flag_slots_insert(&mut self.slots, t, len);
                self.groups.push(group);
                proof {
                    let ngs = self.staged();
                    assert(ngs =~= gs.push((t, seq![(entity_id, component)])));
                    let nflags = group_flags(ngs);
                    assert(nflags =~= flags.push(t));
                    assert forall|i: int| 0 <= i < self.groups@.len() implies (#[trigger] self.groups@[i]).wf() by {
                        if i < gs.len() {
                            assert(self.groups@[i] == old(self).groups@[i]);
                        }
                    }
                    lemma_indexes_push(flag_slots(old(self).slots), flags, t, len);
                    assert forall|i: int| 0 <= i < ngs.len() implies entry_ids(#[trigger] ngs[i].1).no_duplicates() by {
                        assert(self.groups@[i].wf());
                    }
                    assert forall|i: int, j: int|
                        0 <= i < ngs.len() && 0 <= j < ngs[i].1.len() implies (#[trigger] ngs[i].1[j]).1.type_flag()
                            == ngs[i].0 by {
                        assert(self.groups@[i].wf());
                    }
                }
            },
        }
        proof {
            law_stage_keeps_others(gs, entity_id, comp, 0, 0);
            assert forall|t2: u32, e: usize|
                !(t2 == comp.type_flag() && e == entity_id) implies #[trigger] staged_for(self.staged(), t2, e)
                    == staged_for(gs, t2, e) by {
                law_stage_keeps_others(gs, entity_id, comp, t2, e);
            }
        }
        self
    }

    /// Stages every component of `components`, in order, for entity
    /// `entity_id`.
    pub fn set_batch(&mut self, entity_id: usize, components: Vec<T>) -> (r: &mut Self)
        requires
            old(self).wf(),
        ensures
            r.wf(),
            r.staged() == stage_all(old(self).staged(), entity_id, components@),
            *final(self) == *final(r),
            forall|t: u32, e: usize|
                #[trigger] staged_for(r.staged(), t, e) == if e == entity_id && last_of_type(components@, t) is Some {
                    last_of_type(components@, t)
                } else {
                    staged_for(old(self).staged(), t, e)
                },
    {
        let ghost start = self.staged();
        let ghost cs = components@;
        for c in it: components
            invariant
                self.wf(),
                it.seq() == cs,
                self.staged() == stage_all(start, entity_id, cs.take(it.index() as int)),
        {
            proof {
                assert(cs.take(it.index() + 1).drop_last() =~= cs.take(it.index() as int));
            }
            self.set(entity_id, c);
        }
        proof {
            assert(cs.take(cs.len() as int) =~= cs);
            assert forall|t: u32, e: usize|
                #[trigger] staged_for(self.staged(), t, e) == if e == entity_id && last_of_type(cs, t) is Some {
                    last_of_type(cs, t)
                } else {
                    staged_for(start, t, e)
                } by {
                law_stage_all_keeps_others(start, entity_id, cs, t, e);
            }
        }
        self
    }
}

impl<T: Component> Default for Update<T> {
    /// An update that stages nothing.
    fn default() -> (r: Self)
        ensures
            r.wf(),
            r.staged() == Seq::<(u32, Seq<(usize, T)>)>::empty(),
    {
        Self::new()
    }
}

} // verus!
