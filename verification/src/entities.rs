//! The entity store: one bucket of component slots per component type, and
//! one register of type flags per entity.
use crate::component::{
    by_type, distinct_types, find_type, lemma_by_type_of_distinct, lemma_position_of_flag, position_of_flag,
    Component,
};
use crate::laws::lemma_key_position_push;
use crate::entity::{deref_all, Entity};
use crate::slots::{flag_slots, flag_slots_get, flag_slots_insert, flag_slots_new, lemma_indexes_push};
use crate::update::{
    staged_for, group_writes, groups_wf, key_position, lemma_key_position, lemma_key_position_unique, stage_all,
    writes, Update,
};
use crate::laws::{
    is_last_of_its_type, last_of_type, law_commit_reads_back, law_commit_registers,
    lemma_last_of_type_at, lemma_last_of_type_exists, lemma_stage_all_holds_last,
    lemma_writes_index, lemma_writes_member, store_ok,
};
use crate::commit_laws::{created_slot, flags_of, group_bits, law_commit, lemma_create_effects, stages_data_at, stores_data};
use indexmap::IndexMap;
use std::hash::RandomState;
use vstd::prelude::*;

verus! {

/// What an entity store holds: the number of entities created, the type
/// register of each entity slot, the component types that have a bucket (in
/// the order in which their buckets were created) and those buckets.
pub struct Store<T> {
    pub count: nat,
    pub register: Seq<u32>,
    pub flags: Seq<u32>,
    pub buckets: Seq<Seq<Option<T>>>,
}

/// A bucket in which no slot holds a component.
pub open spec fn empty_bucket_of<T>(size: nat) -> Seq<Option<T>> {
    Seq::new(size, |i: int| None::<T>)
}

/// The bucket of component type `t`; an empty bucket when there is none.
pub open spec fn bucket_of<T>(s: Store<T>, size: nat, t: u32) -> Seq<Option<T>> {
    let p = key_position(s.flags, t);
    if p < s.flags.len() {
        s.buckets[p]
    } else {
        empty_bucket_of(size)
    }
}

/// Applies one staged write `(t, e, v)`: the register of `e` gains flag `t`;
/// unless `v` is a marker, it is stored in slot `e` of the bucket of `t`,
/// which is created (last) if it does not exist yet.
pub open spec fn store_write<T: Component>(s: Store<T>, size: nat, w: (u32, usize, T)) -> Store<T> {
    let t = w.0;
    let e = w.1 as int;
    let v = w.2;
    let register = s.register.update(e, s.register[e] | t);
    let p = key_position(s.flags, t);
    if v.marker() {
        Store { count: s.count, register, flags: s.flags, buckets: s.buckets }
    } else if p < s.flags.len() {
        Store {
            count: s.count,
            register,
            flags: s.flags,
            buckets: s.buckets.update(p, s.buckets[p].update(e, Some(v))),
        }
    } else {
        Store {
            count: s.count,
            register,
            flags: s.flags.push(t),
            buckets: s.buckets.push(empty_bucket_of(size).update(e, Some(v))),
        }
    }
}

/// Applies staged writes in order.
pub open spec fn store_writes<T: Component>(s: Store<T>, size: nat, ws: Seq<(u32, usize, T)>) -> Store<T>
    decreases ws.len(),
{
    if ws.len() == 0 {
        s
    } else {
        store_write(store_writes(s, size, ws.drop_last()), size, ws.last())
    }
}

/// Every staged write targets an entity slot below `size`.
pub open spec fn targets_below<T>(gs: Seq<(u32, Seq<(usize, T)>)>, size: nat) -> bool {
    forall|i: int, j: int| 0 <= i < gs.len() && 0 <= j < gs[i].1.len() ==> (#[trigger] gs[i].1[j]).0 < size
}

/// The components that entity `e` holds, in bucket order.
pub open spec fn components_at<T>(s: Store<T>, e: int) -> Seq<T> {
    Seq::new(s.buckets.len(), |i: int| s.buckets[i][e]).filter_map(|o: Option<T>| o)
}

/// The register of `e` holds every flag of `mask`.
pub open spec fn has_all(register: u32, mask: u32) -> bool {
    register & mask == mask
}

/// The ids below `n` whose register holds every flag of `mask`, ascending.
pub open spec fn matching_ids(register: Seq<u32>, n: nat, mask: u32) -> Seq<int>
    decreases n,
{
    if n == 0 {
        Seq::empty()
    } else {
        let prev = matching_ids(register, (n - 1) as nat, mask);
        if has_all(register[n - 1], mask) {
            prev.push(n - 1)
        } else {
            prev
        }
    }
}

/// The type lookup in `a` with `x` appended: what `a` holds of type `t`,
/// else `x` when it has that type.
proof fn lemma_find_type_push<T: Component>(a: Seq<T>, x: T, t: u32)
    ensures
        find_type(a.push(x), t) == if find_type(a, t) is Some {
            find_type(a, t)
        } else if x.type_flag() == t {
            Some(x)
        } else {
            None::<T>
        },
{
    let b = a.push(x);
    lemma_position_of_flag(a, t);
    lemma_position_of_flag(b, t);
    let pa = position_of_flag(a, t);
    let pb = position_of_flag(b, t);
    if pa < a.len() {
        assert(b[pa] == a[pa]);
        if pb < pa {
            assert(b[pb] == a[pb]);
        }
        assert(pb == pa);
    } else {
        if pb < a.len() {
            assert(b[pb] == a[pb]);
        }
        if x.type_flag() == t {
            assert(b[a.len() as int] == x);
        }
    }
}

/// In a column of slots where a slot `i` holds only components of type
/// `flags[i]` and no flag repeats, the component of type `t` among those
/// held is the one in the slot of `t`.
proof fn lemma_find_in_column<T: Component>(col: Seq<Option<T>>, flags: Seq<u32>, t: u32)
    requires
        col.len() == flags.len(),
        flags.no_duplicates(),
        forall|i: int| 0 <= i < col.len() && (#[trigger] col[i]) is Some ==> col[i]->0.type_flag() == flags[i],
    ensures
        find_type(col.filter_map(|o: Option<T>| o), t) == if key_position(flags, t) < flags.len() {
            col[key_position(flags, t)]
        } else {
            None::<T>
        },
    decreases col.len(),
{
    let f = |o: Option<T>| o;
    crate::update::lemma_key_position(flags, t);
    if col.len() == 0 {
        assert(col.filter_map(f) =~= Seq::<T>::empty());
        lemma_position_of_flag(Seq::<T>::empty(), t);
    } else {
        let c0 = col.drop_last();
        let f0 = flags.drop_last();
        let last = col.last();
        let lf = flags.last();
        assert(last == col[col.len() - 1]);
        assert forall|i: int| 0 <= i < c0.len() && (#[trigger] c0[i]) is Some implies c0[i]->0.type_flag() == f0[i] by {
            assert(c0[i] == col[i]);
        }
        assert(f0.no_duplicates()) by {
            assert forall|i: int, j: int| 0 <= i < j < f0.len() implies f0[i] != f0[j] by {
                assert(f0[i] == flags[i] && f0[j] == flags[j]);
            }
        }
        lemma_find_in_column(c0, f0, t);
        assert(flags =~= f0.push(lf));
        lemma_key_position_push(f0, lf, t);
        crate::update::lemma_key_position(f0, t);
        crate::update::lemma_key_position(f0, lf);
        if f0.contains(lf) {
            let j = choose|j: int| 0 <= j < f0.len() && f0[j] == lf;
            assert(flags[j] == flags[flags.len() - 1]);
        }
        let rest = c0.filter_map(f);
        match last {
            Some(x) => {
                assert(col.filter_map(f) == rest + seq![x]);
                assert(rest + seq![x] =~= rest.push(x));
                lemma_find_type_push(rest, x, t);
            },
            None => {
                assert(col.filter_map(f) == rest);
            },
        }
        if t == lf {
            lemma_key_position(flags, t);
        } else {
            if key_position(f0, t) < f0.len() {
                assert(col[key_position(f0, t)] == c0[key_position(f0, t)]);
            }
        }
    }
}

/// The store of all entities and their components.  `E` is the number of
/// entity slots; every bucket and the register have that many slots.
pub struct Entities<T, const E: usize> {
    slots: IndexMap<u32, usize, RandomState>,
    flags: Ghost<Seq<u32>>,
    buckets: Vec<Vec<Option<T>>>,
    empty_bucket: Vec<Option<T>>,
    entities_count: usize,
    register: Vec<u32>,
}

impl<T: Component, const E: usize> Entities<T, E> {
    /// What the store holds.
    pub closed spec fn model(&self) -> Store<T> {
        Store {
            count: self.entities_count as nat,
            register: self.register@,
            flags: self.flags@,
            buckets: self.buckets@.map_values(|b: Vec<Option<T>>| b@),
        }
    }

    /// The store is consistent: sizes match `E`, each component type has at
    /// most one bucket, the lookup table finds it, and every stored
    /// component is a non-marker component of its bucket's type.
    pub closed spec fn wf(&self) -> bool {
        let m = self.model();
        &&& m.register.len() == E
        &&& self.empty_bucket@ == empty_bucket_of::<T>(E as nat)
        &&& m.buckets.len() == m.flags.len()
        &&& forall|i: int| 0 <= i < m.buckets.len() ==> (#[trigger] m.buckets[i]).len() == E
        &&& m.flags.no_duplicates()
        &&& forall|t: u32| #[trigger] flag_slots(self.slots).dom().contains(t) <==> m.flags.contains(t)
        &&& forall|i: int| 0 <= i < m.flags.len() ==> #[trigger] flag_slots(self.slots)[m.flags[i]] == i
        &&& forall|i: int, e: int|
            0 <= i < m.buckets.len() && 0 <= e < E && (#[trigger] m.buckets[i][e]) is Some ==> {
                &&& m.buckets[i][e]->0.type_flag() == m.flags[i]
                &&& !m.buckets[i][e]->0.marker()
            }
    }

    /// A store without entities and without buckets.
    pub fn empty_custom() -> (r: Self)
        ensures
            r.wf(),
            r.model().count == 0,
            r.model().register == Seq::new(E as nat, |i: int| 0u32),
            r.model().flags.len() == 0,
            r.model().buckets.len() == 0,
    {
        let empty_bucket = Self::new_bucket();
        let mut register: Vec<u32> = Vec::new();
        let mut k: usize = 0;
        while k < E
            invariant
                0 <= k <= E,
                register@ == Seq::new(k as nat, |i: int| 0u32),
            decreases E - k,
        {
            register.push(0);
            k += 1;
            proof {
                assert(register@ =~= Seq::new(k as nat, |i: int| 0u32));
            }
        }
        let r = Entities {
            slots: flag_slots_new(),
            flags: Ghost(Seq::empty()),
            buckets: Vec::new(),
            empty_bucket,
            entities_count: 0,
            register,
        };
        proof {
            assert(r.model().buckets =~= Seq::<Seq<Option<T>>>::empty());
        }
        r
    }

    /// A bucket of `E` empty slots.
    fn new_bucket() -> (r: Vec<Option<T>>)
        ensures
            r@ == empty_bucket_of::<T>(E as nat),
    {
        let mut b: Vec<Option<T>> = Vec::new();
        let mut k: usize = 0;
        while k < E
            invariant
                0 <= k <= E,
                b@ == empty_bucket_of::<T>(k as nat),
            decreases E - k,
        {
            b.push(None);
            k += 1;
            proof {
                assert(b@ =~= empty_bucket_of::<T>(k as nat));
            }
        }
        b
    }

    /// The position of the bucket of component type `t`, created (empty,
    /// last) when the store has none.
    fn bucket_slot(&mut self, t: u32) -> (i: usize)
        requires
            old(self).wf(),
        ensures
            final(self).wf(),
            final(self).model().count == old(self).model().count,
            final(self).model().register == old(self).model().register,
            i < final(self).model().flags.len(),
            final(self).model().flags[i as int] == t,
            old(self).model().flags.contains(t) ==> final(self).model() == old(self).model() && i
                == key_position(old(self).model().flags, t),
            !old(self).model().flags.contains(t) ==> {
                &&& final(self).model().flags == old(self).model().flags.push(t)
                &&& final(self).model().buckets == old(self).model().buckets.push(
                    empty_bucket_of(E as nat),
                )
                &&& i == old(self).model().flags.len()
            },
    {
        let ghost m = self.model();
        proof {
            lemma_key_position(m.flags, t);
        }
        match flag_slots_get(&self.slots, t) {
            Some(i) => {
                proof {
                    let j = choose|j: int| 0 <= j < m.flags.len() && m.flags[j] == t;
                    assert(flag_slots(self.slots)[m.flags[j]] == j);
                    lemma_key_position_unique(m.flags, j);
                }
                i
            },
            None => {
                let bucket = Self::new_bucket();
                let i = self.buckets.len();
                flag_slots_insert(&mut self.slots, t, i);
                self.buckets.push(bucket);
                self.flags = Ghost(self.flags@.push(t));
                proof {
                    let nm = self.model();
                    assert(nm.buckets =~= m.buckets.push(empty_bucket_of(E as nat)));
                    assert(nm.flags == m.flags.push(t));
                    lemma_indexes_push(flag_slots(old(self).slots), m.flags, t, i);
                    assert forall|k: int, e: int|
                        0 <= k < nm.buckets.len() && 0 <= e < E && (#[trigger] nm.buckets[k][e]) is Some implies {
                            &&& nm.buckets[k][e]->0.type_flag() == nm.flags[k]
                            &&& !nm.buckets[k][e]->0.marker()
                        } by {
                        if k < m.buckets.len() {
                            assert(nm.buckets[k] == m.buckets[k]);
                        }
                    }
                }
                i
            },
        }
    }

    /// Applies one staged write (see [store_write]).
    fn write(&mut self, t: u32, e: usize, v: T)
        requires
            old(self).wf(),
            e < E,
            v.type_flag() == t,
        ensures
            final(self).wf(),
            final(self).model() == store_write(old(self).model(), E as nat, (t, e, v)),
    {
        let ghost m = self.model();
        let reg = self.register[e];
        self.register.set(e, reg | t);
        let ghost m1 = self.model();
        proof {
            assert(m1.buckets == m.buckets);
            lemma_key_position(m.flags, t);
        }
        if !v.is_marker() {
            let i = self.bucket_slot(t);
            let ghost m2 = self.model();
            proof {
                if m.flags.contains(t) {
                    let j = choose|j: int| 0 <= j < m.flags.len() && m.flags[j] == t;
                    lemma_key_position_unique(m.flags, j);
                }
                assert(m2.buckets[i as int] == self.buckets@[i as int]@);
                assert(m2.buckets[i as int].len() == E);
            }
            self.buckets[i].set(e, Some(v));
            proof {
                let nm = self.model();
                assert(nm.buckets =~= m2.buckets.update(i as int, m2.buckets[i as int].update(e as int, Some(v))));
                let sw = store_write(m, E as nat, (t, e, v));
                assert(m1.register =~= m.register.update(e as int, m.register[e as int] | t));
                if m.flags.contains(t) {
                    assert(m2 == m1);
                    assert(nm.buckets =~= sw.buckets);
                } else {
                    assert(nm.buckets =~= sw.buckets);
                }
                assert(nm.register =~= sw.register);
                assert(nm.flags =~= sw.flags);
                assert(nm == sw);
                assert forall|k: int| 0 <= k < nm.buckets.len() implies (#[trigger] nm.buckets[k]).len() == E by {
                    if k != i {
                        assert(nm.buckets[k] == m2.buckets[k]);
                    }
                }
                assert forall|k: int, x: int|
                    0 <= k < nm.buckets.len() && 0 <= x < E && (#[trigger] nm.buckets[k][x]) is Some implies {
                        &&& nm.buckets[k][x]->0.type_flag() == nm.flags[k]
                        &&& !nm.buckets[k][x]->0.marker()
                    } by {
                    if k != i || x != e {
                        assert(nm.buckets[k][x] == m2.buckets[k][x]);
                    }
                }
            }
        } else {
            proof {
                assert(self.model() == store_write(m, E as nat, (t, e, v)));
            }
        }
    }

    /// Creates an empty [Update] object for staging updated components.
    pub fn update(&self) -> (r: Update<T>)
        ensures
            r.wf(),
            r.staged() == Seq::<(u32, Seq<(usize, T)>)>::empty(),
    {
        Update::new()
    }

    /// Applies all writes staged in `updates`, type group after type group
    /// (see [store_writes]).
    pub fn commit(&mut self, updates: Update<T>)
        requires
            old(self).wf(),
            updates.wf(),
            targets_below(updates.staged(), E as nat),
        ensures
            final(self).wf(),
            final(self).model() == store_writes(old(self).model(), E as nat, writes(updates.staged())),
            final(self).model().count == old(self).model().count,
            forall|e: usize|
                e < E ==> #[trigger] final(self).model().register[e as int] == old(self).model().register[e as int]
                    | group_bits(updates.staged(), e),
            forall|i: int, j: int|
                0 <= i < updates.staged().len() && 0 <= j < updates.staged()[i].1.len()
                    && !(#[trigger] updates.staged()[i].1[j]).1.marker() ==> bucket_of(
                    final(self).model(),
                    E as nat,
                    updates.staged()[i].0,
                )[updates.staged()[i].1[j].0 as int] == Some(updates.staged()[i].1[j].1),
            forall|t: u32, e: int|
                0 <= e < E && !stages_data_at(updates.staged(), t, e) ==> #[trigger] bucket_of(
                    final(self).model(),
                    E as nat,
                    t,
                )[e] == bucket_of(old(self).model(), E as nat, t)[e],
            forall|t: u32, e: usize|
                staged_for(updates.staged(), t, e) is Some && !staged_for(updates.staged(), t, e)->0.marker()
                    ==> #[trigger] bucket_of(final(self).model(), E as nat, t)[e as int] == staged_for(
                    updates.staged(),
                    t,
                    e,
                ),
            forall|t: u32|
                #[trigger] final(self).model().flags.contains(t) <==> (old(self).model().flags.contains(t)
                    || exists|i: int, j: int|
                    0 <= i < updates.staged().len() && 0 <= j < updates.staged()[i].1.len()
                        && updates.staged()[i].0 == t && !(#[trigger] updates.staged()[i].1[j]).1.marker()),
    {
        let ghost gs = updates.staged();
        let ghost start = self.model();
        proof {
            updates.lemma_wf_groups();
        }
        let groups = updates.into_groups();
        proof {
            assert(writes(gs.take(0)) =~= Seq::<(u32, usize, T)>::empty());
        }
        for g in it: groups
            invariant
                self.wf(),
                it.seq().map_values(|g: (u32, Vec<(usize, T)>)| (g.0, g.1@)) == gs,
                groups_wf(gs),
                targets_below(gs, E as nat),
                self.model() == store_writes(start, E as nat, writes(gs.take(it.index() as int))),
        {
            let ghost k = it.index() as int;
            let ghost done = writes(gs.take(k));
            let ghost group = gs[k];
            proof {
                assert(gs[k] == (g.0, g.1@));
                assert(gs.take(k + 1).drop_last() =~= gs.take(k));
                assert(writes(gs.take(k + 1)) == done + group_writes(group));
            }
            let (t, entries) = g;
            let ghost es = entries@;
            proof {
                assert(done + group_writes(group).take(0) =~= done);
            }
            for w in it2: entries
                invariant
                    self.wf(),
                    it2.seq() == es,
                    group == (t, es),
                    forall|j: int| 0 <= j < es.len() ==> (#[trigger] es[j]).1.type_flag() == t,
                    forall|j: int| 0 <= j < es.len() ==> (#[trigger] es[j]).0 < E,
                    self.model() == store_writes(
                        start,
                        E as nat,
                        done + group_writes(group).take(it2.index() as int),
                    ),
            {
                let ghost j = it2.index() as int;
                proof {
                    let gw = group_writes(group);
                    assert((done + gw.take(j + 1)).drop_last() =~= done + gw.take(j));
                    assert((done + gw.take(j + 1)).last() == (t, w.0, w.1));
                }
                let (e, v) = w;
                self.write(t, e, v);
            }
            proof {
                assert(group_writes(group).take(es.len() as int) =~= group_writes(group));
            }
        }
        proof {
            assert(gs.take(gs.len() as int) =~= gs);
            self.lemma_wf_store_ok();
            law_commit(start, E as nat, gs);
            assert forall|t: u32, e: usize|
                staged_for(gs, t, e) is Some && !staged_for(gs, t, e)->0.marker() implies #[trigger] bucket_of(
                    self.model(),
                    E as nat,
                    t,
                )[e as int] == staged_for(gs, t, e) by {
                let flags = crate::update::group_flags(gs);
                let g = key_position(flags, t);
                lemma_key_position(flags, t);
                assert(flags[g] == gs[g].0);
                let ids = crate::update::entry_ids(gs[g].1);
                let p = key_position(ids, e);
                lemma_key_position(ids, e);
                assert(ids[p] == gs[g].1[p].0);
                assert(!gs[g].1[p].1.marker());
            }
        }
    }

    /// Creates a new entity holding `entity` and returns its id, the
    /// previous [Entities::count].
    pub fn create_entity(&mut self, entity: Vec<T>) -> (r: usize)
        requires
            old(self).wf(),
            old(self).model().count < usize::MAX,
            old(self).model().count < E || entity@.len() == 0,
        ensures
            final(self).wf(),
            r == old(self).model().count,
            final(self).model() == store_writes(
                Store { count: old(self).model().count + 1, ..old(self).model() },
                E as nat,
                writes(stage_all(Seq::empty(), r, entity@)),
            ),
            forall|k: int|
                0 <= k < entity@.len() && !entity@[k].marker() && is_last_of_its_type(entity@, k)
                    ==> bucket_of(final(self).model(), E as nat, (#[trigger] entity@[k]).type_flag())[r as int]
                    == Some(entity@[k]),
            forall|k: int|
                0 <= k < entity@.len() ==> has_all(
                    final(self).model().register[r as int],
                    (#[trigger] entity@[k]).type_flag(),
                ),
            final(self).model().count == old(self).model().count + 1,
            forall|e: usize|
                e < E ==> #[trigger] final(self).model().register[e as int] == if e == r {
                    old(self).model().register[e as int] | flags_of(entity@)
                } else {
                    old(self).model().register[e as int]
                },
            forall|t: u32, e: int|
                0 <= e < E ==> #[trigger] bucket_of(final(self).model(), E as nat, t)[e] == if e == r {
                    created_slot(entity@, t, bucket_of(old(self).model(), E as nat, t)[e])
                } else {
                    bucket_of(old(self).model(), E as nat, t)[e]
                },
            forall|t: u32|
                #[trigger] final(self).model().flags.contains(t) <==> (old(self).model().flags.contains(t)
                    || stores_data(entity@, t)),
    {
        let entity_id = self.entities_count;
        self.entities_count = entity_id + 1;
        let mut updates = self.update();
        let ghost cs = entity@;
        updates.set_batch(entity_id, entity);
        proof {
            crate::update::lemma_stage_all_targets(Seq::empty(), entity_id, cs);
            updates.lemma_wf_groups();
        }
        let ghost gs = updates.staged();
        let ghost start = self.model();
        proof {
            self.lemma_wf_store_ok();
        }
        self.commit(updates);
        proof {
            let ws = writes(gs);
            assert forall|k: int| 0 <= k < ws.len() implies (#[trigger] ws[k]).1 < E by {
                lemma_writes_member(gs, k);
            }
            assert forall|k: int|
                0 <= k < cs.len() && !cs[k].marker() && is_last_of_its_type(cs, k) implies bucket_of(
                    self.model(),
                    E as nat,
                    (#[trigger] cs[k]).type_flag(),
                )[entity_id as int] == Some(cs[k]) by {
                lemma_last_of_type_at(cs, k);
                lemma_stage_all_holds_last(Seq::empty(), entity_id, cs, cs[k].type_flag());
                let (i, j) = choose|i: int, j: int|
                    0 <= i < gs.len() && 0 <= j < gs[i].1.len() && gs[i].0 == cs[k].type_flag()
                        && #[trigger] gs[i].1[j] == (entity_id, cs[k]);
                law_commit_reads_back(start, E as nat, gs, i, j);
            }
            assert forall|k: int| 0 <= k < cs.len() implies has_all(
                self.model().register[entity_id as int],
                (#[trigger] cs[k]).type_flag(),
            ) by {
                lemma_last_of_type_exists(cs, k);
                lemma_stage_all_holds_last(Seq::empty(), entity_id, cs, cs[k].type_flag());
                let (i, j) = choose|i: int, j: int|
                    0 <= i < gs.len() && 0 <= j < gs[i].1.len() && gs[i].0 == cs[k].type_flag()
                        && #[trigger] gs[i].1[j] == (entity_id, last_of_type(cs, cs[k].type_flag())->0);
                lemma_writes_index(gs, i, j);
                law_commit_registers(start, E as nat, ws, entity_id as int, 0);
                assert(ws[writes(gs.take(i)).len() + j].1 == entity_id);
            }
            lemma_create_effects(start, E as nat, entity_id, cs);
        }
        entity_id
    }

    /// All components of entity `entity_id`, one per bucket that holds one
    /// for it, in bucket order.
    pub fn get_entity(&self, entity_id: usize) -> (r: Entity<'_, T>)
        requires
            self.wf(),
            entity_id < E || self.model().flags.len() == 0,
        ensures
            r.id_view() == entity_id,
            r.components_view() == components_at(self.model(), entity_id as int),
    {
        let ghost m = self.model();
        let ghost column = Seq::new(m.buckets.len(), |i: int| m.buckets[i][entity_id as int]);
        let mut comps: Vec<&T> = Vec::new();
        let n = self.buckets.len();
        let mut i: usize = 0;
        while i < n
            invariant
                self.wf(),
                m == self.model(),
                n == m.buckets.len(),
                column == Seq::new(m.buckets.len(), |i: int| m.buckets[i][entity_id as int]),
                entity_id < E || n == 0,
                0 <= i <= n,
                deref_all(comps@) == column.take(i as int).filter_map(|o: Option<T>| o),
                distinct_types(deref_all(comps@)),
                forall|k: int|
                    0 <= k < comps@.len() ==> key_position(m.flags, (#[trigger] deref_all(comps@)[k]).type_flag()) < i,
            decreases n - i,
        {
            let ghost prev = deref_all(comps@);
            proof {
                assert(column.take(i + 1).drop_last() =~= column.take(i as int));
                assert(m.buckets[i as int] == self.buckets@[i as int]@);
            }
            match &self.buckets[i][entity_id] {
                Some(c) => {
                    proof {
                        assert(column.take(i + 1).last() == Some(*c));
                        assert(m.buckets[i as int][entity_id as int] is Some);
                        assert(c.type_flag() == m.flags[i as int]);
                        lemma_key_position_unique(m.flags, i as int);
                    }
                    comps.push(c);
                    proof {
                        let cv = deref_all(comps@);
                        assert(cv =~= prev.push(*c));
                        assert forall|k: int| 0 <= k < cv.len() implies key_position(m.flags, (#[trigger] cv[k]).type_flag()) < i + 1 by {
                            if k < prev.len() {
                                assert(cv[k] == prev[k]);
                            }
                        }
                        assert forall|a: int, b: int|
                            0 <= a < cv.len() && 0 <= b < cv.len() && a != b implies cv[a].type_flag() != cv[b].type_flag() by {
                            if a < prev.len() && b < prev.len() {
                                assert(cv[a] == prev[a] && cv[b] == prev[b]);
                            } else if a < prev.len() {
                                assert(cv[a] == prev[a]);
                                assert(key_position(m.flags, prev[a].type_flag()) < i);
                            } else {
                                assert(cv[b] == prev[b]);
                                assert(key_position(m.flags, prev[b].type_flag()) < i);
                            }
                        }
                    }
                },
                None => {
                    proof {
                        assert(column.take(i + 1).last() is None);
                    }
                },
            }
            i += 1;
        }
        proof {
            assert(column.take(n as int) =~= column);
            lemma_by_type_of_distinct(deref_all(comps@));
        }
        Entity::new(entity_id, comps)
    }

    /// Takes a set of bitflags OR'd together and returns, in id order, the
    /// entities whose register holds all of them.
    pub fn get_entities(&self, components: u32) -> (r: Vec<Entity<'_, T>>)
        requires
            self.wf(),
            self.model().count <= E,
        ensures
            r@.len() == matching_ids(self.model().register, self.model().count, components).len(),
            forall|k: int|
                0 <= k < r@.len() ==> {
                    &&& (#[trigger] r@[k]).id_view() == matching_ids(
                        self.model().register,
                        self.model().count,
                        components,
                    )[k]
                    &&& r@[k].components_view() == components_at(
                        self.model(),
                        matching_ids(self.model().register, self.model().count, components)[k],
                    )
                },
    {
        let ghost m = self.model();
        let mut entities: Vec<Entity<'_, T>> = Vec::new();
        let n = self.entities_count;
        let mut e: usize = 0;
        while e < n
            invariant
                self.wf(),
                m == self.model(),
                n == m.count,
                n <= E,
                0 <= e <= n,
                entities@.len() == matching_ids(m.register, e as nat, components).len(),
                forall|k: int|
                    0 <= k < entities@.len() ==> {
                        &&& (#[trigger] entities@[k]).id_view() == matching_ids(
                            m.register,
                            e as nat,
                            components,
                        )[k]
                        &&& entities@[k].components_view() == components_at(
                            m,
                            matching_ids(m.register, e as nat, components)[k],
                        )
                    },
            decreases n - e,
        {
            let entity = self.register[e];
            let ghost prev = matching_ids(m.register, e as nat, components);
            proof {
                let masked = entity & components;
                assert(masked <= components) by (bit_vector)
                    requires
                        masked == entity & components,
                ;
                assert(matching_ids(m.register, (e + 1) as nat, components) == if has_all(
                    m.register[e as int],
                    components,
                ) {
                    prev.push(e as int)
                } else {
                    prev
                });
            }
            if entity & components >= components {
                let found = self.get_entity(e);
                let ghost before = entities@;
                entities.push(found);
                proof {
                    assert forall|k: int| 0 <= k < entities@.len() implies {
                        &&& (#[trigger] entities@[k]).id_view() == matching_ids(
                            m.register,
                            (e + 1) as nat,
                            components,
                        )[k]
                        &&& entities@[k].components_view() == components_at(
                            m,
                            matching_ids(m.register, (e + 1) as nat, components)[k],
                        )
                    } by {
                        if k < before.len() {
                            assert(entities@[k] == before[k]);
                        }
                    }
                }
            }
            e += 1;
        }
        entities
    }

    /// A consistent store has the shape of a store of `E` slots.
    pub proof fn lemma_wf_store_ok(&self)
        requires
            self.wf(),
        ensures
            store_ok(self.model(), E as nat),
    {
        let m = self.model();
        assert forall|i: int| 0 <= i < m.buckets.len() implies (#[trigger] m.buckets[i]).len() == E by {
            assert(m.buckets[i] == self.buckets@[i]@);
        }
    }

    /// Looking a type up among the components of an entity reads the slot of
    /// that entity in the bucket of that type: what `get_entity(e).get(t)`
    /// finds is what the bucket of `t` holds for `e` (nothing when the store
    /// has no bucket of `t`).
    pub proof fn law_entity_reads_buckets(&self, e: int, t: u32)
        requires
            self.wf(),
            0 <= e < E,
        ensures
            find_type(components_at(self.model(), e), t) == bucket_of(self.model(), E as nat, t)[e],
    {
        let m = self.model();
        let col = Seq::new(m.buckets.len(), |i: int| m.buckets[i][e]);
        assert forall|i: int| 0 <= i < col.len() && (#[trigger] col[i]) is Some implies col[i]->0.type_flag()
            == m.flags[i] by {
            assert(col[i] == m.buckets[i][e]);
        }
        lemma_find_in_column(col, m.flags, t);
        crate::update::lemma_key_position(m.flags, t);
        if key_position(m.flags, t) < m.flags.len() {
            assert(col[key_position(m.flags, t)] == m.buckets[key_position(m.flags, t)][e]);
        } else {
            assert(empty_bucket_of::<T>(E as nat)[e] is None);
        }
    }

    /// Every component held by a consistent store sits in the bucket of its
    /// own type and is not a marker.
    pub proof fn law_stored_components(&self, i: int, e: int)
        requires
            self.wf(),
            0 <= i < self.model().buckets.len(),
            0 <= e < E,
            self.model().buckets[i][e] is Some,
        ensures
            self.model().buckets[i][e]->0.type_flag() == self.model().flags[i],
            !self.model().buckets[i][e]->0.marker(),
    {
    }

    /// The number of entities created.
    pub fn count(&self) -> (r: usize)
        ensures
            r == self.model().count,
    {
        self.entities_count
    }

    /// The number of buckets (component types stored so far).
    pub fn bucket_count(&self) -> (r: usize)
        requires
            self.wf(),
        ensures
            r == self.model().flags.len(),
    {
        self.buckets.len()
    }

    /// The whole bucket (all `E` slots) of component type `component_type`,
    /// if the store has one.
    pub fn bucket(&self, component_type: u32) -> (r: Option<&[Option<T>]>)
        requires
            self.wf(),
        ensures
            match r {
                Some(b) => self.model().flags.contains(component_type) && b@ == bucket_of(
                    self.model(),
                    E as nat,
                    component_type,
                ),
                None => !self.model().flags.contains(component_type),
            },
    {
        let ghost m = self.model();
        proof {
            lemma_key_position(m.flags, component_type);
        }
        match flag_slots_get(&self.slots, component_type) {
            Some(i) => {
                proof {
                    let j = choose|j: int| 0 <= j < m.flags.len() && m.flags[j] == component_type;
                    assert(flag_slots(self.slots)[m.flags[j]] == j);
                    lemma_key_position_unique(m.flags, j);
                }
                Some(self.buckets[i].as_slice())
            },
            None => None,
        }
    }

    /// Returns slice of bucket containing the specified component type.
    /// Length of slice is equal to [Entities::count].
    pub fn get_bucket(&self, component_type: u32) -> (r: &[Option<T>])
        requires
            self.wf(),
            self.model().count <= E,
        ensures
            r@ == bucket_of(self.model(), E as nat, component_type).take(self.model().count as int),
            r@.len() == self.model().count,
    {
        let ghost m = self.model();
        proof {
            lemma_key_position(m.flags, component_type);
        }
        let bucket: &Vec<Option<T>> = match flag_slots_get(&self.slots, component_type) {
            Some(i) => {
                proof {
                    let j = choose|j: int| 0 <= j < m.flags.len() && m.flags[j] == component_type;
                    assert(flag_slots(self.slots)[m.flags[j]] == j);
                    lemma_key_position_unique(m.flags, j);
                    assert(m.buckets[i as int] == self.buckets@[i as int]@);
                    assert(m.buckets[i as int].len() == E);
                }
                &self.buckets[i]
            },
            None => &self.empty_bucket,
        };
        let r = vstd::slice::slice_subrange(bucket.as_slice(), 0, self.entities_count);
        proof {
            assert(r@ =~= bucket_of(m, E as nat, component_type).take(m.count as int));
        }
        r
    }

    /// The components of type `component_type` held by the first
    /// [Entities::count] entities, in entity order.
    pub fn get_components(&self, component_type: u32) -> (r: Vec<&T>)
        requires
            self.wf(),
            self.model().count <= E,
        ensures
            deref_all(r@) == bucket_of(self.model(), E as nat, component_type).take(
                self.model().count as int,
            ).filter_map(|o: Option<T>| o),
    {
        let bucket = self.get_bucket(component_type);
        let ghost b = bucket@;
        let mut r: Vec<&T> = Vec::new();
        let n = bucket.len();
        let mut k: usize = 0;
        while k < n
            invariant
                n == b.len(),
                b == bucket@,
                0 <= k <= n,
                deref_all(r@) == b.take(k as int).filter_map(|o: Option<T>| o),
            decreases n - k,
        {
            proof {
                assert(b.take(k + 1).drop_last() =~= b.take(k as int));
            }
            match &bucket[k] {
                Some(c) => {
                    r.push(c);
                    proof {
                        assert(deref_all(r@) =~= b.take(k as int).filter_map(|o: Option<T>| o).push(*c));
                    }
                },
                None => {},
            }
            k += 1;
        }
        proof {
            assert(b.take(n as int) =~= b);
        }
        r
    }
}

impl<T: Component> Entities<T, 255> {
    /// A store of 255 entity slots without entities and without buckets.
    pub fn empty() -> (r: Self)
        ensures
            r.wf(),
            r.model().count == 0,
            r.model().register == Seq::new(255, |i: int| 0u32),
            r.model().flags.len() == 0,
            r.model().buckets.len() == 0,
    {
        Self::empty_custom()
    }
}

} // verus!
