//! The whole effect of a commit, and of creating an entity, on the store:
//! which registers gain which flags, which bucket slots change, and which
//! buckets come into being.
use crate::component::Component;
use crate::entities::{bucket_of, store_write, store_writes, targets_below, Store};
use crate::laws::{
    law_commit_buckets_only_for_data, law_commit_reads_back, lemma_store_writes_frame,
    lemma_store_writes_ok, lemma_writes_index, lemma_writes_member, store_ok,
};
use crate::update::{
    entry_ids, group_flags, group_writes, groups_wf, key_position, lemma_key_position, stage, stage_all,
    stage_entry, writes,
};
use crate::laws::{last_of_type, lemma_stage_all_holds_last};
use crate::update::lemma_stage_all_targets;
use vstd::prelude::*;

verus! {

/// The flags of the writes to entity `e`, OR'd together.
pub open spec fn staged_flags<T>(ws: Seq<(u32, usize, T)>, e: usize) -> u32
    decreases ws.len(),
{
    if ws.len() == 0 {
        0u32
    } else {
        staged_flags(ws.drop_last(), e) | (if ws.last().1 == e {
            ws.last().0
        } else {
            0u32
        })
    }
}

/// The flags of the staged groups that hold an entry for entity `e`, OR'd
/// together.
pub open spec fn group_bits<T>(gs: Seq<(u32, Seq<(usize, T)>)>, e: usize) -> u32
    decreases gs.len(),
{
    if gs.len() == 0 {
        0u32
    } else {
        group_bits(gs.drop_last(), e) | (if entry_ids(gs.last().1).contains(e) {
            gs.last().0
        } else {
            0u32
        })
    }
}

/// Some staged group of flag `t` stores a (non-marker) component for `e`.
pub open spec fn stages_data_at<T: Component>(gs: Seq<(u32, Seq<(usize, T)>)>, t: u32, e: int) -> bool {
    exists|i: int, j: int|
        0 <= i < gs.len() && 0 <= j < gs[i].1.len() && gs[i].0 == t && (#[trigger] gs[i].1[j]).0 == e
            && !gs[i].1[j].1.marker()
}

/// Writes OR their flags into the registers of their entities and leave the
/// entity count alone.
pub proof fn lemma_store_writes_register<T: Component>(
    s: Store<T>,
    size: nat,
    ws: Seq<(u32, usize, T)>,
    e: usize,
)
    requires
        store_ok(s, size),
        forall|k: int| 0 <= k < ws.len() ==> (#[trigger] ws[k]).1 < size,
        e < size,
    ensures
        store_writes(s, size, ws).register[e as int] == s.register[e as int] | staged_flags(ws, e),
        store_writes(s, size, ws).count == s.count,
    decreases ws.len(),
{
    let a = s.register[e as int];
    if ws.len() == 0 {
        assert(a | 0u32 == a) by (bit_vector);
    } else {
        let init = ws.drop_last();
        let w = ws.last();
        assert(w == ws[ws.len() - 1]);
        assert forall|k: int| 0 <= k < init.len() implies (#[trigger] init[k]).1 < size by {
            assert(init[k] == ws[k]);
        }
        lemma_store_writes_register(s, size, init, e);
        lemma_store_writes_ok(s, size, init);
        let b = staged_flags(init, e);
        let f = w.0;
        if w.1 == e {
            assert((a | b) | f == a | (b | f)) by (bit_vector);
        } else {
            assert(a | b == a | (b | 0u32)) by (bit_vector);
        }
    }
}

/// Writes leave the entity count alone.
pub proof fn lemma_store_writes_count<T: Component>(s: Store<T>, size: nat, ws: Seq<(u32, usize, T)>)
    ensures
        store_writes(s, size, ws).count == s.count,
    decreases ws.len(),
{
    if ws.len() > 0 {
        lemma_store_writes_count(s, size, ws.drop_last());
    }
}

/// After the writes `ws`, a component type has a bucket exactly when it had
/// one before or some write stores a (non-marker) component of that type.
pub proof fn lemma_store_writes_flags<T: Component>(s: Store<T>, size: nat, ws: Seq<(u32, usize, T)>, t: u32)
    ensures
        store_writes(s, size, ws).flags.contains(t) <==> (s.flags.contains(t) || exists|k: int|
            0 <= k < ws.len() && (#[trigger] ws[k]).0 == t && !ws[k].2.marker()),
    decreases ws.len(),
{
    if store_writes(s, size, ws).flags.contains(t) {
        law_commit_buckets_only_for_data(s, size, ws, t);
    }
    if ws.len() > 0 {
        let init = ws.drop_last();
        let w = ws.last();
        assert(w == ws[ws.len() - 1]);
        let m = store_writes(s, size, init);
        lemma_store_writes_flags(s, size, init, t);
        lemma_key_position(m.flags, w.0);
        let n = store_write(m, size, w);
        if m.flags.contains(t) {
            let j = choose|j: int| 0 <= j < m.flags.len() && m.flags[j] == t;
            if !w.2.marker() && key_position(m.flags, w.0) == m.flags.len() {
                assert(n.flags[j] == t);
            }
        }
        if s.flags.contains(t) || exists|k: int| 0 <= k < ws.len() && (#[trigger] ws[k]).0 == t && !ws[k].2.marker() {
            if !s.flags.contains(t) {
                let k = choose|k: int| 0 <= k < ws.len() && (#[trigger] ws[k]).0 == t && !ws[k].2.marker();
                if k < init.len() {
                    assert(init[k] == ws[k]);
                } else if key_position(m.flags, w.0) == m.flags.len() {
                    assert(n.flags[m.flags.len() as int] == t);
                }
            }
        }
    }
}

/// The flags of `a + b` for `e` are those of `a` with those of `b`.
pub proof fn lemma_staged_flags_concat<T>(a: Seq<(u32, usize, T)>, b: Seq<(u32, usize, T)>, e: usize)
    ensures
        staged_flags(a + b, e) == staged_flags(a, e) | staged_flags(b, e),
    decreases b.len(),
{
    let x = staged_flags(a, e);
    if b.len() == 0 {
        assert(a + b =~= a);
        assert(x | 0u32 == x) by (bit_vector);
    } else {
        assert((a + b).drop_last() =~= a + b.drop_last());
        assert((a + b).last() == b.last());
        lemma_staged_flags_concat(a, b.drop_last(), e);
        let y = staged_flags(b.drop_last(), e);
        let z: u32 = if b.last().1 == e {
            b.last().0
        } else {
            0u32
        };
        assert((x | y) | z == x | (y | z)) by (bit_vector);
    }
}

/// The writes of one group carry its flag for `e` exactly when the group
/// holds an entry for `e`.
pub proof fn lemma_group_writes_bits<T>(g: (u32, Seq<(usize, T)>), e: usize)
    ensures
        staged_flags(group_writes(g), e) == if entry_ids(g.1).contains(e) {
            g.0
        } else {
            0u32
        },
    decreases g.1.len(),
{
    let t = g.0;
    if g.1.len() == 0 {
        assert(!entry_ids(g.1).contains(e));
    } else {
        let g2 = (t, g.1.drop_last());
        let last = g.1.last();
        assert(group_writes(g).drop_last() =~= group_writes(g2));
        assert(group_writes(g).last() == (t, last.0, last.1));
        lemma_group_writes_bits(g2, e);
        assert(entry_ids(g.1) =~= entry_ids(g2.1).push(last.0));
        let before = entry_ids(g2.1).contains(e);
        if before {
            let k = choose|k: int| 0 <= k < entry_ids(g2.1).len() && entry_ids(g2.1)[k] == e;
            assert(entry_ids(g.1)[k] == e);
        }
        if entry_ids(g.1).contains(e) && !before {
            let k = choose|k: int| 0 <= k < entry_ids(g.1).len() && entry_ids(g.1)[k] == e;
            if k < entry_ids(g2.1).len() {
                assert(entry_ids(g2.1)[k] == e);
            }
        }
        if last.0 == e {
            assert(entry_ids(g.1)[g2.1.len() as int] == e);
        }
        assert(t | t == t) by (bit_vector);
        assert(t | 0u32 == t) by (bit_vector);
        assert(0u32 | t == t) by (bit_vector);
        assert(0u32 | 0u32 == 0u32) by (bit_vector);
    }
}

/// The flags that the writes of `gs` carry for `e` are the flags of the
/// groups holding an entry for `e`.
pub proof fn lemma_writes_bits<T>(gs: Seq<(u32, Seq<(usize, T)>)>, e: usize)
    ensures
        staged_flags(writes(gs), e) == group_bits(gs, e),
    decreases gs.len(),
{
    if gs.len() > 0 {
        lemma_writes_bits(gs.drop_last(), e);
        lemma_staged_flags_concat(writes(gs.drop_last()), group_writes(gs.last()), e);
        lemma_group_writes_bits(gs.last(), e);
    }
}

/// The type flags of `cs`, OR'd together.
pub open spec fn flags_of<T: Component>(cs: Seq<T>) -> u32
    decreases cs.len(),
{
    if cs.len() == 0 {
        0u32
    } else {
        flags_of(cs.drop_last()) | cs.last().type_flag()
    }
}

/// Replacing group `g` by one with the same flag that holds an entry for
/// `e` adds that flag to the group bits of `e`.
proof fn lemma_group_bits_update<T>(gs: Seq<(u32, Seq<(usize, T)>)>, g: int, x: (u32, Seq<(usize, T)>), e: usize)
    requires
        0 <= g < gs.len(),
        x.0 == gs[g].0,
        entry_ids(x.1).contains(e),
    ensures
        group_bits(gs.update(g, x), e) == group_bits(gs, e) | gs[g].0,
    decreases gs.len(),
{
    let t = gs[g].0;
    let u = gs.update(g, x);
    let init = gs.drop_last();
    let i = group_bits(init, e);
    let old_term: u32 = if entry_ids(gs.last().1).contains(e) {
        gs.last().0
    } else {
        0u32
    };
    if g == gs.len() - 1 {
        assert(u.drop_last() =~= init);
        assert(u.last() == x);
        assert(old_term == 0u32 || old_term == t);
        assert(old_term == 0u32 || old_term == t ==> i | t == (i | old_term) | t) by (bit_vector);
    } else {
        assert(u.drop_last() =~= init.update(g, x));
        assert(u.last() == gs.last());
        lemma_group_bits_update(init, g, x, e);
        assert((i | t) | old_term == (i | old_term) | t) by (bit_vector);
    }
}

/// Staging `c` for `e` adds the flag of `c`'s type to the group bits of `e`.
proof fn lemma_stage_bits<T: Component>(groups: Seq<(u32, Seq<(usize, T)>)>, e: usize, c: T)
    ensures
        group_bits(stage(groups, e, c), e) == group_bits(groups, e) | c.type_flag(),
{
    let t = c.type_flag();
    let flags = group_flags(groups);
    let g = key_position(flags, t);
    lemma_key_position(flags, t);
    if g < groups.len() {
        assert(flags[g] == groups[g].0);
        let entries = groups[g].1;
        let ne = stage_entry(entries, e, c);
        let p = key_position(entry_ids(entries), e);
        lemma_key_position(entry_ids(entries), e);
        if p < entries.len() {
            assert(entry_ids(ne)[p] == e);
        } else {
            assert(entry_ids(ne)[entries.len() as int] == e);
        }
        lemma_group_bits_update(groups, g, (t, ne), e);
    } else {
        let ng: (u32, Seq<(usize, T)>) = (t, seq![(e, c)]);
        let r = groups.push(ng);
        assert(r.drop_last() =~= groups);
        assert(entry_ids(ng.1)[0] == e);
    }
}

/// Staging all of `cs` for `e` adds the flags of `cs` to the group bits of
/// `e`.
proof fn lemma_stage_all_bits<T: Component>(groups: Seq<(u32, Seq<(usize, T)>)>, e: usize, cs: Seq<T>)
    ensures
        group_bits(stage_all(groups, e, cs), e) == group_bits(groups, e) | flags_of(cs),
    decreases cs.len(),
{
    let g0 = group_bits(groups, e);
    if cs.len() == 0 {
        assert(g0 | 0u32 == g0) by (bit_vector);
    } else {
        lemma_stage_all_bits(groups, e, cs.drop_last());
        lemma_stage_bits(stage_all(groups, e, cs.drop_last()), e, cs.last());
        let f = flags_of(cs.drop_last());
        let t = cs.last().type_flag();
        assert((g0 | f) | t == g0 | (f | t)) by (bit_vector);
    }
}

/// Groups without an entry for `e` give `e` no bits.
proof fn lemma_group_bits_absent<T>(gs: Seq<(u32, Seq<(usize, T)>)>, e: usize)
    requires
        forall|i: int, j: int| 0 <= i < gs.len() && 0 <= j < gs[i].1.len() ==> (#[trigger] gs[i].1[j]).0 != e,
    ensures
        group_bits(gs, e) == 0u32,
    decreases gs.len(),
{
    if gs.len() > 0 {
        let init = gs.drop_last();
        assert forall|i: int, j: int| 0 <= i < init.len() && 0 <= j < init[i].1.len() implies (#[trigger] init[i].1[j]).0 != e by {
            assert(init[i] == gs[i]);
        }
        lemma_group_bits_absent(init, e);
        let last = gs.last();
        assert(last == gs[gs.len() - 1]);
        if entry_ids(last.1).contains(e) {
            let j = choose|j: int| 0 <= j < entry_ids(last.1).len() && entry_ids(last.1)[j] == e;
            assert(last.1[j].0 == e);
        }
        assert(0u32 | 0u32 == 0u32) by (bit_vector);
    }
}

/// Every group staged from `cs` onto no groups has the flag of some
/// component of `cs`.
proof fn lemma_stage_all_flags<T: Component>(e: usize, cs: Seq<T>, i: int)
    requires
        0 <= i < stage_all(Seq::<(u32, Seq<(usize, T)>)>::empty(), e, cs).len(),
    ensures
        last_of_type(cs, stage_all(Seq::<(u32, Seq<(usize, T)>)>::empty(), e, cs)[i].0) is Some,
    decreases cs.len(),
{
    let none = Seq::<(u32, Seq<(usize, T)>)>::empty();
    let c = cs.last();
    let t = c.type_flag();
    let prev = stage_all(none, e, cs.drop_last());
    let r = stage_all(none, e, cs);
    assert(r == stage(prev, e, c));
    let flags = group_flags(prev);
    let g = key_position(flags, t);
    lemma_key_position(flags, t);
    let f = r[i].0;
    if f != t {
        if g < prev.len() {
            assert(flags[g] == prev[g].0);
            assert(i != g);
        }
        assert(i < prev.len() && r[i] == prev[i]);
        lemma_stage_all_flags(e, cs.drop_last(), i);
    }
}

/// What committing the staged groups `gs` does to a store: the count stays;
/// every register gains the flags of the groups staging something for its
/// entity and nothing else; every staged non-marker component reads back
/// from the slot of its entity in the bucket of its type; every slot into
/// which nothing is stored keeps its value; and a type has a bucket exactly
/// when it had one or a non-marker component of that type was staged.
pub proof fn law_commit<T: Component>(s: Store<T>, size: nat, gs: Seq<(u32, Seq<(usize, T)>)>)
    requires
        store_ok(s, size),
        groups_wf(gs),
        targets_below(gs, size),
    ensures
        store_ok(store_writes(s, size, writes(gs)), size),
        store_writes(s, size, writes(gs)).count == s.count,
        forall|e: usize|
            e < size ==> #[trigger] store_writes(s, size, writes(gs)).register[e as int] == s.register[e as int]
                | group_bits(gs, e),
        forall|i: int, j: int|
            0 <= i < gs.len() && 0 <= j < gs[i].1.len() && !(#[trigger] gs[i].1[j]).1.marker() ==> bucket_of(
                store_writes(s, size, writes(gs)),
                size,
                gs[i].0,
            )[gs[i].1[j].0 as int] == Some(gs[i].1[j].1),
        forall|t: u32, e: int|
            0 <= e < size && !stages_data_at(gs, t, e) ==> #[trigger] bucket_of(
                store_writes(s, size, writes(gs)),
                size,
                t,
            )[e] == bucket_of(s, size, t)[e],
        forall|t: u32|
            #[trigger] store_writes(s, size, writes(gs)).flags.contains(t) <==> (s.flags.contains(t) || exists|
                i: int,
                j: int,
            |
                0 <= i < gs.len() && 0 <= j < gs[i].1.len() && gs[i].0 == t && !(#[trigger] gs[i].1[j]).1.marker()),
{
    let ws = writes(gs);
    assert forall|k: int| 0 <= k < ws.len() implies (#[trigger] ws[k]).1 < size by {
        lemma_writes_member(gs, k);
    }
    lemma_store_writes_ok(s, size, ws);
    let n = store_writes(s, size, ws);
    assert forall|e: usize| e < size implies #[trigger] n.register[e as int] == s.register[e as int] | group_bits(gs, e) by {
        lemma_store_writes_register(s, size, ws, e);
        lemma_writes_bits(gs, e);
    }
    lemma_store_writes_count(s, size, ws);
    assert forall|i: int, j: int|
        0 <= i < gs.len() && 0 <= j < gs[i].1.len() && !(#[trigger] gs[i].1[j]).1.marker() implies bucket_of(
            n,
            size,
            gs[i].0,
        )[gs[i].1[j].0 as int] == Some(gs[i].1[j].1) by {
        law_commit_reads_back(s, size, gs, i, j);
    }
    assert forall|t: u32, e: int| 0 <= e < size && !stages_data_at(gs, t, e) implies #[trigger] bucket_of(n, size, t)[e]
        == bucket_of(s, size, t)[e] by {
        assert forall|k: int| 0 <= k < ws.len() implies !((#[trigger] ws[k]).0 == t && ws[k].1 == e
            && !ws[k].2.marker()) by {
            lemma_writes_member(gs, k);
        }
        lemma_store_writes_frame(s, size, ws, t, e);
    }
    assert forall|t: u32| #[trigger] n.flags.contains(t) <==> (s.flags.contains(t) || exists|i: int, j: int|
        0 <= i < gs.len() && 0 <= j < gs[i].1.len() && gs[i].0 == t && !(#[trigger] gs[i].1[j]).1.marker()) by {
        lemma_store_writes_flags(s, size, ws, t);
        if exists|k: int| 0 <= k < ws.len() && (#[trigger] ws[k]).0 == t && !ws[k].2.marker() {
            let k = choose|k: int| 0 <= k < ws.len() && (#[trigger] ws[k]).0 == t && !ws[k].2.marker();
            lemma_writes_member(gs, k);
        }
        if exists|i: int, j: int|
            0 <= i < gs.len() && 0 <= j < gs[i].1.len() && gs[i].0 == t && !(#[trigger] gs[i].1[j]).1.marker() {
            let (i, j) = choose|i: int, j: int|
                0 <= i < gs.len() && 0 <= j < gs[i].1.len() && gs[i].0 == t && !(#[trigger] gs[i].1[j]).1.marker();
            lemma_writes_index(gs, i, j);
            let k = writes(gs.take(i)).len() + j;
            assert(ws[k].0 == t && !ws[k].2.marker());
        }
    }
}

/// The last component of type `t` in `cs` holds data (it is not a marker).
pub open spec fn stores_data<T: Component>(cs: Seq<T>, t: u32) -> bool {
    last_of_type(cs, t) is Some && !last_of_type(cs, t)->0.marker()
}

/// What the slot of type `t` of an entity created from `cs` holds, when it
/// held `before`: the last component of type `t` in `cs` unless that is a
/// marker or there is none.
pub open spec fn created_slot<T: Component>(cs: Seq<T>, t: u32, before: Option<T>) -> Option<T> {
    if stores_data(cs, t) {
        Some(last_of_type(cs, t)->0)
    } else {
        before
    }
}

/// Every entry staged from `cs` for `e` onto no groups is `e` with the last
/// component of `cs` of the group's type.
proof fn lemma_staged_entry_is_last<T: Component>(e: usize, cs: Seq<T>, i: int, j: int)
    requires
        groups_wf(stage_all(Seq::<(u32, Seq<(usize, T)>)>::empty(), e, cs)),
        0 <= i < stage_all(Seq::<(u32, Seq<(usize, T)>)>::empty(), e, cs).len(),
        0 <= j < stage_all(Seq::<(u32, Seq<(usize, T)>)>::empty(), e, cs)[i].1.len(),
    ensures
        last_of_type(cs, stage_all(Seq::<(u32, Seq<(usize, T)>)>::empty(), e, cs)[i].0) is Some,
        stage_all(Seq::<(u32, Seq<(usize, T)>)>::empty(), e, cs)[i].1[j] == (
            e,
            last_of_type(cs, stage_all(Seq::<(u32, Seq<(usize, T)>)>::empty(), e, cs)[i].0)->0,
        ),
{
    let none = Seq::<(u32, Seq<(usize, T)>)>::empty();
    let gs = stage_all(none, e, cs);
    let t = gs[i].0;
    lemma_stage_all_targets(none, e, cs);
    lemma_stage_all_flags(e, cs, i);
    lemma_stage_all_holds_last(none, e, cs, t);
    let (i0, j0) = choose|i0: int, j0: int|
        0 <= i0 < gs.len() && 0 <= j0 < gs[i0].1.len() && gs[i0].0 == t && #[trigger] gs[i0].1[j0] == (
            e,
            last_of_type(cs, t)->0,
        );
    assert(group_flags(gs)[i] == t && group_flags(gs)[i0] == t);
    assert(i == i0);
    assert(gs[i].1[j].0 == e);
    assert(entry_ids(gs[i].1)[j] == e && entry_ids(gs[i].1)[j0] == e);
    assert(j == j0);
}

/// Committing the groups staged from `cs` for a new entity `r`: the
/// register of `r` gains the flags of `cs`; the slot of `r` in each bucket
/// holds the last component of that type in `cs` unless that is a marker or
/// there is none, in which case it keeps its value; no other register or
/// slot changes; a type has a bucket exactly when it had one or `cs` stores
/// data of that type.
pub(crate) proof fn lemma_create_effects<T: Component>(s: Store<T>, size: nat, r: usize, cs: Seq<T>)
    requires
        store_ok(s, size),
        groups_wf(stage_all(Seq::<(u32, Seq<(usize, T)>)>::empty(), r, cs)),
        targets_below(stage_all(Seq::<(u32, Seq<(usize, T)>)>::empty(), r, cs), size),
    ensures
        store_writes(s, size, writes(stage_all(Seq::<(u32, Seq<(usize, T)>)>::empty(), r, cs))).count == s.count,
        forall|e: usize|
            e < size ==> #[trigger] store_writes(
                s,
                size,
                writes(stage_all(Seq::<(u32, Seq<(usize, T)>)>::empty(), r, cs)),
            ).register[e as int] == if e == r {
                s.register[e as int] | flags_of(cs)
            } else {
                s.register[e as int]
            },
        forall|t: u32, e: int|
            0 <= e < size ==> #[trigger] bucket_of(
                store_writes(s, size, writes(stage_all(Seq::<(u32, Seq<(usize, T)>)>::empty(), r, cs))),
                size,
                t,
            )[e] == if e == r {
                created_slot(cs, t, bucket_of(s, size, t)[e])
            } else {
                bucket_of(s, size, t)[e]
            },
        forall|t: u32|
            #[trigger] store_writes(
                s,
                size,
                writes(stage_all(Seq::<(u32, Seq<(usize, T)>)>::empty(), r, cs)),
            ).flags.contains(t) <==> (s.flags.contains(t) || stores_data(cs, t)),
{
    let none = Seq::<(u32, Seq<(usize, T)>)>::empty();
    let gs = stage_all(none, r, cs);
    let n = store_writes(s, size, writes(gs));
    law_commit(s, size, gs);
    lemma_stage_all_targets(none, r, cs);
    assert forall|e: usize| e < size implies #[trigger] n.register[e as int] == if e == r {
        s.register[e as int] | flags_of(cs)
    } else {
        s.register[e as int]
    } by {
        let a = s.register[e as int];
        if e == r {
            lemma_stage_all_bits(none, r, cs);
            let f = flags_of(cs);
            assert(group_bits(none, r) == 0u32);
            assert(0u32 | f == f) by (bit_vector);
        } else {
            lemma_group_bits_absent(gs, e);
            assert(a | 0u32 == a) by (bit_vector);
        }
    }
    // A staged non-marker entry of type `t` at `e` exists exactly when `e`
    // is `r` and `cs` stores data of type `t`.
    assert forall|t: u32, e: int| #[trigger] stages_data_at(gs, t, e) <==> (e == r && stores_data(cs, t)) by {
        if stages_data_at(gs, t, e) {
            let (i, j) = choose|i: int, j: int|
                0 <= i < gs.len() && 0 <= j < gs[i].1.len() && gs[i].0 == t && (#[trigger] gs[i].1[j]).0 == e
                    && !gs[i].1[j].1.marker();
            lemma_staged_entry_is_last(r, cs, i, j);
        }
        if e == r && stores_data(cs, t) {
            lemma_stage_all_holds_last(none, r, cs, t);
        }
    }
    assert forall|t: u32, e: int| 0 <= e < size implies #[trigger] bucket_of(n, size, t)[e] == if e == r {
        created_slot(cs, t, bucket_of(s, size, t)[e])
    } else {
        bucket_of(s, size, t)[e]
    } by {
        if e == r && stores_data(cs, t) {
            lemma_stage_all_holds_last(none, r, cs, t);
            let (i, j) = choose|i: int, j: int|
                0 <= i < gs.len() && 0 <= j < gs[i].1.len() && gs[i].0 == t && #[trigger] gs[i].1[j] == (
                    r,
                    last_of_type(cs, t)->0,
                );
            assert(!gs[i].1[j].1.marker());
        } else {
            assert(!stages_data_at(gs, t, e));
        }
    }
    assert forall|t: u32| #[trigger] n.flags.contains(t) <==> (s.flags.contains(t) || stores_data(cs, t)) by {
        if exists|i: int, j: int|
            0 <= i < gs.len() && 0 <= j < gs[i].1.len() && gs[i].0 == t && !(#[trigger] gs[i].1[j]).1.marker() {
            let (i, j) = choose|i: int, j: int|
                0 <= i < gs.len() && 0 <= j < gs[i].1.len() && gs[i].0 == t && !(#[trigger] gs[i].1[j]).1.marker();
            lemma_staged_entry_is_last(r, cs, i, j);
        }
        if stores_data(cs, t) {
            lemma_stage_all_holds_last(none, r, cs, t);
            let (i, j) = choose|i: int, j: int|
                0 <= i < gs.len() && 0 <= j < gs[i].1.len() && gs[i].0 == t && #[trigger] gs[i].1[j] == (
                    r,
                    last_of_type(cs, t)->0,
                );
            assert(!gs[i].1[j].1.marker());
        }
    }
}

} // verus!
