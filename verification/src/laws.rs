//! What committing staged writes guarantees, stated over the store model.
use crate::component::{
    by_type, find_type, lemma_by_type_distinct, lemma_position_absent, lemma_position_in_distinct,
    lemma_position_of_flag, position_of_flag, Component,
};
use crate::entities::{
    bucket_of, has_all, matching_ids, store_write, store_writes, targets_below, Store,
};
use crate::update::{
    entry_ids, group_flags, group_writes, groups_wf, key_position, lemma_key_position, stage,
    stage_all, stage_entry, staged_for, writes,
};
use vstd::arithmetic::power2::pow2;
use vstd::prelude::*;

verus! {

/// The shape of a consistent store of `size` entity slots: one register
/// entry per slot, no component type with two buckets, one bucket per type,
/// `size` slots per bucket.
pub open spec fn store_ok<T>(s: Store<T>, size: nat) -> bool {
    &&& s.register.len() == size
    &&& s.flags.no_duplicates()
    &&& s.buckets.len() == s.flags.len()
    &&& forall|i: int| 0 <= i < s.buckets.len() ==> (#[trigger] s.buckets[i]).len() == size
}

/// `key_position` is the index of the first occurrence.
proof fn lemma_key_position_first<K>(ks: Seq<K>, k: K, p: int)
    requires
        0 <= p < ks.len(),
        ks[p] == k,
        forall|j: int| 0 <= j < p ==> ks[j] != k,
    ensures
        key_position(ks, k) == p,
{
    lemma_key_position(ks, k);
}

/// Appending a different key does not move a key's position; appending a
/// key that was absent puts it last.
pub(crate) proof fn lemma_key_position_push<K>(ks: Seq<K>, x: K, k: K)
    ensures
        k != x ==> (key_position(ks.push(x), k) < ks.len() <==> key_position(ks, k) < ks.len()),
        k != x && key_position(ks, k) < ks.len() ==> key_position(ks.push(x), k) == key_position(ks, k),
        k != x && key_position(ks, k) == ks.len() ==> key_position(ks.push(x), k) == ks.len() + 1,
        !ks.contains(x) ==> key_position(ks.push(x), x) == ks.len(),
{
    let ps = ks.push(x);
    lemma_key_position(ks, k);
    lemma_key_position(ps, k);
    lemma_key_position(ks, x);
    if key_position(ks, k) < ks.len() {
        lemma_key_position_first(ps, k, key_position(ks, k));
    } else if k != x {
        assert forall|j: int| 0 <= j < ps.len() implies ps[j] != k by {
            if j < ks.len() {
                assert(ps[j] == ks[j]);
            }
        }
        assert(!ps.contains(k));
    }
    if !ks.contains(x) {
        assert forall|j: int| 0 <= j < ks.len() implies ps[j] != x by {
            assert(ps[j] == ks[j]);
        }
        lemma_key_position_first(ps, x, ks.len() as int);
    }
}

/// One write keeps the store consistent, and changes at most one slot of one
/// bucket: slot `e` of the bucket of `t` then holds `v`, unless `v` is a
/// marker.
pub proof fn lemma_store_write<T: Component>(s: Store<T>, size: nat, w: (u32, usize, T), t: u32, e: int)
    requires
        store_ok(s, size),
        w.1 < size,
        0 <= e < size,
    ensures
        store_ok(store_write(s, size, w), size),
        bucket_of(store_write(s, size, w), size, t)[e] == if t == w.0 && e == w.1 && !w.2.marker() {
            Some(w.2)
        } else {
            bucket_of(s, size, t)[e]
        },
{
    let n = store_write(s, size, w);
    let p = key_position(s.flags, w.0);
    lemma_key_position(s.flags, w.0);
    lemma_key_position(s.flags, t);
    if w.2.marker() {
    } else if p < s.flags.len() {
        assert forall|i: int| 0 <= i < n.buckets.len() implies (#[trigger] n.buckets[i]).len() == size by {
            if i != p {
                assert(n.buckets[i] == s.buckets[i]);
            }
        }
        if t != w.0 {
            let q = key_position(s.flags, t);
            if q < s.flags.len() {
                assert(q != p);
                assert(n.buckets[q] == s.buckets[q]);
            }
        }
    } else {
        lemma_key_position_push(s.flags, w.0, t);
        assert(n.flags.no_duplicates()) by {
            assert forall|i: int, j: int| 0 <= i < j < n.flags.len() implies n.flags[i] != n.flags[j] by {
                if j == s.flags.len() {
                    assert(n.flags[i] == s.flags[i]);
                    assert(s.flags.contains(s.flags[i]));
                } else {
                    assert(n.flags[i] == s.flags[i] && n.flags[j] == s.flags[j]);
                }
            }
        }
        assert forall|i: int| 0 <= i < n.buckets.len() implies (#[trigger] n.buckets[i]).len() == size by {
            if i < s.buckets.len() {
                assert(n.buckets[i] == s.buckets[i]);
            }
        }
        if t != w.0 {
            let q = key_position(s.flags, t);
            if q < s.flags.len() {
                assert(n.buckets[q] == s.buckets[q]);
            }
        }
    }
}

/// Writes that never store a (non-marker) component into slot `e` of the
/// bucket of `t` leave that slot as it was.
pub proof fn lemma_store_writes_frame<T: Component>(
    s: Store<T>,
    size: nat,
    ws: Seq<(u32, usize, T)>,
    t: u32,
    e: int,
)
    requires
        store_ok(s, size),
        forall|k: int| 0 <= k < ws.len() ==> (#[trigger] ws[k]).1 < size,
        forall|k: int| 0 <= k < ws.len() ==> !((#[trigger] ws[k]).0 == t && ws[k].1 == e && !ws[k].2.marker()),
        0 <= e < size,
    ensures
        store_ok(store_writes(s, size, ws), size),
        bucket_of(store_writes(s, size, ws), size, t)[e] == bucket_of(s, size, t)[e],
    decreases ws.len(),
{
    if ws.len() > 0 {
        let init = ws.drop_last();
        assert forall|k: int| 0 <= k < init.len() implies (#[trigger] init[k]).1 < size by {
            assert(init[k] == ws[k]);
        }
        assert forall|k: int| 0 <= k < init.len() implies !((#[trigger] init[k]).0 == t && init[k].1 == e && !init[k].2.marker()) by {
            assert(init[k] == ws[k]);
        }
        lemma_store_writes_frame(s, size, init, t, e);
        assert(ws.last() == ws[ws.len() - 1]);
        lemma_store_write(store_writes(s, size, init), size, ws.last(), t, e);
    }
}

/// Writes keep the store consistent.
pub proof fn lemma_store_writes_ok<T: Component>(s: Store<T>, size: nat, ws: Seq<(u32, usize, T)>)
    requires
        store_ok(s, size),
        forall|k: int| 0 <= k < ws.len() ==> (#[trigger] ws[k]).1 < size,
    ensures
        store_ok(store_writes(s, size, ws), size),
    decreases ws.len(),
{
    if ws.len() > 0 {
        let init = ws.drop_last();
        assert forall|k: int| 0 <= k < init.len() implies (#[trigger] init[k]).1 < size by {
            assert(init[k] == ws[k]);
        }
        lemma_store_writes_ok(s, size, init);
        assert(ws.last() == ws[ws.len() - 1]);
        lemma_store_write(store_writes(s, size, init), size, ws.last(), 0, 0);
    }
}

/// Applying `a + b` is applying `a`, then `b`.
pub proof fn lemma_store_writes_concat<T: Component>(
    s: Store<T>,
    size: nat,
    a: Seq<(u32, usize, T)>,
    b: Seq<(u32, usize, T)>,
)
    ensures
        store_writes(s, size, a + b) == store_writes(store_writes(s, size, a), size, b),
    decreases b.len(),
{
    if b.len() == 0 {
        assert(a + b =~= a);
    } else {
        assert((a + b).drop_last() =~= a + b.drop_last());
        assert((a + b).last() == b.last());
        lemma_store_writes_concat(s, size, a, b.drop_last());
    }
}

/// The writes of `a + b` are the writes of `a`, then those of `b`.
pub proof fn lemma_writes_concat<T>(a: Seq<(u32, Seq<(usize, T)>)>, b: Seq<(u32, Seq<(usize, T)>)>)
    ensures
        writes(a + b) == writes(a) + writes(b),
    decreases b.len(),
{
    if b.len() == 0 {
        assert(a + b =~= a);
        assert(writes(a) + writes(b) =~= writes(a));
    } else {
        assert((a + b).drop_last() =~= a + b.drop_last());
        assert((a + b).last() == b.last());
        lemma_writes_concat(a, b.drop_last());
        assert(writes(a) + writes(b) =~= writes(a) + writes(b.drop_last()) + group_writes(b.last()));
    }
}

/// Every write of a group list belongs to one of its groups: its flag is
/// that group's flag and its entity and component are one of its entries.
pub proof fn lemma_writes_member<T>(gs: Seq<(u32, Seq<(usize, T)>)>, k: int)
    requires
        0 <= k < writes(gs).len(),
    ensures
        exists|i: int, j: int|
            0 <= i < gs.len() && 0 <= j < gs[i].1.len() && writes(gs)[k] == (
                gs[i].0,
                (#[trigger] gs[i].1[j]).0,
                gs[i].1[j].1,
            ),
    decreases gs.len(),
{
    let init = gs.drop_last();
    let w = writes(init);
    if k < w.len() {
        lemma_writes_member(init, k);
        let (i, j) = choose|i: int, j: int|
            0 <= i < init.len() && 0 <= j < init[i].1.len() && writes(init)[k] == (
                init[i].0,
                (#[trigger] init[i].1[j]).0,
                init[i].1[j].1,
            );
        assert(gs[i] == init[i]);
        assert(writes(gs)[k] == w[k]);
    } else {
        let i = gs.len() - 1;
        let j = k - w.len();
        assert(writes(gs)[k] == group_writes(gs.last())[j]);
        assert(gs[i].1[j] == gs.last().1[j]);
    }
}

/// Read after write: once the writes staged in well-formed groups are
/// committed, the slot of each staged non-marker component in the bucket of
/// its type holds that component.
pub proof fn law_commit_reads_back<T: Component>(
    s: Store<T>,
    size: nat,
    gs: Seq<(u32, Seq<(usize, T)>)>,
    i: int,
    j: int,
)
    requires
        store_ok(s, size),
        groups_wf(gs),
        targets_below(gs, size),
        0 <= i < gs.len(),
        0 <= j < gs[i].1.len(),
        !gs[i].1[j].1.marker(),
    ensures
        bucket_of(store_writes(s, size, writes(gs)), size, gs[i].0)[gs[i].1[j].0 as int] == Some(
            gs[i].1[j].1,
        ),
{
    let t = gs[i].0;
    let e = gs[i].1[j].0;
    let v = gs[i].1[j].1;
    let g = gs[i].1;
    let before = gs.take(i);
    let after = gs.skip(i + 1);
    assert(gs =~= before + seq![gs[i]] + after);
    lemma_writes_concat(before + seq![gs[i]], after);
    lemma_writes_concat(before, seq![gs[i]]);
    assert(writes(seq![gs[i]]) =~= group_writes(gs[i])) by {
        let one = seq![gs[i]];
        assert(one.drop_last() =~= Seq::<(u32, Seq<(usize, T)>)>::empty());
        assert(one.last() == gs[i]);
        assert(writes(one.drop_last()) =~= Seq::<(u32, usize, T)>::empty());
        assert(writes(one) == writes(one.drop_last()) + group_writes(one.last()));
    }
    let gw = group_writes(gs[i]);
    let p = writes(before) + gw.take(j + 1);
    let q = gw.skip(j + 1) + writes(after);
    assert(writes(gs) =~= p + q);
    lemma_store_writes_concat(s, size, p, q);
    assert forall|k: int| 0 <= k < writes(gs).len() implies (#[trigger] writes(gs)[k]).1 < size by {
        lemma_writes_member(gs, k);
    }
    assert forall|k: int| 0 <= k < p.len() implies (#[trigger] p[k]).1 < size by {
        assert(p[k] == writes(gs)[k]);
    }
    assert(p.drop_last() =~= writes(before) + gw.take(j));
    assert(p.last() == (t, e, v));
    lemma_store_writes_ok(s, size, p.drop_last());
    lemma_store_write(store_writes(s, size, p.drop_last()), size, (t, e, v), t, e as int);
    assert forall|k: int| 0 <= k < q.len() implies (#[trigger] q[k]).1 < size by {
        assert(q[k] == writes(gs)[p.len() + k]);
    }
    assert forall|k: int| 0 <= k < q.len() implies !((#[trigger] q[k]).0 == t && q[k].1 == e) by {
        let rest = gw.skip(j + 1);
        if k < rest.len() {
            assert(q[k] == gw[j + 1 + k]);
            assert(gw[j + 1 + k].1 == g[j + 1 + k].0);
            assert(crate::update::entry_ids(g)[j + 1 + k] == g[j + 1 + k].0);
            assert(crate::update::entry_ids(g)[j] == e);
        } else {
            lemma_writes_member(after, k - rest.len());
            let (a, b) = choose|a: int, b: int|
                0 <= a < after.len() && 0 <= b < after[a].1.len() && writes(after)[k - rest.len()] == (
                    after[a].0,
                    (#[trigger] after[a].1[b]).0,
                    after[a].1[b].1,
                );
            assert(after[a] == gs[i + 1 + a]);
            assert(crate::update::group_flags(gs)[i + 1 + a] == after[a].0);
            assert(crate::update::group_flags(gs)[i] == t);
        }
    }
    lemma_store_writes_frame(store_writes(s, size, p), size, q, t, e as int);
}


/// Register bits are only ever added: after the writes `ws`, the register of
/// every written entity holds the flag of every write to it, and a register
/// that held all flags of `mask` still does.
pub proof fn law_commit_registers<T: Component>(
    s: Store<T>,
    size: nat,
    ws: Seq<(u32, usize, T)>,
    e: int,
    mask: u32,
)
    requires
        store_ok(s, size),
        forall|k: int| 0 <= k < ws.len() ==> (#[trigger] ws[k]).1 < size,
        0 <= e < size,
    ensures
        has_all(s.register[e], mask) ==> has_all(store_writes(s, size, ws).register[e], mask),
        forall|k: int|
            0 <= k < ws.len() && (#[trigger] ws[k]).1 == e ==> has_all(
                store_writes(s, size, ws).register[e],
                ws[k].0,
            ),
    decreases ws.len(),
{
    if ws.len() > 0 {
        let init = ws.drop_last();
        let w = ws.last();
        assert forall|k: int| 0 <= k < init.len() implies (#[trigger] init[k]).1 < size by {
            assert(init[k] == ws[k]);
        }
        law_commit_registers(s, size, init, e, mask);
        lemma_store_writes_ok(s, size, init);
        let mid = store_writes(s, size, init);
        let x = mid.register[e];
        let y = store_writes(s, size, ws).register[e];
        assert(w == ws[ws.len() - 1]);
        if w.1 == e {
            let t = w.0;
            assert(y == x | t);
            assert((x | t) & t == t) by (bit_vector);
            assert((x & mask) == mask ==> ((x | t) & mask) == mask) by (bit_vector);
            assert forall|k: int| 0 <= k < ws.len() && (#[trigger] ws[k]).1 == e implies has_all(y, ws[k].0) by {
                if k < init.len() {
                    assert(init[k] == ws[k]);
                    let m = ws[k].0;
                    assert(has_all(x, m));
                    assert((x & m) == m ==> ((x | t) & m) == m) by (bit_vector);
                }
            }
        } else {
            assert(y == x);
            assert forall|k: int| 0 <= k < ws.len() && (#[trigger] ws[k]).1 == e implies has_all(y, ws[k].0) by {
                if k < init.len() {
                    assert(init[k] == ws[k]);
                }
            }
        }
    }
}

/// Markers never get a bucket: every bucket after the writes `ws` existed
/// before or is the bucket of the type of a non-marker write.
pub proof fn law_commit_buckets_only_for_data<T: Component>(
    s: Store<T>,
    size: nat,
    ws: Seq<(u32, usize, T)>,
    t: u32,
)
    requires
        store_writes(s, size, ws).flags.contains(t),
    ensures
        s.flags.contains(t) || exists|k: int|
            0 <= k < ws.len() && (#[trigger] ws[k]).0 == t && !ws[k].2.marker(),
    decreases ws.len(),
{
    if ws.len() > 0 {
        let init = ws.drop_last();
        let w = ws.last();
        let mid = store_writes(s, size, init);
        assert(w == ws[ws.len() - 1]);
        if mid.flags.contains(t) {
            law_commit_buckets_only_for_data(s, size, init, t);
            if !s.flags.contains(t) {
                let k = choose|k: int| 0 <= k < init.len() && (#[trigger] init[k]).0 == t && !init[k].2.marker();
                assert(ws[k] == init[k]);
            }
        } else {
            let n = store_writes(s, size, ws);
            let j = choose|j: int| 0 <= j < n.flags.len() && n.flags[j] == t;
            if j < mid.flags.len() {
                assert(mid.flags[j] == t);
            }
            assert(ws[ws.len() - 1].0 == t && !ws[ws.len() - 1].2.marker());
        }
    }
}

/// The last component of type `t` in `cs`, if any.
pub open spec fn last_of_type<T: Component>(cs: Seq<T>, t: u32) -> Option<T>
    decreases cs.len(),
{
    if cs.len() == 0 {
        None
    } else if cs.last().type_flag() == t {
        Some(cs.last())
    } else {
        last_of_type(cs.drop_last(), t)
    }
}

/// Looking a type up in an entity built from a list of components finds the
/// last component of that type in the list.
pub proof fn law_entity_lookup<T: Component>(cs: Seq<T>, t: u32)
    ensures
        find_type(by_type(cs), t) == last_of_type(cs, t),
    decreases cs.len(),
{
    if cs.len() > 0 {
        let init = cs.drop_last();
        let prev = by_type(init);
        let c = cs.last();
        law_entity_lookup(init, t);
        lemma_by_type_distinct(init);
        lemma_by_type_distinct(cs);
        lemma_position_of_flag(prev, c.type_flag());
        let pos = position_of_flag(prev, c.type_flag());
        let r = by_type(cs);
        if pos < prev.len() {
            assert(r == prev.update(pos, c));
        } else {
            assert(r == prev.push(c));
        }
        if c.type_flag() == t {
            let q = if pos < prev.len() { pos } else { prev.len() as int };
            assert(r[q] == c);
            lemma_position_in_distinct(r, q);
        } else {
            lemma_position_of_flag(prev, t);
            lemma_position_of_flag(r, t);
            let p = position_of_flag(prev, t);
            if p < prev.len() {
                assert(r[p] == prev[p]);
                lemma_position_in_distinct(r, p);
                assert(prev[p].type_flag() == t);
            } else {
                assert forall|j: int| 0 <= j < r.len() implies r[j].type_flag() != t by {
                    if j < prev.len() && j != pos {
                        assert(r[j] == prev[j]);
                    }
                }
                lemma_position_absent(r, t);
            }
        }
    }
}

/// A later write of the same type for the same entity replaces an earlier
/// one: staging `c1` then `c2` stages exactly what staging `c2` alone does.
pub proof fn law_stage_overwrites<T: Component>(
    groups: Seq<(u32, Seq<(usize, T)>)>,
    e: usize,
    c1: T,
    c2: T,
)
    requires
        c1.type_flag() == c2.type_flag(),
    ensures
        stage(stage(groups, e, c1), e, c2) == stage(groups, e, c2),
{
    let t = c1.type_flag();
    let flags = group_flags(groups);
    let g = key_position(flags, t);
    lemma_key_position(flags, t);
    let once = stage(groups, e, c1);
    let oflags = group_flags(once);
    if g < groups.len() {
        assert(oflags =~= flags);
        let entries = groups[g].1;
        let ids = entry_ids(entries);
        let p = key_position(ids, e);
        lemma_key_position(ids, e);
        let staged1 = stage_entry(entries, e, c1);
        let ids1 = entry_ids(staged1);
        if p < entries.len() {
            assert(ids1 =~= ids);
        } else {
            assert(ids1 =~= ids.push(e));
            lemma_key_position_push(ids, e, e);
        }
        assert(stage_entry(staged1, e, c2) =~= stage_entry(entries, e, c2));
        assert(stage(once, e, c2) =~= stage(groups, e, c2));
    } else {
        assert(oflags =~= flags.push(t));
        lemma_key_position_push(flags, t, t);
        let single: Seq<(usize, T)> = seq![(e, c1)];
        assert(entry_ids(single) =~= seq![e]);
        lemma_key_position(entry_ids(single), e);
        assert(stage_entry(single, e, c2) =~= seq![(e, c2)]);
        assert(stage(once, e, c2) =~= stage(groups, e, c2));
    }
}

/// The flags given to the variants of a component enum are distinct single
/// bits: any two of them share no bit.
pub proof fn law_type_ids_disjoint(i: u32, j: u32)
    requires
        i < 32,
        j < 32,
        i != j,
    ensures
        pow2(i as nat) < 0x1_0000_0000,
        pow2(j as nat) < 0x1_0000_0000,
        (pow2(i as nat) as u32) & (pow2(j as nat) as u32) == 0,
{
    vstd::bits::lemma_u32_pow2_no_overflow(i as nat);
    vstd::bits::lemma_u32_pow2_no_overflow(j as nat);
    vstd::bits::lemma_u32_shl_is_mul(1, i);
    vstd::bits::lemma_u32_shl_is_mul(1, j);
    assert((1u32 << i) & (1u32 << j) == 0) by (bit_vector)
        requires
            i < 32,
            j < 32,
            i != j,
    ;
}

/// The write of entry `j` of group `i` sits in the writes after those of
/// the groups before `i`.
pub proof fn lemma_writes_index<T>(gs: Seq<(u32, Seq<(usize, T)>)>, i: int, j: int)
    requires
        0 <= i < gs.len(),
        0 <= j < gs[i].1.len(),
    ensures
        writes(gs.take(i)).len() + j < writes(gs).len(),
        writes(gs)[writes(gs.take(i)).len() + j] == (gs[i].0, gs[i].1[j].0, gs[i].1[j].1),
{
    let before = gs.take(i);
    let after = gs.skip(i + 1);
    assert(gs =~= before + seq![gs[i]] + after);
    lemma_writes_concat(before + seq![gs[i]], after);
    lemma_writes_concat(before, seq![gs[i]]);
    let one = seq![gs[i]];
    assert(one.drop_last() =~= Seq::<(u32, Seq<(usize, T)>)>::empty());
    assert(one.last() == gs[i]);
    assert(writes(one.drop_last()) =~= Seq::<(u32, usize, T)>::empty());
    assert(writes(one) =~= group_writes(gs[i]));
    assert(writes(gs)[writes(before).len() + j] == group_writes(gs[i])[j]);
}

/// Staging a list of components for entity `e` leaves, for every type in
/// the list, a group of that type holding `e` with the last component of
/// that type.
pub proof fn lemma_stage_all_holds_last<T: Component>(
    groups: Seq<(u32, Seq<(usize, T)>)>,
    e: usize,
    cs: Seq<T>,
    t: u32,
)
    requires
        last_of_type(cs, t) is Some,
    ensures
        exists|i: int, j: int|
            0 <= i < stage_all(groups, e, cs).len() && 0 <= j < stage_all(groups, e, cs)[i].1.len()
                && stage_all(groups, e, cs)[i].0 == t && #[trigger] stage_all(groups, e, cs)[i].1[j] == (
                e,
                last_of_type(cs, t)->0,
            ),
    decreases cs.len(),
{
    let init = cs.drop_last();
    let c = cs.last();
    let prev = stage_all(groups, e, init);
    let r = stage_all(groups, e, cs);
    assert(r == stage(prev, e, c));
    let flags = group_flags(prev);
    let g = key_position(flags, c.type_flag());
    lemma_key_position(flags, c.type_flag());
    if c.type_flag() == t {
        assert(last_of_type(cs, t) == Some(c));
        if g < prev.len() {
            let entries = prev[g].1;
            let p = key_position(entry_ids(entries), e);
            lemma_key_position(entry_ids(entries), e);
            assert(flags[g] == prev[g].0);
            if p < entries.len() {
                assert(r[g].1[p] == (e, c));
            } else {
                assert(r[g].1[entries.len() as int] == (e, c));
            }
        } else {
            assert(r[prev.len() as int].1[0] == (e, c));
        }
    } else {
        assert(last_of_type(cs, t) == last_of_type(init, t));
        lemma_stage_all_holds_last(groups, e, init, t);
        let (i, j) = choose|i: int, j: int|
            0 <= i < prev.len() && 0 <= j < prev[i].1.len() && prev[i].0 == t && #[trigger] prev[i].1[j]
                == (e, last_of_type(init, t)->0);
        if g < prev.len() {
            assert(flags[g] == prev[g].0);
            assert(i != g);
        }
        assert(r[i] == prev[i]);
        assert(r[i].1[j] == prev[i].1[j]);
    }
}

/// The component at `k` is the last of its type in `cs`.
pub open spec fn is_last_of_its_type<T: Component>(cs: Seq<T>, k: int) -> bool {
    forall|j: int| k < j < cs.len() ==> (#[trigger] cs[j]).type_flag() != cs[k].type_flag()
}

/// When `cs[k]` is the last component of its type, it is what
/// `last_of_type` finds for that type.
pub proof fn lemma_last_of_type_at<T: Component>(cs: Seq<T>, k: int)
    requires
        0 <= k < cs.len(),
        is_last_of_its_type(cs, k),
    ensures
        last_of_type(cs, cs[k].type_flag()) == Some(cs[k]),
    decreases cs.len(),
{
    if k < cs.len() - 1 {
        let init = cs.drop_last();
        assert(cs.last() == cs[cs.len() - 1]);
        assert(init[k] == cs[k]);
        assert forall|j: int| k < j < init.len() implies (#[trigger] init[j]).type_flag() != init[k].type_flag() by {
            assert(init[j] == cs[j]);
        }
        lemma_last_of_type_at(init, k);
    }
}

/// `last_of_type` finds a component of `cs` whenever some component has the
/// type.
pub proof fn lemma_last_of_type_exists<T: Component>(cs: Seq<T>, k: int)
    requires
        0 <= k < cs.len(),
    ensures
        last_of_type(cs, cs[k].type_flag()) is Some,
    decreases cs.len(),
{
    if k < cs.len() - 1 && cs.last().type_flag() != cs[k].type_flag() {
        assert(cs.drop_last()[k] == cs[k]);
        lemma_last_of_type_exists(cs.drop_last(), k);
    }
}

/// The entities found by a flag query are exactly the ids below the count
/// whose register holds every flag of the mask, in ascending order.
pub proof fn law_matching_ids(register: Seq<u32>, n: nat, mask: u32)
    ensures
        forall|k: int|
            0 <= k < matching_ids(register, n, mask).len() ==> {
                &&& 0 <= #[trigger] matching_ids(register, n, mask)[k] < n
                &&& has_all(register[matching_ids(register, n, mask)[k]], mask)
            },
        forall|k: int, l: int|
            0 <= k < l < matching_ids(register, n, mask).len() ==> matching_ids(register, n, mask)[k]
                < matching_ids(register, n, mask)[l],
        forall|e: int|
            0 <= e < n && #[trigger] has_all(register[e], mask) ==> matching_ids(register, n, mask).contains(e),
    decreases n,
{
    if n > 0 {
        let prev = matching_ids(register, (n - 1) as nat, mask);
        law_matching_ids(register, (n - 1) as nat, mask);
        let ids = matching_ids(register, n, mask);
        assert forall|e: int| 0 <= e < n && #[trigger] has_all(register[e], mask) implies ids.contains(e) by {
            if e < n - 1 {
                assert(prev.contains(e));
                let k = choose|k: int| 0 <= k < prev.len() && prev[k] == e;
                assert(ids[k] == e);
            } else {
                assert(ids[prev.len() as int] == e);
            }
        }
    }
}

/// Staging `c` for entity `e` stages `c` for `e` under the type of `c` and
/// keeps what is staged for every other (type, entity) pair, so writes
/// staged for other entities, or under other types, are never lost.
pub proof fn law_stage_keeps_others<T: Component>(
    groups: Seq<(u32, Seq<(usize, T)>)>,
    e: usize,
    c: T,
    t: u32,
    e2: usize,
)
    ensures
        staged_for(stage(groups, e, c), c.type_flag(), e) == Some(c),
        !(t == c.type_flag() && e2 == e) ==> staged_for(stage(groups, e, c), t, e2) == staged_for(
            groups,
            t,
            e2,
        ),
{
    let t0 = c.type_flag();
    let flags = group_flags(groups);
    let g = key_position(flags, t0);
    let r = stage(groups, e, c);
    let rflags = group_flags(r);
    lemma_key_position(flags, t0);
    lemma_key_position(flags, t);
    if g < groups.len() {
        assert(flags[g] == groups[g].0);
        assert(rflags =~= flags);
        let entries = groups[g].1;
        let ids = entry_ids(entries);
        let ne = stage_entry(entries, e, c);
        let nids = entry_ids(ne);
        let p = key_position(ids, e);
        lemma_key_position(ids, e);
        lemma_key_position(ids, e2);
        assert(r[g] == (t0, ne));
        if p < entries.len() {
            assert(nids =~= ids);
            assert(ne[p] == (e, c));
            if t == t0 && e2 != e {
                let q = key_position(ids, e2);
                if q < entries.len() {
                    assert(q != p);
                    assert(ne[q] == entries[q]);
                }
            }
        } else {
            assert(nids =~= ids.push(e));
            lemma_key_position_push(ids, e, e2);
            lemma_key_position_push(ids, e, e);
            assert(ne[entries.len() as int] == (e, c));
            if t == t0 && e2 != e {
                let q = key_position(ids, e2);
                if q < entries.len() {
                    assert(ne[q] == entries[q]);
                }
            }
        }
        if t != t0 {
            let q = key_position(flags, t);
            if q < groups.len() {
                assert(q != g);
                assert(r[q] == groups[q]);
            }
        }
    } else {
        let ng: (u32, Seq<(usize, T)>) = (t0, seq![(e, c)]);
        assert(r == groups.push(ng));
        assert(rflags =~= flags.push(t0));
        lemma_key_position_push(flags, t0, t);
        lemma_key_position_push(flags, t0, t0);
        assert(r[groups.len() as int] == ng);
        assert(entry_ids(ng.1) =~= seq![e]);
        lemma_key_position(entry_ids(ng.1), e);
        lemma_key_position(entry_ids(ng.1), e2);
        if t != t0 {
            let q = key_position(flags, t);
            if q < groups.len() {
                assert(r[q] == groups[q]);
            }
        }
    }
}
/// Staging all of `cs` for entity `e` stages, under each type, the last
/// component of that type in `cs`, and keeps everything else staged: what is
/// staged for other entities, and for `e` under types `cs` does not have.
pub proof fn law_stage_all_keeps_others<T: Component>(
    groups: Seq<(u32, Seq<(usize, T)>)>,
    e: usize,
    cs: Seq<T>,
    t: u32,
    e2: usize,
)
    ensures
        staged_for(stage_all(groups, e, cs), t, e2) == if e2 == e && last_of_type(cs, t) is Some {
            last_of_type(cs, t)
        } else {
            staged_for(groups, t, e2)
        },
    decreases cs.len(),
{
    if cs.len() > 0 {
        let init = cs.drop_last();
        let c = cs.last();
        law_stage_all_keeps_others(groups, e, init, t, e2);
        law_stage_keeps_others(stage_all(groups, e, init), e, c, t, e2);
    }
}
} // verus!
