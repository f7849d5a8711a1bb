//! The component trait and the spec functions that describe lists of
//! components grouped by their type.
use vstd::prelude::*;

verus! {

/// A piece of entity data.  Each component belongs to a type identified by a
/// bit flag; components without data are markers and are only recorded in
/// an entity's register, never stored in a bucket.
///
/// Implementations are written by the users of the library (usually one enum
/// with one flag per variant); the spec functions name what the two methods
/// return.  At run time they are ordinary methods that answer
/// what `get_type` and `is_marker` answer.
pub trait Component {
    /// The bit flag of this component's type.
    spec fn type_flag(&self) -> u32;

    /// Whether this component is a marker (a component without data).
    spec fn marker(&self) -> bool;

    /// Returns the bitflag indicating the specific component type.
    fn get_type(&self) -> (r: u32)
        ensures
            r == self.type_flag(),
    ;

    /// Returns if the component is a marker component, e.g. a component
    /// without data, which has no bucket.
    fn is_marker(&self) -> (r: bool)
        ensures
            r == self.marker(),
    ;
}

/// Position of the first component of `cs` whose type is `t`; `cs.len()`
/// when there is none.
pub open spec fn position_of_flag<T: Component>(cs: Seq<T>, t: u32) -> int
    decreases cs.len(),
{
    if cs.len() == 0 {
        0
    } else if cs[0].type_flag() == t {
        0
    } else {
        1 + position_of_flag(cs.drop_first(), t)
    }
}

/// The components of `cs` keyed by type, in the order in which each type
/// first occurs: a later component of a type already seen takes the place of
/// the earlier one.
pub open spec fn by_type<T: Component>(cs: Seq<T>) -> Seq<T>
    decreases cs.len(),
{
    if cs.len() == 0 {
        Seq::empty()
    } else {
        let prev = by_type(cs.drop_last());
        let c = cs.last();
        let i = position_of_flag(prev, c.type_flag());
        if i < prev.len() {
            prev.update(i, c)
        } else {
            prev.push(c)
        }
    }
}

/// No two components of `cs` share a type.
pub open spec fn distinct_types<T: Component>(cs: Seq<T>) -> bool {
    forall|i: int, j: int|
        0 <= i < cs.len() && 0 <= j < cs.len() && i != j ==> cs[i].type_flag() != cs[j].type_flag()
}

/// Some component of `cs` has type `t`.
pub open spec fn has_type<T: Component>(cs: Seq<T>, t: u32) -> bool {
    exists|j: int| 0 <= j < cs.len() && #[trigger] cs[j].type_flag() == t
}

/// The component of type `t` in `cs`, if there is one.
pub open spec fn find_type<T: Component>(cs: Seq<T>, t: u32) -> Option<T> {
    let i = position_of_flag(cs, t);
    if i < cs.len() {
        Some(cs[i])
    } else {
        None
    }
}

/// `position_of_flag` lies in `0..=cs.len()`, points at a component of type
/// `t` when it is below the length, and no earlier component has type `t`.
pub proof fn lemma_position_of_flag<T: Component>(cs: Seq<T>, t: u32)
    ensures
        0 <= position_of_flag(cs, t) <= cs.len(),
        position_of_flag(cs, t) < cs.len() ==> cs[position_of_flag(cs, t)].type_flag() == t,
        forall|j: int| 0 <= j < position_of_flag(cs, t) ==> cs[j].type_flag() != t,
    decreases cs.len(),
{
    if cs.len() > 0 && cs[0].type_flag() != t {
        lemma_position_of_flag(cs.drop_first(), t);
        assert forall|j: int| 0 <= j < position_of_flag(cs, t) implies cs[j].type_flag() != t by {
            if j > 0 {
                assert(cs[j] == cs.drop_first()[j - 1]);
            }
        }
    }
}

/// In a list without repeated types, the position of a type is the index of
/// the component that has it.
pub proof fn lemma_position_in_distinct<T: Component>(cs: Seq<T>, i: int)
    requires
        distinct_types(cs),
        0 <= i < cs.len(),
    ensures
        position_of_flag(cs, cs[i].type_flag()) == i,
{
    lemma_position_of_flag(cs, cs[i].type_flag());
}

/// In a list where no component has type `t`, the position of `t` is the
/// length.
pub proof fn lemma_position_absent<T: Component>(cs: Seq<T>, t: u32)
    requires
        forall|j: int| 0 <= j < cs.len() ==> cs[j].type_flag() != t,
    ensures
        position_of_flag(cs, t) == cs.len(),
{
    lemma_position_of_flag(cs, t);
}

/// Grouping by type yields a list without repeated types, whose types are
/// exactly those of the input.
pub proof fn lemma_by_type_distinct<T: Component>(cs: Seq<T>)
    ensures
        distinct_types(by_type(cs)),
        forall|t: u32| #[trigger] has_type(cs, t) == has_type(by_type(cs), t),
    decreases cs.len(),
{
    if cs.len() > 0 {
        let init = cs.drop_last();
        let prev = by_type(init);
        let c = cs.last();
        let pos = position_of_flag(prev, c.type_flag());
        lemma_by_type_distinct(init);
        lemma_position_of_flag(prev, c.type_flag());
        let r = by_type(cs);
        if pos < prev.len() {
            assert(r == prev.update(pos, c));
        } else {
            assert(r == prev.push(c));
        }
        assert(distinct_types(r));
        assert forall|t: u32| #[trigger] has_type(cs, t) == has_type(r, t) by {
            if has_type(cs, t) {
                let j = choose|j: int| 0 <= j < cs.len() && #[trigger] cs[j].type_flag() == t;
                if j == cs.len() - 1 {
                    assert(c.type_flag() == t);
                    if pos < prev.len() {
                        assert(r[pos] == c);
                        assert(r[pos].type_flag() == t);
                    } else {
                        assert(r[prev.len() as int] == c);
                        assert(r[prev.len() as int].type_flag() == t);
                    }
                } else {
                    assert(init[j].type_flag() == t);
                    assert(has_type(init, t));
                    let k = choose|k: int| 0 <= k < prev.len() && #[trigger] prev[k].type_flag() == t;
                    if k == pos {
                        assert(r[k].type_flag() == t);
                    } else {
                        assert(r[k] == prev[k]);
                    }
                    assert(r[k].type_flag() == t);
                }
            }
            if has_type(r, t) {
                let j = choose|j: int| 0 <= j < r.len() && #[trigger] r[j].type_flag() == t;
                if r[j] == c {
                    assert(cs[cs.len() - 1].type_flag() == t);
                } else {
                    assert(j < prev.len() && prev[j] == r[j]);
                    assert(has_type(prev, t));
                    assert(has_type(init, t));
                    let k = choose|k: int| 0 <= k < init.len() && #[trigger] init[k].type_flag() == t;
                    assert(init[k] == cs[k]);
                    assert(cs[k].type_flag() == t);
                }
            }
        }
    }
}

/// A list without repeated types is its own grouping by type.
pub proof fn lemma_by_type_of_distinct<T: Component>(cs: Seq<T>)
    requires
        distinct_types(cs),
    ensures
        by_type(cs) == cs,
    decreases cs.len(),
{
    if cs.len() > 0 {
        let init = cs.drop_last();
        assert(distinct_types(init));
        lemma_by_type_of_distinct(init);
        lemma_position_absent(init, cs.last().type_flag());
        assert(by_type(cs) =~= cs);
    }
}

} // verus!
