//! Physics bookkeeping: rigid bodies, the physics and collision systems and
//! the collision events they raise.  The vector type `V` (`P` for points) is
//! the engine's 3D vector; the arithmetic on it is done by the systems'
//! frame code, not here.
use crate::component::Component;
use crate::entities::{components_at, Entities};
use crate::entity::Entity;
use vstd::prelude::*;

verus! {

/// A physical body.  A body without velocity is static: it is not moved by
/// the physics system.
#[derive(Debug, PartialEq, Clone)]
pub struct RigidBody<V> {
    velocity: Option<V>,
}

impl<V> RigidBody<V> {
    /// The body's velocity; `None` for a static body.
    pub closed spec fn velocity_view(&self) -> Option<V> {
        self.velocity
    }

    /// A static body, as a value.
    pub closed spec fn static_spec() -> Self {
        RigidBody { velocity: None }
    }

    /// This body once its velocity is set to `velocity`.
    pub closed spec fn with_velocity(self, velocity: V) -> Self {
        RigidBody { velocity: Some(velocity) }
    }

    /// This body once its velocity has been set to each of `vs` in turn.
    pub open spec fn after_sets(self, vs: Seq<V>) -> Self
        decreases vs.len(),
    {
        if vs.len() == 0 {
            self
        } else {
            self.after_sets(vs.drop_last()).with_velocity(vs.last())
        }
    }

    /// A moving body with the given velocity: a static body whose velocity
    /// is then set.
    pub fn new(velocity: V) -> (r: Self)
        ensures
            r == Self::static_spec().with_velocity(velocity),
            r.velocity_view() == Some(velocity),
    {
        Self { velocity: Some(velocity) }
    }

    /// A static body.
    pub fn static_body() -> (r: Self)
        ensures
            r == Self::static_spec(),
            r.velocity_view() is None,
    {
        Self { velocity: None }
    }

    /// Sets the velocity (a static body becomes a moving one).
    pub fn set_velocity(&mut self, velocity: V)
        ensures
            *final(self) == old(self).with_velocity(velocity),
            *final(self) == Self::static_spec().with_velocity(velocity),
            final(self).velocity_view() == Some(velocity),
    {
        self.velocity = Some(velocity);
    }

    /// Defines current velocity of physical body.
    /// If this value is [None], the body is static (not influenced by
    /// external physical forces).
    pub fn velocity(&self) -> (r: Option<&V>)
        ensures
            match r {
                Some(v) => self.velocity_view() == Some(*v),
                None => self.velocity_view() is None,
            },
    {
        match &self.velocity {
            Some(v) => Some(v),
            None => None,
        }
    }

    /// The velocity of a body is the last one it was set to: whatever the
    /// body held before, setting its velocity to `v` gives the body that
    /// `new(v)` gives.  After setting
    /// the velocity of `r` to each of `vs` in turn, the velocity is the last
    /// of `vs`, or that of `r` when `vs` is empty.  A static body has no
    /// velocity, a body given a velocity has that velocity, and so a body
    /// has none exactly when it started static and was never set.
    pub proof fn law_last_velocity(r: Self, vs: Seq<V>)
        ensures
            Self::static_spec().velocity_view() is None,
            forall|v: V| #[trigger] r.with_velocity(v).velocity_view() == Some(v),
            r.after_sets(vs).velocity_view() == if vs.len() == 0 {
                r.velocity_view()
            } else {
                Some(vs.last())
            },
            (r.after_sets(vs).velocity_view() is None) <==> (r.velocity_view() is None && vs.len() == 0),
            forall|s: Self, v: V| #[trigger] s.with_velocity(v) == Self::static_spec().with_velocity(v),
    {
    }
}

impl<V> Default for RigidBody<V> {
    /// A static body.
    fn default() -> (r: Self)
        ensures
            r == Self::static_spec(),
            r.velocity_view() is None,
    {
        Self::static_body()
    }
}

/// Detects collisions between entities with a collider and a position.
#[derive(Debug, Clone, Copy, PartialEq, Eq)]
pub struct CollisionSystem;

/// Moves entities along their rigid bodies' velocities and, when it has a
/// collision system, resolves their collisions.
pub struct PhysicsSystem {
    collision_system: Option<CollisionSystem>,
}

impl PhysicsSystem {
    /// A physics system, with or without collision handling.
    pub fn new(collision_system: Option<CollisionSystem>) -> (r: Self)
        ensures
            r.collision_system_view() == collision_system,
    {
        Self { collision_system }
    }

    /// The collision system used after moving entities, if any.
    pub closed spec fn collision_system_view(&self) -> Option<CollisionSystem> {
        self.collision_system
    }

    /// The collision system used after moving entities, if any.
    pub fn collision_system(&self) -> (r: Option<&CollisionSystem>)
        ensures
            r == match self.collision_system_view() {
                Some(c) => Some(&c),
                None => None::<&CollisionSystem>,
            },
    {
        match &self.collision_system {
            Some(c) => Some(c),
            None => None,
        }
    }
}

/// One entity's part in a collision.
#[derive(Debug, Clone, PartialEq)]
pub struct CollisionEvent<P> {
    pub entity_id: usize,
    /// Approximated collision point of entity with another collider.
    /// Is [None] if the colliding entity has no [RigidBody] or the body is
    /// static.
    pub collision_point: Option<P>,
}

/// Collects all related collision events.
/// When two entities collide, they would both trigger a [CollisionEvent].
/// To know which events are related, like that entity 1 collided with
/// entity 2, they are collected in a [CompoundCollisionEvent].
#[derive(Debug, Clone, PartialEq)]
pub struct CompoundCollisionEvent<P> {
    collisions: Vec<CollisionEvent<P>>,
}

/// Keeps the id of a collision event unless it is `entity_id`.
pub open spec fn other_than<P>(entity_id: usize) -> spec_fn(CollisionEvent<P>) -> Option<usize> {
    |c: CollisionEvent<P>|
        if c.entity_id != entity_id {
            Some(c.entity_id)
        } else {
            None
        }
}

/// The ids of the entities in `collisions` other than `entity_id`, in order.
pub open spec fn hit_ids<P>(collisions: Seq<CollisionEvent<P>>, entity_id: usize) -> Seq<usize> {
    collisions.filter_map(other_than(entity_id))
}

impl<P> CompoundCollisionEvent<P> {
    /// The collision events, in order.
    pub closed spec fn collisions_view(&self) -> Seq<CollisionEvent<P>> {
        self.collisions@
    }

    /// Groups related collision events.
    pub fn new(collisions: Vec<CollisionEvent<P>>) -> (r: Self)
        ensures
            r.collisions_view() == collisions@,
    {
        Self { collisions }
    }

    /// The related collision events.
    pub fn collisions(&self) -> (r: &[CollisionEvent<P>])
        ensures
            r@ == self.collisions_view(),
    {
        self.collisions.as_slice()
    }

    /// The entities that `entity_id` collided with: every entity of this
    /// event other than `entity_id`, in order.
    pub fn get_entities_hit_by<'a, T: Component, const E: usize>(
        &self,
        entity_id: usize,
        entities: &'a Entities<T, E>,
    ) -> (r: Vec<Entity<'a, T>>)
        requires
            entities.wf(),
            forall|k: int|
                0 <= k < hit_ids(self.collisions_view(), entity_id).len() ==> #[trigger] hit_ids(
                    self.collisions_view(),
                    entity_id,
                )[k] < E || entities.model().flags.len() == 0,
        ensures
            r@.len() == hit_ids(self.collisions_view(), entity_id).len(),
            forall|k: int|
                0 <= k < r@.len() ==> {
                    &&& (#[trigger] r@[k]).id_view() == hit_ids(self.collisions_view(), entity_id)[k]
                    &&& r@[k].components_view() == components_at(
                        entities.model(),
                        hit_ids(self.collisions_view(), entity_id)[k] as int,
                    )
                },
    {
        let ghost cs = self.collisions@;
        let ghost f = other_than::<P>(entity_id);
        let mut r: Vec<Entity<'a, T>> = Vec::new();
        let n = self.collisions.len();
        proof {
            assert(hit_ids(cs, entity_id) == hit_ids(self.collisions_view(), entity_id));
            assert(cs.take(0) =~= Seq::<CollisionEvent<P>>::empty());
        }
        let mut i: usize = 0;
        while i < n
            invariant
                n == cs.len(),
                cs == self.collisions@,
                f == other_than::<P>(entity_id),
                0 <= i <= n,
                entities.wf(),
                forall|k: int|
                    0 <= k < hit_ids(cs, entity_id).len() ==> #[trigger] hit_ids(cs, entity_id)[k] < E
                        || entities.model().flags.len() == 0,
                r@.len() == cs.take(i as int).filter_map(f).len(),
                forall|k: int|
                    0 <= k < r@.len() ==> {
                        &&& (#[trigger] r@[k]).id_view() == cs.take(i as int).filter_map(f)[k]
                        &&& r@[k].components_view() == components_at(
                            entities.model(),
                            cs.take(i as int).filter_map(f)[k] as int,
                        )
                    },
            decreases n - i,
        {
            let ghost prev = cs.take(i as int).filter_map(f);
            proof {
                assert(cs.take(i + 1).drop_last() =~= cs.take(i as int));
                assert(cs.take(i + 1).last() == cs[i as int]);
                lemma_filter_map_prefix(cs, f, i + 1);
            }
            let id = self.collisions[i].entity_id;
            if id != entity_id {
                proof {
                    let full = cs.filter_map(f);
                    assert(cs[i as int].entity_id == id);
                    assert(cs[i as int].entity_id != entity_id);
                    assert(f(cs[i as int]) == Some(id));
                    assert(cs.take(i + 1).filter_map(f) =~= prev.push(id));
                    assert(cs.take(i + 1).filter_map(f)[prev.len() as int] == id);
                    assert(full[prev.len() as int] == id);
                    assert(hit_ids(cs, entity_id) =~= full);
                }
                let entity = entities.get_entity(id);
                let ghost before = r@;
                r.push(entity);
                proof {
                    assert forall|k: int| 0 <= k < r@.len() implies {
                        &&& (#[trigger] r@[k]).id_view() == cs.take(i + 1).filter_map(f)[k]
                        &&& r@[k].components_view() == components_at(
                            entities.model(),
                            cs.take(i + 1).filter_map(f)[k] as int,
                        )
                    } by {
                        if k < before.len() {
                            assert(r@[k] == before[k]);
                        }
                    }
                }
            }
            i += 1;
        }
        proof {
            assert(cs.take(n as int) =~= cs);
            assert(hit_ids(cs, entity_id) =~= cs.filter_map(f));
        }
        r
    }
}

/// What `filter_map` keeps of a prefix is a prefix of what it keeps of the
/// whole sequence.
pub proof fn lemma_filter_map_prefix<A, B>(s: Seq<A>, f: spec_fn(A) -> Option<B>, k: int)
    requires
        0 <= k <= s.len(),
    ensures
        s.take(k).filter_map(f).len() <= s.filter_map(f).len(),
        forall|j: int|
            0 <= j < s.take(k).filter_map(f).len() ==> #[trigger] s.take(k).filter_map(f)[j]
                == s.filter_map(f)[j],
    decreases s.len() - k,
{
    if k < s.len() {
        lemma_filter_map_prefix(s, f, k + 1);
        assert(s.take(k + 1).drop_last() =~= s.take(k));
        let a = s.take(k).filter_map(f);
        let b = s.take(k + 1).filter_map(f);
        assert forall|j: int| 0 <= j < a.len() implies #[trigger] a[j] == s.filter_map(f)[j] by {
            assert(a[j] == b[j]);
        }
    } else {
        assert(s.take(k) =~= s);
    }
}

} // verus!
