use ace::physics::{CollisionEvent, CollisionSystem, CompoundCollisionEvent, PhysicsSystem, RigidBody};
use ace::scripts::PlayerScript;
use ace::{Component, Entities};

#[derive(Debug, PartialEq, Clone)]
enum Part {
    Hp(u32),
    Tag,
}

impl Component for Part {
    fn type_flag(&self) -> u32 {
        self.get_type()
    }
    fn marker(&self) -> bool {
        self.is_marker()
    }
    fn get_type(&self) -> u32 {
        match self {
            Part::Hp(_) => 1,
            Part::Tag => 2,
        }
    }
    fn is_marker(&self) -> bool {
        matches!(self, Part::Tag)
    }
}

#[test]
fn rigid_body_new_should_equal_static_body_given_the_velocity() {
    let mut body = RigidBody::static_body();
    body.set_velocity([4, 5, 6]);
    assert_eq!(RigidBody::new([4, 5, 6]), body);
    body.set_velocity([7, 8, 9]);
    body.set_velocity([0, 1, 0]);
    assert_eq!(Some(&[0, 1, 0]), body.velocity());
}

#[test]
fn rigid_body_velocity_should_follow_constructor_and_setter() {
    let moving = RigidBody::new([1, 2, 3]);
    assert_eq!(Some(&[1, 2, 3]), moving.velocity());
    let mut body = RigidBody::<[i32; 3]>::static_body();
    assert_eq!(None, body.velocity());
    body.set_velocity([0, 0, 1]);
    assert_eq!(Some(&[0, 0, 1]), body.velocity());
    assert_eq!(None, RigidBody::<u8>::default().velocity());
}

#[test]
fn physics_system_should_keep_its_collision_system() {
    assert!(PhysicsSystem::new(Some(CollisionSystem)).collision_system().is_some());
    assert!(PhysicsSystem::new(None).collision_system().is_none());
}

#[test]
fn entities_hit_by_should_be_the_other_colliders() {
    let mut entities = Entities::<Part, 8>::empty_custom();
    entities.create_entity(vec![Part::Hp(1)]);
    entities.create_entity(vec![Part::Hp(2), Part::Tag]);
    entities.create_entity(vec![Part::Hp(3)]);
    let event = CompoundCollisionEvent::new(vec![
        CollisionEvent { entity_id: 0, collision_point: Some(()) },
        CollisionEvent { entity_id: 2, collision_point: None },
    ]);
    let hit = event.get_entities_hit_by(0, &entities);
    assert_eq!(1, hit.len());
    assert_eq!(2, hit[0].id());
    assert_eq!(Some(&Part::Hp(3)), hit[0].get(1));
    let hit_by_other = event.get_entities_hit_by(2, &entities);
    assert_eq!(vec![0], hit_by_other.iter().map(|e| e.id()).collect::<Vec<_>>());
    assert_eq!(2, event.collisions().len());
    assert_eq!(2, event.get_entities_hit_by(5, &entities).len());
}

#[test]
fn player_script_should_start_without_bullet_shader() {
    let mut script = PlayerScript::new("clock");
    assert_eq!(0, script.bullet_shader());
    script.set_bullet_shader(42);
    assert_eq!(42, script.bullet_shader());
    assert_eq!(&"clock", script.clock());
}
