use ace::{Component, Entities, Entity};

#[derive(Debug, PartialEq)]
pub enum Value {
    Integer(u32),
    Bool(bool),
}

impl Value {
    pub const INTEGER: u32 = 1;
    pub const BOOL: u32 = 2;
}

impl Component for Value {
    fn type_flag(&self) -> u32 {
        self.get_type()
    }

    fn marker(&self) -> bool {
        self.is_marker()
    }

    fn get_type(&self) -> u32 {
        match self {
            Value::Integer(_) => Self::INTEGER,
            Value::Bool(_) => Self::BOOL,
        }
    }

    fn is_marker(&self) -> bool {
        false
    }
}

#[test]
pub fn indexing_entity_should_return_component_by_type_id() {
    // Arrange
    let integer = Value::Integer(123);
    let boolean = Value::Bool(true);
    let sut = Entity::new(0, vec![&integer, &boolean]);
    // Act
    let value = sut.component(Value::INTEGER);
    // Assert
    assert_eq!(&integer, value);
}

#[test]
#[should_panic]
pub fn indexing_entity_should_panic_if_component_is_missing() {
    // Arrange
    let boolean = Value::Bool(true);
    let sut = Entity::new(0, vec![&boolean]);
    // Act
    let _ = sut.component(Value::INTEGER);
    // Assert
    unreachable!("a non-existing value was returned without panic!");
}

#[test]
pub fn entity_lookup_should_return_last_component_of_a_type() {
    let first = Value::Integer(1);
    let flag = Value::Bool(false);
    let second = Value::Integer(2);
    let sut = Entity::new(7, vec![&first, &flag, &second]);
    assert_eq!(7, sut.id());
    assert_eq!(2, sut.len());
    assert_eq!(Some(&Value::Integer(2)), sut.get(Value::INTEGER));
    // the replacing component keeps the place of the first one of its type
    assert_eq!(&Value::Integer(2), sut.component_at(0));
    assert_eq!(&Value::Bool(false), sut.component_at(1));
}

#[test]
pub fn entity_get_should_return_none_for_missing_type() {
    let boolean = Value::Bool(true);
    let sut = Entity::new(0, vec![&boolean]);
    assert_eq!(None, sut.get(Value::INTEGER));
    assert_eq!(Some(&Value::Bool(true)), sut.get(Value::BOOL));
}

#[test]
pub fn later_set_of_same_type_should_replace_earlier_one() {
    let mut entities = Entities::<Value, 4>::empty_custom();
    let id = entities.create_entity(vec![Value::Integer(0)]);
    let mut updates = entities.update();
    updates.set(id, Value::Integer(10));
    updates.set(id, Value::Integer(20));
    entities.commit(updates);
    assert_eq!(Some(Value::Integer(20)), entities.get_bucket(Value::INTEGER)[id]);
}

#[test]
pub fn set_batch_should_stage_every_component() {
    let mut entities = Entities::<Value, 4>::empty_custom();
    let a = entities.create_entity(vec![]);
    let b = entities.create_entity(vec![]);
    let mut updates = entities.update();
    updates.set_batch(b, vec![Value::Bool(true), Value::Integer(5)]);
    entities.commit(updates);
    assert_eq!(vec![None, Some(Value::Integer(5))], entities.get_bucket(Value::INTEGER));
    assert_eq!(vec![None, Some(Value::Bool(true))], entities.get_bucket(Value::BOOL));
    assert_eq!(0, entities.get_entity(a).len());
    assert_eq!(1, entities.get_entities(Value::BOOL | Value::INTEGER).len());
}

#[test]
pub fn create_entity_should_return_previous_count() {
    let mut entities = Entities::<Value, 4>::empty_custom();
    assert_eq!(0, entities.count());
    assert_eq!(0, entities.create_entity(vec![Value::Integer(1)]));
    assert_eq!(1, entities.create_entity(vec![Value::Integer(2)]));
    assert_eq!(2, entities.count());
    assert_eq!(2, entities.get_bucket(Value::BOOL).len());
    assert_eq!(0, entities.get_components(Value::BOOL).len());
}

#[test]
pub fn create_entity_with_repeated_type_should_keep_last() {
    let mut entities = Entities::<Value, 4>::empty_custom();
    let id = entities.create_entity(vec![Value::Integer(1), Value::Integer(2)]);
    assert_eq!(vec![&Value::Integer(2)], entities.get_components(Value::INTEGER));
    assert_eq!(Some(&Value::Integer(2)), entities.get_entity(id).get(Value::INTEGER));
}
