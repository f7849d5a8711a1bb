use ace::{Component, Entities, Entity};

#[derive(PartialEq, Clone, Debug)]
pub enum TestComponents {
    Number(u32),
    Decimal(f32),
    #[allow(dead_code)]
    Bool(bool),
    Marker,
}

impl TestComponents {
    pub const NUMBER: u32 = 1;
    pub const DECIMAL: u32 = 2;
    pub const BOOL: u32 = 4;
    pub const MARKER: u32 = 8;
}

impl Component for TestComponents {
    fn type_flag(&self) -> u32 {
        self.get_type()
    }

    fn marker(&self) -> bool {
        self.is_marker()
    }

    fn get_type(&self) -> u32 {
        match self {
            TestComponents::Number(_) => Self::NUMBER,
            TestComponents::Decimal(_) => Self::DECIMAL,
            TestComponents::Bool(_) => Self::BOOL,
            TestComponents::Marker => Self::MARKER,
        }
    }

    fn is_marker(&self) -> bool {
        matches!(self, TestComponents::Marker)
    }
}

fn components_of<'a>(entity: &Entity<'a, TestComponents>) -> Vec<&'a TestComponents> {
    (0..entity.len()).map(|i| entity.component_at(i)).collect()
}

#[test]
pub fn create_entity_should_create_new_buckets_for_components() {
    // Arrange
    let mut entities = Entities::<TestComponents, 32>::empty_custom();
    // Act
    let component = TestComponents::Number(128);
    let component2 = TestComponents::Decimal(1.2);
    entities.create_entity(vec![component, component2]);
    // Assert
    let bool = entities.bucket(TestComponents::BOOL);
    assert_eq!(None, bool, "Unexpected text components created");
    let numbers = entities
        .bucket(TestComponents::NUMBER)
        .expect("No numbers created");
    let empty: Vec<Option<TestComponents>> = vec![None; 32];
    let mut expected_numbers = empty.clone();
    expected_numbers[0] = Some(TestComponents::Number(128));
    assert_eq!(&expected_numbers[..], numbers);
    let decimals = entities
        .bucket(TestComponents::DECIMAL)
        .expect("No decimals created");
    let mut expected_decimals = empty.clone();
    expected_decimals[0] = Some(TestComponents::Decimal(1.2));
    assert_eq!(&expected_decimals[..], decimals);
}

#[test]
pub fn create_entity_should_only_fill_necessary_buckets() {
    // Arrange
    let mut entities = Entities::<TestComponents, 32>::empty_custom();
    // Act
    let component = TestComponents::Number(128);
    let component2 = TestComponents::Decimal(1.2);
    entities.create_entity(vec![component.clone()]);
    entities.create_entity(vec![component, component2]);
    // Assert
    let numbers = entities
        .bucket(TestComponents::NUMBER)
        .expect("No numbers created");
    let numbers = &numbers[0..2];
    assert_eq!(
        &[
            Some(TestComponents::Number(128)),
            Some(TestComponents::Number(128))
        ],
        numbers
    );
    let decimals = entities
        .bucket(TestComponents::DECIMAL)
        .expect("No decimals created");
    let decimals = &decimals[0..2];
    assert_eq!(&[None, Some(TestComponents::Decimal(1.2))], decimals);
}

#[test]
pub fn create_entity_should_not_create_bucket_for_markers() {
    // Arrange
    let mut entities = Entities::<TestComponents, 32>::empty_custom();
    // Act
    let component = TestComponents::Number(128);
    let marker = TestComponents::Marker;
    entities.create_entity(vec![component, marker]);
    // Assert
    assert_eq!(
        1,
        entities.bucket_count(),
        "Bucket was created for marker component!"
    );
    assert!(
        !entities
            .get_entities(TestComponents::NUMBER | TestComponents::MARKER)
            .is_empty(),
        "Marker component was not added to register!"
    );
}

#[test]
pub fn get_components_should_return_flattened_bucket() {
    // Arrange
    let mut entities = Entities::<TestComponents, 32>::empty_custom();
    entities.create_entity(vec![
        TestComponents::Number(128),
        TestComponents::Decimal(1.0),
    ]);
    entities.create_entity(vec![TestComponents::Decimal(2.0)]);
    entities.create_entity(vec![
        TestComponents::Number(256),
        TestComponents::Decimal(3.0),
    ]);
    // Act
    let components = entities.get_components(TestComponents::NUMBER);
    // Assert
    let expected_components = vec![&TestComponents::Number(128), &TestComponents::Number(256)];
    assert_eq!(expected_components, components);
}

#[test]
pub fn get_components_should_return_empty_bucket_when_no_components_found() {
    // Arrange
    let mut entities = Entities::<TestComponents, 32>::empty_custom();
    entities.create_entity(vec![
        TestComponents::Number(128),
        TestComponents::Decimal(1.0),
    ]);
    entities.create_entity(vec![TestComponents::Decimal(3.0)]);
    // Act
    let components = entities.get_components(TestComponents::BOOL);
    // Assert
    let expected_components = Vec::<&TestComponents>::new();
    assert_eq!(expected_components, components);
}

#[test]
pub fn get_bucket_should_return_all_components_up_to_entity_count() {
    // Arrange
    let mut entities = Entities::<TestComponents, 32>::empty_custom();
    entities.create_entity(vec![
        TestComponents::Number(128),
        TestComponents::Decimal(1.0),
    ]);
    entities.create_entity(vec![TestComponents::Decimal(2.0)]);
    entities.create_entity(vec![
        TestComponents::Number(256),
        TestComponents::Decimal(3.0),
    ]);
    // Act
    let bucket = entities.get_bucket(TestComponents::NUMBER);
    // Assert
    let expected_bucket = vec![
        Some(TestComponents::Number(128)),
        None,
        Some(TestComponents::Number(256)),
    ];
    assert_eq!(expected_bucket, bucket);
    assert_eq!(entities.count(), bucket.len());
}

#[test]
pub fn get_entity_should_return_all_components_of_one_entity() {
    // Arrange
    let mut entities = Entities::<TestComponents, 32>::empty_custom();
    entities.create_entity(vec![TestComponents::Decimal(2.0)]);
    let entity = entities.create_entity(vec![
        TestComponents::Number(128),
        TestComponents::Decimal(1.0),
    ]);
    // Act
    let entity = entities.get_entity(entity);
    // Assert
    let expected_entity = vec![&TestComponents::Decimal(1.0), &TestComponents::Number(128)];
    assert_eq!(expected_entity, components_of(&entity));
}

#[test]
pub fn update_entity_should_update_component() {
    // Arrange
    let mut entities = Entities::<TestComponents, 32>::empty_custom();
    let entity = entities.create_entity(vec![
        TestComponents::Number(0),
        TestComponents::Decimal(1.0),
    ]);
    // Act
    let mut updates = entities.update();
    updates.set(entity, TestComponents::Number(128));
    entities.commit(updates);
    // Assert
    let component = &entities.bucket(TestComponents::NUMBER).unwrap()[entity];
    assert_eq!(&Some(TestComponents::Number(128)), component);
}

#[test]
pub fn update_entity_should_update_component2() {
    // Arrange
    let mut entities = Entities::<TestComponents, 32>::empty_custom();
    let non_updated_entity = entities.create_entity(vec![TestComponents::Number(1)]);
    let entity = entities.create_entity(vec![TestComponents::Decimal(1.0)]);
    // Act
    let mut updates = entities.update();
    updates.set(entity, TestComponents::Number(128));
    entities.commit(updates);
    // Assert
    let component = &entities.bucket(TestComponents::NUMBER).unwrap()[entity];
    assert_eq!(&Some(TestComponents::Number(128)), component);
    let non_updated_component =
        &entities.bucket(TestComponents::NUMBER).unwrap()[non_updated_entity];
    assert_eq!(
        &Some(TestComponents::Number(1)),
        non_updated_component,
        "Updating entity cleared bucket!"
    );
}

#[test]
pub fn update_entity_should_add_new_component() {
    // Arrange
    let mut entities = Entities::<TestComponents, 32>::empty_custom();
    let entity = entities.create_entity(vec![TestComponents::Decimal(1.0)]);
    // Act
    let mut updates = entities.update();
    updates.set(entity, TestComponents::Number(128));
    entities.commit(updates);
    // Assert
    let component = &entities.bucket(TestComponents::NUMBER).unwrap()[entity];
    assert_eq!(&Some(TestComponents::Number(128)), component);
}

#[test]
pub fn update_entity_should_update_register() {
    // Arrange
    let mut entities = Entities::<TestComponents, 32>::empty_custom();
    let entity = entities.create_entity(vec![TestComponents::Decimal(1.0)]);
    // Act
    let mut updates = entities.update();
    updates.set(entity, TestComponents::Number(128));
    entities.commit(updates);
    // Assert
    let found_entities = entities.get_entities(TestComponents::DECIMAL | TestComponents::NUMBER);
    assert!(!found_entities.is_empty(), "Register was not updated!");
}

#[test]
pub fn update_entity_should_not_create_bucket_for_marker_components() {
    // Arrange
    let mut entities = Entities::<TestComponents, 32>::empty_custom();
    let entity = entities.create_entity(vec![TestComponents::Decimal(1.0)]);
    // Act
    let mut updates = entities.update();
    updates.set(entity, TestComponents::Marker);
    entities.commit(updates);
    // Assert
    assert_eq!(
        1,
        entities.bucket_count(),
        "Bucket for marker component created!"
    );
}

#[test]
pub fn get_entities_should_return_all_entities_with_matching_flags() {
    // Arrange
    let mut entities = Entities::<TestComponents, 32>::empty_custom();
    entities.create_entity(vec![
        TestComponents::Decimal(1.0),
        TestComponents::Number(128),
    ]); // Target 1
    entities.create_entity(vec![
        TestComponents::Decimal(2.0),
        TestComponents::Number(256),
        TestComponents::Bool(true),
    ]); // Target 2
    entities.create_entity(vec![
        TestComponents::Bool(false),
        TestComponents::Decimal(1.0),
    ]);
    entities.create_entity(vec![
        TestComponents::Number(128),
        TestComponents::Bool(true),
    ]);
    // Act
    let entities = entities.get_entities(TestComponents::DECIMAL | TestComponents::NUMBER);
    // Assert
    let expected_entities = vec![
        (
            0,
            vec![&TestComponents::Decimal(1.0), &TestComponents::Number(128)],
        ),
        (
            1,
            vec![
                &TestComponents::Decimal(2.0),
                &TestComponents::Number(256),
                &TestComponents::Bool(true),
            ],
        ),
    ];
    let found: Vec<(usize, Vec<&TestComponents>)> = entities
        .iter()
        .map(|e| (e.id(), components_of(e)))
        .collect();
    assert_eq!(expected_entities, found);
}

#[test]
fn create_entity_should_leave_other_entities_and_types_alone() {
    let mut entities = Entities::<TestComponents, 4>::empty_custom();
    let first = entities.create_entity(vec![TestComponents::Number(1), TestComponents::Decimal(0.5)]);
    let second = entities.create_entity(vec![
        TestComponents::Number(2),
        TestComponents::Number(3),
        TestComponents::Marker,
    ]);
    assert_eq!((0, 1), (first, second));
    assert_eq!(2, entities.count());
    let numbers = entities.bucket(TestComponents::NUMBER).unwrap();
    assert_eq!(&[Some(TestComponents::Number(1)), Some(TestComponents::Number(3)), None, None][..], numbers);
    let decimals = entities.bucket(TestComponents::DECIMAL).unwrap();
    assert_eq!(&[Some(TestComponents::Decimal(0.5)), None, None, None][..], decimals);
    assert_eq!(None, entities.bucket(TestComponents::MARKER));
    let second_entity = entities.get_entity(second);
    assert_eq!(Some(&TestComponents::Number(3)), second_entity.get(TestComponents::NUMBER));
    assert_eq!(None, second_entity.get(TestComponents::DECIMAL));
    let with_marker: Vec<usize> = entities
        .get_entities(TestComponents::NUMBER | TestComponents::MARKER)
        .iter()
        .map(|e| e.id())
        .collect();
    assert_eq!(vec![second], with_marker);
}

#[test]
fn commit_should_change_only_staged_slots() {
    let mut entities = Entities::<TestComponents, 4>::empty_custom();
    entities.create_entity(vec![TestComponents::Number(1)]);
    entities.create_entity(vec![TestComponents::Number(2), TestComponents::Decimal(2.5)]);
    let mut updates = entities.update();
    updates
        .set(1, TestComponents::Number(20))
        .set(0, TestComponents::Marker)
        .set(1, TestComponents::Number(21));
    entities.commit(updates);
    assert_eq!(2, entities.count());
    let numbers = entities.bucket(TestComponents::NUMBER).unwrap();
    assert_eq!(&[Some(TestComponents::Number(1)), Some(TestComponents::Number(21)), None, None][..], numbers);
    let decimals = entities.bucket(TestComponents::DECIMAL).unwrap();
    assert_eq!(&[None, Some(TestComponents::Decimal(2.5)), None, None][..], decimals);
    assert_eq!(None, entities.bucket(TestComponents::MARKER));
    let marked: Vec<usize> = entities
        .get_entities(TestComponents::MARKER)
        .iter()
        .map(|e| e.id())
        .collect();
    assert_eq!(vec![0], marked);
}

#[test]
fn create_entity_should_keep_components_written_earlier_to_its_slot() {
    let mut entities = Entities::<TestComponents, 4>::empty_custom();
    entities.create_entity(vec![TestComponents::Number(1)]);
    let mut updates = entities.update();
    updates.set(1, TestComponents::Decimal(0.25));
    entities.commit(updates);
    let id = entities.create_entity(vec![TestComponents::Number(2)]);
    assert_eq!(1, id);
    let entity = entities.get_entity(id);
    assert_eq!(Some(&TestComponents::Decimal(0.25)), entity.get(TestComponents::DECIMAL));
    assert_eq!(Some(&TestComponents::Number(2)), entity.get(TestComponents::NUMBER));
    let with_decimal: Vec<usize> = entities
        .get_entities(TestComponents::DECIMAL | TestComponents::NUMBER)
        .iter()
        .map(|e| e.id())
        .collect();
    assert_eq!(vec![1], with_decimal);
}
