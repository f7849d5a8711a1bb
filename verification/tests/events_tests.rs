use ace::Events;

#[derive(Debug, PartialEq, Eq, Clone)]
enum TestEvent {
    Hello,
    Goodbye,
    Number(u32),
}

#[test]
pub fn push_event_should_add_single_event() {
    // Arrange
    let mut sut = Events::<TestEvent>::empty_custom();
    // Act
    sut.push_event(TestEvent::Hello);
    sut.push_event(TestEvent::Goodbye);
    // Assert
    let events = sut.events();
    assert_eq!(*events, vec![TestEvent::Hello, TestEvent::Goodbye]);
}

#[test]
pub fn push_events_should_add_events_in_bulk() {
    // Arrange
    let mut sut = Events::<TestEvent>::empty_custom();
    // Act
    let mut new_events = vec![TestEvent::Hello, TestEvent::Goodbye];
    sut.push_events(&mut new_events);
    // Assert
    let events = sut.events();
    assert_eq!(*events, vec![TestEvent::Hello, TestEvent::Goodbye]);
    assert_eq!(new_events, vec![]);
}

#[test]
pub fn handle_events_should_collect_matching_values_in_order() {
    let mut sut = Events::<TestEvent>::empty_custom();
    sut.push_event(TestEvent::Number(3));
    sut.push_event(TestEvent::Hello);
    sut.push_event(TestEvent::Number(5));
    let numbers = sut.handle_events(|e| match e {
        TestEvent::Number(n) => Some(*n),
        _ => None,
    });
    assert_eq!(vec![3, 5], numbers);
    let none: Vec<u32> = Events::<TestEvent>::empty_custom().handle_events(|_| Some(1));
    assert!(none.is_empty());
}

#[test]
pub fn push_events_should_keep_earlier_events_first() {
    let mut sut = Events::<TestEvent>::empty_custom();
    sut.push_event(TestEvent::Goodbye);
    let mut more = vec![TestEvent::Hello];
    sut.push_events(&mut more);
    assert_eq!(sut.events(), &[TestEvent::Goodbye, TestEvent::Hello]);
}
