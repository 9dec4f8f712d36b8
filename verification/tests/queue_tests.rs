use mbei::event::{Deltas, Event, Retractions, Update};
use mbei::inbox::Queue;
use mbei::ordered::OrderedSet;

#[test]
fn test_queue() {
    let mut queue = Queue::new();
    let e1 = Update::Event(Event {
        event_id: "abc".to_string(),
        timestamp: 3,
        node_id: "abc123".to_string(),
        payload: vec![],
    });
    let d1 = Update::Deltas(Deltas {
        deltas_id: "".to_string(),
        origin_id: "".to_string(),
        origin_timestamp: 99,
        deltas: OrderedSet::new(),
    });
    let e2 = Update::Event(Event {
        event_id: "abc".to_string(),
        timestamp: 4,
        node_id: "abc123".to_string(),
        payload: vec![],
    })
    .clone();
    let r1 = Update::Retractions(Retractions {
        retraction_id: "r3".to_string(),
        timestamp: 5,
        deltas_ids: vec![],
    });
    queue.insert_update(d1.clone());
    queue.insert_update(e1.clone());
    queue.insert_update(e2.clone());
    queue.insert_update(r1.clone());
    let u1 = queue.pop_earliest_update();
    let u2 = queue.pop_earliest_update();
    let u3 = queue.pop_earliest_update();
    let u4 = queue.pop_earliest_update();
    let u5 = queue.pop_earliest_update();

    assert_eq!(u1.unwrap(), r1);
    assert_eq!(u2.unwrap(), d1);
    assert_eq!(u3.unwrap(), e1);
    assert_eq!(u4.unwrap(), e2);
    assert_eq!(u5, None)
}

#[test]
fn test_queue_stop_comes_first_and_stays() {
    let mut queue = Queue::new();
    queue.insert_update(Update::Retractions(Retractions {
        retraction_id: "r".to_string(),
        timestamp: 1,
        deltas_ids: vec![],
    }));
    queue.insert_update(Update::Stop);
    assert_eq!(queue.pop_earliest_update(), Some(Update::Stop));
    assert_eq!(queue.pop_earliest_update(), Some(Update::Stop));
    assert_eq!(queue.get_queue_size(), 1);
}

#[test]
fn test_queue_ties_by_insertion_order() {
    let mut queue = Queue::new();
    let mk = |id: &str, ts: u64| {
        Update::Event(Event {
            event_id: id.to_string(),
            timestamp: ts,
            node_id: "n".to_string(),
            payload: vec![],
        })
    };
    queue.insert_update(mk("a", 7));
    queue.insert_update(mk("b", 5));
    queue.insert_update(mk("c", 5));
    queue.insert_update(mk("d", 7));
    assert_eq!(queue.pop_earliest_update(), Some(mk("b", 5)));
    assert_eq!(queue.pop_earliest_update(), Some(mk("c", 5)));
    assert_eq!(queue.pop_earliest_update(), Some(mk("a", 7)));
    assert_eq!(queue.pop_earliest_update(), Some(mk("d", 7)));
    assert_eq!(queue.pop_earliest_update(), None);
}
