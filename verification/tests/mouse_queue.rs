use moros_game::sys::mouse::{event_from_dequeue, MouseEvent, MouseQueue};
use nolock::queues::DequeueError;

fn event(x: i8) -> MouseEvent {
    MouseEvent { x_movement: x, y_movement: -x, buttons: 1 }
}

#[test]
fn events_come_out_in_order() {
    let q = MouseQueue::new();
    assert_eq!(q.get_last_event(), None);
    q.push_event(event(1));
    q.push_event(event(2));
    assert_eq!(q.get_last_event(), Some(event(1)));
    assert_eq!(q.get_last_event(), Some(event(2)));
    assert_eq!(q.get_last_event(), None);
}

#[test]
fn a_full_queue_drops_new_events() {
    let q = MouseQueue::new();
    for i in 0..128 {
        q.push_event(event((i % 100) as i8));
    }
    q.push_event(event(-5));
    let mut taken = Vec::new();
    while let Some(e) = q.get_last_event() {
        taken.push(e);
    }
    assert_eq!(taken.len(), 128);
    assert_eq!(taken[0], event(0));
    assert_eq!(taken[127], event(27));
    assert!(!taken.contains(&event(-5)));
}

#[test]
fn dequeue_results_become_events() {
    assert_eq!(event_from_dequeue(Ok(event(3))), Some(event(3)));
    assert_eq!(event_from_dequeue(Err(DequeueError::Empty)), None);
    assert_eq!(event_from_dequeue(Err(DequeueError::Closed)), None);
}
