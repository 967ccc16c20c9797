use wpaperd::queue::Queue;

#[test]
fn previous_then_next_returns_to_the_same_image() {
    let mut queue = Queue::with_capacity(4);
    for p in ["a", "b", "c"] {
        queue.push(p.to_string());
    }
    assert_eq!(Some(("b".to_string(), 1)), queue.previous());
    assert_eq!(Some(("c".to_string(), 2)), queue.next());
    assert_eq!("c", queue.current());
    assert!(queue.has_reached_end() == false);
    assert_eq!(None, queue.next());
}

#[test]
fn full_queue_evicts_the_oldest_and_keeps_the_cursor_slot() {
    let mut queue = Queue::with_capacity(2);
    queue.push("a".to_string());
    queue.push("b".to_string());
    assert!(queue.is_full());
    assert_eq!(Some(("a".to_string(), 0)), queue.previous());
    queue.push("c".to_string());
    assert_eq!(2, queue.len());
    // The cursor keeps its slot, which now holds "b".
    assert_eq!("b", queue.current());
    assert_eq!(0, queue.current_index());
}

#[test]
fn cycle_holds_the_newest_images() {
    let mut queue = Queue::with_capacity(5);
    for p in ["a", "b", "c"] {
        queue.push(p.to_string());
    }
    queue.start_new_cycle();
    queue.push("d".to_string());
    assert_eq!(vec!["d".to_string()], queue.current_cycle());
    // An image shown before the cycle joins it when shown again.
    queue.push("a".to_string());
    assert_eq!(vec!["d".to_string(), "a".to_string()], queue.current_cycle());
    assert_eq!(2, queue.in_cycle());
}

#[test]
fn set_current_to_moves_the_cursor_onto_a_recorded_image() {
    let mut queue = Queue::with_capacity(5);
    for p in ["a", "b", "c"] {
        queue.push(p.to_string());
    }
    queue.set_current_to(&"a".to_string());
    assert_eq!("a", queue.current());
    queue.set_current_to(&"z".to_string());
    assert_eq!("a", queue.current());
}

#[test]
fn at_the_tail_of_a_full_queue() {
    let mut queue = Queue::with_capacity(2);
    queue.push("a".to_string());
    queue.push("b".to_string());
    assert!(queue.has_reached_end());
    assert_eq!(2, queue.size());
}
