use std::collections::HashSet;

use wpaperd::image_picker::{
    effective_queue_size, next_random_from_answers, next_random_image, previous_from_answers,
    ImagePicker,
};
use wpaperd::queue::Queue;

fn p(s: &str) -> String {
    s.to_string()
}

#[test]
fn test_push() {
    let mut queue = Queue::with_capacity(2);
    queue.push(p("mypath"));
    queue.push(p("mypath2"));
    assert_eq!("mypath2", queue.current());
    assert_eq!(Some((p("mypath"), 0)), queue.previous());
    assert_eq!("mypath", queue.current());

    assert_eq!(None, queue.previous());
}

#[test]
fn test_push_redisplayed_image() {
    // A queue larger than the image set forces the random fallback to
    // repeat an image already shown; recording the repeat moves it to the
    // most recent slot.
    let mut queue = Queue::with_capacity(5);
    queue.push(p("mypath"));
    queue.push(p("mypath2"));
    queue.push(p("mypath3"));

    queue.push(p("mypath"));
    assert_eq!("mypath", queue.current());
    assert_eq!(Some((p("mypath3"), 1)), queue.previous());
    assert_eq!(Some((p("mypath2"), 0)), queue.previous());
    assert_eq!(None, queue.previous());
}

#[test]
fn test_push_replayed_image() {
    // Walking back and then forward replays the queue in place.
    let mut queue = Queue::with_capacity(3);
    queue.push(p("mypath"));
    queue.push(p("mypath2"));
    queue.push(p("mypath3"));

    assert_eq!(Some((p("mypath2"), 1)), queue.previous());
    assert_eq!(Some((p("mypath"), 0)), queue.previous());
    assert_eq!(Some((p("mypath2"), 1)), queue.next());
    queue.push(p("mypath2"));
    assert_eq!(Some((p("mypath3"), 2)), queue.next());
}

#[test]
fn test_push_keeps_cycle_count() {
    let mut queue = Queue::with_capacity(5);
    queue.push(p("mypath"));
    queue.push(p("mypath2"));
    queue.push(p("mypath3"));
    assert_eq!(3, queue.in_cycle());

    // mypath2 is already part of the cycle
    queue.push(p("mypath2"));
    assert_eq!(3, queue.in_cycle());
    assert_eq!("mypath2", queue.current());

    // A new cycle starts empty and the first image shown joins it
    queue.start_new_cycle();
    assert_eq!(0, queue.in_cycle());
    queue.push(p("mypath"));
    assert_eq!(1, queue.in_cycle());
}

#[test]
fn test_resize_evicts_cursor() {
    let mut queue = Queue::with_capacity(5);
    queue.push(p("mypath"));
    queue.push(p("mypath2"));
    queue.push(p("mypath3"));
    queue.push(p("mypath4"));
    queue.push(p("mypath5"));
    assert_eq!(Some((p("mypath4"), 3)), queue.previous());
    assert_eq!(Some((p("mypath3"), 2)), queue.previous());
    assert_eq!(Some((p("mypath2"), 1)), queue.previous());

    queue.resize(2);
    assert_eq!("mypath4", queue.current());
    assert_eq!(None, queue.previous());
    assert_eq!(Some((p("mypath5"), 1)), queue.next());
}

#[test]
fn test_next_random_image_avoids_already_shown() {
    // With one image left unseen, the selection must pick it.
    let files: Vec<String> = ["a", "b", "c", "d"].iter().map(|s| s.to_string()).collect();
    for _ in 0..50 {
        let mut queue = Queue::with_capacity(10);
        queue.push(files[0].clone());
        queue.push(files[1].clone());
        queue.push(files[2].clone());

        let (index, path) = next_random_image(&files[2], &mut queue, &files);
        assert_eq!(3, index);
        assert_eq!(files[3], path);
    }
}

#[test]
fn test_next_random_image_cycles_without_repeats() {
    // Once every image has been shown, a new cycle starts: again no
    // repeats until every image has been shown, and no image twice in a
    // row across the boundary.
    let files: Vec<String> = ["a", "b", "c"].iter().map(|s| s.to_string()).collect();
    for _ in 0..20 {
        let mut queue = Queue::with_capacity(10);
        let mut current = String::new();
        for cycle in 0..3 {
            let mut shown = HashSet::new();
            for _ in 0..files.len() {
                let (_, path) = next_random_image(&current, &mut queue, &files);
                assert_ne!(current, path, "repeat across change in cycle {cycle}");
                assert!(shown.insert(path.clone()), "repeat within cycle {cycle}");
                queue.push(path.clone());
                current = path;
            }
            assert_eq!(files.len(), shown.len());
        }
    }
}

#[test]
fn test_effective_queue_size() {
    // An explicit queue-size always wins
    assert_eq!(7, effective_queue_size(Some(7), 100));
    // Without one, the queue covers the whole collection
    assert_eq!(100, effective_queue_size(None, 100));
    // Single files and empty folders fall back to the default
    assert_eq!(
        ImagePicker::DEFAULT_DRAWN_IMAGES_QUEUE_SIZE,
        effective_queue_size(None, 0)
    );
    // A queue needs room for at least one image
    assert_eq!(1, effective_queue_size(Some(0), 100));
}

#[test]
fn test_resize_grow() {
    let mut queue = Queue::with_capacity(3);
    queue.push(p("mypath"));
    queue.push(p("mypath2"));
    queue.push(p("mypath3"));

    queue.resize(5);
    assert_eq!("mypath3", queue.current());
    assert_eq!(Some((p("mypath2"), 1)), queue.previous());
    assert_eq!(Some((p("mypath"), 0)), queue.previous());
    assert_eq!(None, queue.previous());
}

#[test]
fn test_resize_shrink_not_full() {
    let mut queue = Queue::with_capacity(10);
    queue.push(p("mypath"));
    queue.push(p("mypath2"));
    queue.push(p("mypath3"));

    queue.resize(2);
    assert_eq!("mypath3", queue.current());
    assert_eq!(Some((p("mypath2"), 0)), queue.previous());
    assert_eq!(None, queue.previous());
}

#[test]
fn test_resize_to_zero() {
    let mut queue = Queue::with_capacity(2);
    queue.push(p("mypath"));
    queue.push(p("mypath2"));

    queue.resize(0);
    assert_eq!("mypath2", queue.current());
    assert_eq!(Some((p("mypath"), 0)), queue.previous());
    assert_eq!(None, queue.previous());
}

#[test]
fn test_resize() {
    let mut queue = Queue::with_capacity(5);
    queue.push(p("mypath"));
    queue.push(p("mypath2"));
    queue.push(p("mypath3"));
    queue.push(p("mypath4"));
    queue.push(p("mypath5"));
    assert_eq!(queue.len(), 5);
    assert_eq!("mypath5", queue.current());
    assert_eq!(Some((p("mypath4"), 3)), queue.previous());

    // The current index works when it's inside the resizing range
    queue.resize(2);
    assert_eq!("mypath4", queue.current());
    assert_eq!(None, queue.previous());
    assert_eq!(Some((p("mypath5"), 1)), queue.next());
}

#[test]
fn test_resize2() {
    let mut queue = Queue::with_capacity(5);
    queue.push(p("mypath"));
    queue.push(p("mypath2"));
    queue.push(p("mypath3"));
    queue.push(p("mypath4"));
    queue.push(p("mypath5"));
    queue.push(p("mypath6"));
    queue.push(p("mypath7"));
    queue.push(p("mypath8"));
    assert_eq!(queue.len(), 5);
    assert_eq!("mypath8", queue.current());
    assert_eq!(Some((p("mypath7"), 3)), queue.previous());
    assert_eq!(Some((p("mypath6"), 2)), queue.previous());
    assert_eq!(Some((p("mypath5"), 1)), queue.previous());

    // The current item points to the first item available
    queue.resize(2);
    assert_eq!("mypath7", queue.current());
    assert_eq!(Some((p("mypath8"), 1)), queue.next());
    assert_eq!(None, queue.next());
}

fn history(items: &[&str]) -> Queue {
    let mut q = Queue::with_capacity(10);
    for i in items {
        q.push(p(i));
    }
    q
}

#[test]
fn going_back_takes_the_nearest_earlier_image_that_exists() {
    // The cursor is on "d"; "c" is gone, "b" exists.
    let mut q = history(&["a", "b", "c", "d"]);
    assert_eq!((1, p("b")), previous_from_answers(&p("d"), &mut q, &vec![false, true]));
    assert_eq!("b", q.current());
    // Every earlier image is gone: the image on screen again.
    let mut q = history(&["a", "b", "c", "d"]);
    assert_eq!((usize::MAX, p("d")), previous_from_answers(&p("d"), &mut q, &vec![false, false, false]));
    assert_eq!("d", q.current());
    // The image on screen is not recorded: the cursor stays on the oldest.
    let mut q = history(&["a", "b"]);
    assert_eq!((usize::MAX, p("x")), previous_from_answers(&p("x"), &mut q, &vec![false]));
    assert_eq!("a", q.current());
}

#[test]
fn going_forward_replays_the_nearest_later_image_that_exists() {
    let files = vec![p("a"), p("b"), p("c"), p("d"), p("e")];
    let mut q = history(&["a", "b", "c", "d"]);
    q.previous();
    q.previous();
    q.previous();
    assert_eq!("a", q.current());
    // "b" is gone, "c" exists.
    assert_eq!((2, p("c")), next_random_from_answers(&p("a"), &mut q, &files, &vec![false, true]));
    assert_eq!("c", q.current());
    // "d" is gone: past the newest image, a file not seen in the cycle.
    let (i, pick) = next_random_from_answers(&p("c"), &mut q, &files, &vec![false]);
    assert_eq!(4, i);
    assert_eq!("e", pick);
}
