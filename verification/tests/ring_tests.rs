use gbam_tools::query::ring::{Ring, RING_LIMIT};

/// Runs a ring to its end and gives back the references in the order in
/// which they were started and in which they were taken.
fn run_ring(thread_num: Option<usize>, total: usize) -> (Vec<usize>, Vec<usize>, usize) {
    let mut ring = Ring::new(thread_num, total);
    let cap = ring.capacity();
    let mut slots: Vec<Option<usize>> = vec![None; cap];
    let mut spawned = Vec::new();
    let mut joined = Vec::new();
    let mut steps = 0;
    loop {
        let step = ring.step();
        steps += 1;
        if let Some((slot, reference)) = step.join {
            assert_eq!(slots[slot], Some(reference));
            slots[slot] = None;
            joined.push(reference);
        }
        if let Some((slot, reference)) = step.spawn {
            assert_eq!(slots[slot], None);
            slots[slot] = Some(reference);
            spawned.push(reference);
        }
        assert!(ring.in_flight() <= cap);
        assert_eq!(ring.in_flight(), slots.iter().filter(|s| s.is_some()).count());
        assert_eq!(step.done, ring.is_done());
        if step.done {
            break;
        }
        assert!(steps <= 2 * total + 1);
    }
    assert!(slots.iter().all(|s| s.is_none()));
    (spawned, joined, steps)
}

#[test]
fn ring_size_follows_the_thread_count() {
    assert_eq!(Ring::new(None, 5).capacity(), 1);
    assert_eq!(Ring::new(Some(0), 5).capacity(), 1);
    assert_eq!(Ring::new(Some(1), 5).capacity(), 1);
    assert_eq!(Ring::new(Some(3), 5).capacity(), 3);
    assert_eq!(Ring::new(Some(8), 5).capacity(), 8);
    assert_eq!(Ring::new(Some(100), 5).capacity(), RING_LIMIT);
    assert_eq!(RING_LIMIT, 8);
}

#[test]
fn references_are_taken_in_order_whatever_the_ring() {
    for total in [0usize, 1, 2, 3, 7, 8, 9, 25] {
        let expected: Vec<usize> = (0..total).collect();
        for threads in [None, Some(1), Some(2), Some(3), Some(8), Some(64)] {
            let (spawned, joined, _) = run_ring(threads, total);
            assert_eq!(spawned, expected);
            assert_eq!(joined, expected);
        }
    }
}

#[test]
fn ring_of_two_overlaps_two_references() {
    let mut ring = Ring::new(Some(2), 3);
    let a = ring.step();
    assert_eq!((a.join, a.spawn, a.done), (None, Some((0, 0)), false));
    let b = ring.step();
    assert_eq!((b.join, b.spawn, b.done), (None, Some((1, 1)), false));
    assert_eq!(ring.in_flight(), 2);
    let c = ring.step();
    assert_eq!((c.join, c.spawn, c.done), (Some((0, 0)), Some((0, 2)), false));
    let d = ring.step();
    assert_eq!((d.join, d.spawn, d.done), (Some((1, 1)), None, false));
    let e = ring.step();
    assert_eq!((e.join, e.spawn, e.done), (Some((0, 2)), None, true));
    let f = ring.step();
    assert_eq!((f.join, f.spawn, f.done), (None, None, true));
}

#[test]
fn ring_without_references_ends_at_once() {
    let mut ring = Ring::new(Some(4), 0);
    assert!(ring.is_done());
    let step = ring.step();
    assert_eq!((step.join, step.spawn, step.done), (None, None, true));
    let (_, _, steps) = run_ring(Some(4), 0);
    assert_eq!(steps, 1);
}
