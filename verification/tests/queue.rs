use pqueue::queue::{Neighbor, Queue};

/// Order-preserving key for a non-negative score: the IEEE 754 bit pattern of
/// a non-negative f32 compares like the value itself.
fn key(score: f32) -> u32 {
    assert!(score >= 0.0);
    score.to_bits()
}

fn n(id: u32, score: f32) -> Neighbor {
    Neighbor { id, dist: key(score) }
}

fn snapshot(q: &Queue) -> Vec<(u32, f32)> {
    q.as_slice()
        .iter()
        .map(|e| (e.id, f32::from_bits(e.dist)))
        .collect()
}

fn is_sorted(q: &Queue) -> bool {
    let s = q.as_slice();
    (1..s.len()).all(|i| {
        let a = &s[i - 1];
        let b = &s[i];
        a.dist < b.dist || (a.dist == b.dist && a.id <= b.id)
    })
}

#[test]
fn scenario_sorted_inserts() {
    let mut q = Queue::with_capacity(3);
    q.insert(n(1, 0.5));
    q.insert(n(2, 0.2));
    q.insert(n(3, 0.8));
    assert_eq!(snapshot(&q), vec![(2, 0.2), (1, 0.5), (3, 0.8)]);
}

#[test]
fn scenario_eviction() {
    let mut q = Queue::with_capacity(3);
    q.insert(n(1, 0.5));
    q.insert(n(2, 0.2));
    q.insert(n(3, 0.8));
    q.insert(n(4, 0.1));
    assert_eq!(snapshot(&q), vec![(4, 0.1), (2, 0.2), (1, 0.5)]);
}

#[test]
fn scenario_no_op_when_worse() {
    let mut q = Queue::with_capacity(3);
    q.insert(n(1, 0.5));
    q.insert(n(2, 0.2));
    q.insert(n(3, 0.8));
    q.insert(n(4, 0.1));
    q.insert(n(5, 0.9));
    assert_eq!(snapshot(&q), vec![(4, 0.1), (2, 0.2), (1, 0.5)]);
}

#[test]
fn scenario_tie_break_by_id() {
    let mut q = Queue::with_capacity(2);
    q.insert(n(5, 1.0));
    q.insert(n(3, 1.0));
    assert_eq!(snapshot(&q), vec![(3, 1.0), (5, 1.0)]);
}

#[test]
fn scenario_clear_fresh_queue() {
    let mut q = Queue::with_capacity(3);
    q.clear();
    assert_eq!(q.as_slice().len(), 0);
}

#[test]
fn length_never_exceeds_capacity() {
    let mut q = Queue::with_capacity(4);
    let scores = [0.9, 0.1, 0.4, 0.7, 0.2, 0.6, 0.3, 0.8, 0.5, 0.0];
    for (i, &s) in scores.iter().enumerate() {
        q.insert(n(i as u32, s));
        assert!(q.as_slice().len() <= 4);
    }
    assert_eq!(q.as_slice().len(), 4);
}

#[test]
fn snapshot_sorted_after_every_call() {
    let mut q = Queue::with_capacity(5);
    let scores = [0.9, 0.1, 0.4, 0.4, 0.2, 0.6, 0.3, 0.8, 0.4, 0.0];
    for (i, &s) in scores.iter().enumerate() {
        q.insert(n((100 - i) as u32, s));
        assert!(is_sorted(&q));
    }
    q.clear();
    assert!(is_sorted(&q));
}

#[test]
fn saturating_admission_leaves_full_queue_unchanged() {
    let mut q = Queue::with_capacity(3);
    q.insert(n(1, 0.1));
    q.insert(n(2, 0.2));
    q.insert(n(3, 0.3));
    let before = snapshot(&q);
    q.insert(n(4, 0.4));
    assert_eq!(snapshot(&q), before);
    // An entry tied on score with the worst but with a higher id is also
    // rejected: its position lies at the capacity.
    q.insert(n(9, 0.3));
    assert_eq!(snapshot(&q), before);
}

#[test]
fn eviction_removes_previous_worst() {
    let mut q = Queue::with_capacity(3);
    q.insert(n(1, 0.3));
    q.insert(n(2, 0.5));
    q.insert(n(3, 0.7));
    q.insert(n(4, 0.4));
    let snap = snapshot(&q);
    assert_eq!(snap, vec![(1, 0.3), (4, 0.4), (2, 0.5)]);
    assert!(!snap.contains(&(3, 0.7)));
}

#[test]
fn tie_break_independent_of_insertion_order() {
    let mut q1 = Queue::with_capacity(4);
    q1.insert(n(7, 0.5));
    q1.insert(n(2, 0.5));
    q1.insert(n(5, 0.5));
    let mut q2 = Queue::with_capacity(4);
    q2.insert(n(5, 0.5));
    q2.insert(n(7, 0.5));
    q2.insert(n(2, 0.5));
    assert_eq!(snapshot(&q1), snapshot(&q2));
    assert_eq!(snapshot(&q1), vec![(2, 0.5), (5, 0.5), (7, 0.5)]);
}

#[test]
fn clear_then_reuse_behaves_like_fresh() {
    let mut used = Queue::with_capacity(3);
    used.insert(n(1, 0.5));
    used.insert(n(2, 0.2));
    used.clear();
    assert_eq!(used.as_slice().len(), 0);
    let mut fresh = Queue::with_capacity(3);
    for q in [&mut used, &mut fresh] {
        q.insert(n(1, 0.5));
        q.insert(n(2, 0.2));
        q.insert(n(3, 0.8));
        q.insert(n(4, 0.1));
    }
    assert_eq!(snapshot(&used), snapshot(&fresh));
}

#[test]
fn duplicate_entries_are_admitted() {
    let mut q = Queue::with_capacity(3);
    q.insert(n(1, 0.5));
    q.insert(n(1, 0.5));
    assert_eq!(snapshot(&q), vec![(1, 0.5), (1, 0.5)]);
}

#[test]
fn capacity_one_keeps_single_best() {
    let mut q = Queue::with_capacity(1);
    q.insert(n(1, 0.9));
    assert_eq!(snapshot(&q), vec![(1, 0.9)]);
    q.insert(n(2, 0.3));
    assert_eq!(snapshot(&q), vec![(2, 0.3)]);
    q.insert(n(3, 0.6));
    assert_eq!(snapshot(&q), vec![(2, 0.3)]);
}

#[test]
fn extreme_keys_and_ids() {
    let mut q = Queue::with_capacity(2);
    q.insert(Neighbor { id: u32::MAX, dist: u32::MAX });
    q.insert(Neighbor { id: 0, dist: 0 });
    q.insert(Neighbor { id: u32::MAX, dist: 0 });
    let s = q.as_slice();
    assert_eq!(s.len(), 2);
    assert_eq!((s[0].id, s[0].dist), (0, 0));
    assert_eq!((s[1].id, s[1].dist), (u32::MAX, 0));
}
