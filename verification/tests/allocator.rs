use ecs::allocator::IDTracker;

#[test]
fn fresh_ids_count_up_from_zero() {
    let mut t = IDTracker::new();
    assert_eq!(t.next_id(), 0);
    assert_eq!(t.next_id(), 1);
    assert_eq!(t.next_id(), 2);
}

#[test]
fn free_top_then_alloc_returns_same_id() {
    let mut t = IDTracker::new();
    t.next_id();
    t.next_id();
    let top = t.next_id();
    assert_eq!(top, 2);
    t.free_id(top);
    assert_eq!(t.next_id(), top);
}

#[test]
fn free_nontop_then_alloc_returns_freed_id() {
    let mut t = IDTracker::new();
    let a = t.next_id();
    t.next_id();
    t.next_id();
    t.free_id(a);
    let again = t.next_id();
    assert_eq!(again, a);
}

#[test]
fn freed_ids_stay_pooled_until_reissued() {
    let mut t = IDTracker::new();
    let a = t.next_id();
    let b = t.next_id();
    t.next_id();
    t.free_id(a);
    t.free_id(b);
    assert_eq!(t.next_id(), b);
    assert_eq!(t.next_id(), a);
    assert_eq!(t.next_id(), 3);
}

#[test]
fn live_ids_never_collide() {
    let mut t = IDTracker::new();
    let mut live: Vec<u32> = Vec::new();
    for _ in 0..5 {
        live.push(t.next_id());
    }
    let freed = live.remove(1);
    t.free_id(freed);
    t.free_id(live.remove(2));
    live.push(t.next_id());
    live.push(t.next_id());
    live.push(t.next_id());
    for i in 0..live.len() {
        for j in (i + 1)..live.len() {
            assert_ne!(live[i], live[j]);
        }
    }
}
