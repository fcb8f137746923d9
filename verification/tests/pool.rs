use std::cell::Cell;
use std::rc::Rc;
use vhrn::connect::pool::{IdlePool, IDLE_POOL_CAPACITY, IDLE_POOL_LIFETIME};
use vhrn::connect::public::OriginKey;
use vhrn::domain::target::{classify, Target};

struct Value {
    live: bool,
    dropped: Rc<Cell<usize>>,
}

impl Drop for Value {
    fn drop(&mut self) {
        self.dropped.set(self.dropped.get() + 1);
    }
}

fn value(dropped: &Rc<Cell<usize>>) -> Value {
    Value { live: true, dropped: dropped.clone() }
}

fn reusable(value: &Value) -> bool {
    value.live
}

fn key(name: &str) -> OriginKey {
    match classify(b"GET", format!("http://{name}.example/").as_bytes()) {
        Target::PublicHttp(target) => OriginKey::from_target(&target),
        _ => panic!("a public target"),
    }
}

#[test]
fn capacity_evicts_oldest_idle_key_deterministically() {
    let dropped = Rc::new(Cell::new(0));
    let mut pool = IdlePool::with_limits(2, 1_000);
    pool.put_if_reusable(key("first"), value(&dropped), 0, reusable);
    pool.put_if_reusable(key("second"), value(&dropped), 1, reusable);
    pool.put_if_reusable(key("third"), value(&dropped), 2, reusable);
    assert!(pool.take_if_reusable(&key("first"), 3, reusable).is_none());
    assert!(pool.take_if_reusable(&key("second"), 3, reusable).is_some());
    assert!(pool.take_if_reusable(&key("third"), 3, reusable).is_some());
    assert_eq!(dropped.get(), 3);
}

#[test]
fn replacement_and_dead_entries_release_their_values() {
    let dropped = Rc::new(Cell::new(0));
    let mut pool = IdlePool::with_limits(2, 1_000);
    pool.put_if_reusable(key("key"), value(&dropped), 0, reusable);
    pool.put_if_reusable(key("key"), value(&dropped), 0, reusable);
    let dead = Value { live: false, dropped: dropped.clone() };
    pool.put_if_reusable(key("dead"), dead, 0, reusable);
    assert_eq!(pool.len(), 1);
    assert_eq!(dropped.get(), 2);
}

#[test]
fn reaper_expires_idle_values_without_another_pool_operation() {
    let dropped = Rc::new(Cell::new(0));
    let mut pool = IdlePool::with_limits(2, 10);
    pool.put_if_reusable(key("key"), value(&dropped), 5, reusable);
    assert_eq!(pool.next_deadline(), Some(15));
    pool.prune(14);
    assert_eq!(pool.len(), 1);
    pool.prune(15);
    assert_eq!(dropped.get(), 1);
    assert_eq!(pool.len(), 0);
    assert_eq!(pool.next_deadline(), None);
}

#[test]
fn a_dead_value_leaves_the_pool_when_asked_for() {
    let dropped = Rc::new(Cell::new(0));
    let mut pool = IdlePool::new();
    assert_eq!((IDLE_POOL_CAPACITY, IDLE_POOL_LIFETIME), (64, 60_000));
    pool.put_if_reusable(key("key"), value(&dropped), 0, reusable);
    assert!(pool.take_if_reusable(&key("key"), 1, |_: &Value| false).is_none());
    assert_eq!(pool.len(), 0);
    pool.put_if_reusable(key("one"), value(&dropped), 0, reusable);
    pool.put_if_reusable(key("two"), value(&dropped), 0, reusable);
    pool.clear();
    assert_eq!(pool.len(), 0);
    assert_eq!(dropped.get(), 3);
}
