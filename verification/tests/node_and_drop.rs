//! Tests for the slot type, and drop-safety tests with a value type that
//! counts its own constructions and destructions.

use std::cell::Cell;
use std::rc::Rc;

use agb_hashmap::node::Node;
use agb_hashmap::table::HashTable;

#[test]
fn node_new_is_empty() {
    let n: Node<u32, i32> = Node::new();
    assert!(!n.has_value());
    assert_eq!(n.distance(), -1);
    assert_eq!(n.value_ref(), None);
    assert_eq!(n.key_ref(), None);
    assert_eq!(n.key_value_ref(), None);
}

#[test]
fn node_default_is_empty() {
    let n: Node<u32, i32> = Default::default();
    assert!(!n.has_value());
    assert_eq!(n.distance(), -1);
}

#[test]
fn node_new_with_holds_entry() {
    let n: Node<u32, i32> = Node::new_with(9, 90, 1234);
    assert!(n.has_value());
    assert_eq!(n.distance(), 0);
    assert_eq!(n.hash(), 1234);
    assert_eq!(n.key_ref(), Some(&9));
    assert_eq!(n.value_ref(), Some(&90));
    assert_eq!(n.key_value_ref(), Some((&9, &90)));
}

#[test]
fn node_take_extracts_and_empties() {
    let mut n: Node<u32, String> = Node::new_with(1, String::from("x"), 77);
    let taken = n.take_key_value();
    assert_eq!(taken, Some((1, String::from("x"), 77)));
    assert!(!n.has_value());
    assert_eq!(n.distance(), -1);
    assert_eq!(n.take_key_value(), None);
}

#[test]
fn node_replace_value_returns_old() {
    let mut n: Node<u32, i32> = Node::new_with(1, 10, 0);
    assert_eq!(n.replace_value(20), 10);
    assert_eq!(n.value_ref(), Some(&20));
    assert_eq!(n.key_ref(), Some(&1));
}

#[test]
fn node_replace_returns_old_pair() {
    let mut n: Node<u32, i32> = Node::new_with(1, 10, 0);
    assert_eq!(n.replace(2, 20), (1, 10));
    assert_eq!(n.key_value_ref(), Some((&2, &20)));
    assert_eq!(n.hash(), 0);
    assert_eq!(n.distance(), 0);
}

#[test]
fn node_value_mut_edits_in_place() {
    let mut n: Node<u32, i32> = Node::new_with(1, 10, 0);
    if let Some(v) = n.value_mut() {
        *v = 33;
    }
    assert_eq!(n.value_ref(), Some(&33));
    let mut e: Node<u32, i32> = Node::new();
    assert!(e.value_mut().is_none());
}

#[test]
fn node_distance_adjustment() {
    let mut n: Node<u32, i32> = Node::new_with(1, 10, 0);
    n.increment_distance();
    n.increment_distance();
    assert_eq!(n.distance(), 2);
    n.decrement_distance();
    assert_eq!(n.distance(), 1);
    n.decrement_distance();
    assert_eq!(n.distance(), 0);
}

/// A value that keeps a shared tally of how many instances are alive:
/// construction adds one, destruction subtracts one.
struct Counted {
    live: Rc<Cell<i64>>,
}

impl Counted {
    fn new(tally: &Rc<Cell<i64>>) -> Counted {
        tally.set(tally.get() + 1);
        Counted { live: Rc::clone(tally) }
    }
}

impl Drop for Counted {
    fn drop(&mut self) {
        self.live.set(self.live.get() - 1);
    }
}

#[test]
fn drop_safety_full_table() {
    let tally = Rc::new(Cell::new(0i64));
    {
        let mut t: HashTable<Counted> = HashTable::with_capacity(4);
        for k in 0..100u32 {
            t.insert(k, Counted::new(&tally));
        }
        assert_eq!(tally.get(), 100);
    }
    // dropping the table dropped each of the 100 entries exactly once
    assert_eq!(tally.get(), 0);
}

#[test]
fn drop_safety_with_overwrite_remove_and_reinsert() {
    let tally = Rc::new(Cell::new(0i64));
    {
        let mut t: HashTable<Counted> = HashTable::new();
        for k in 0..20u32 {
            t.insert(k, Counted::new(&tally));
        }
        // overwriting returns the old value, which is dropped here
        for k in 0..10u32 {
            let old = t.insert(k, Counted::new(&tally));
            assert!(old.is_some());
        }
        // removing returns the value, dropped at the end of each pass
        for k in 5..15u32 {
            let removed = t.remove(k);
            assert!(removed.is_some());
        }
        // reinsert some of the removed keys
        for k in 5..10u32 {
            assert!(t.insert(k, Counted::new(&tally)).is_none());
        }
        assert_eq!(tally.get(), 15);
        t.clear();
        assert_eq!(tally.get(), 0);
        for k in 0..8u32 {
            t.insert(k, Counted::new(&tally));
        }
        assert_eq!(tally.get(), 8);
    }
    assert_eq!(tally.get(), 0);
}

#[test]
fn drop_safety_nodes() {
    let tally = Rc::new(Cell::new(0i64));
    {
        let mut n: Node<u32, Counted> = Node::new_with(1, Counted::new(&tally), 0);
        assert_eq!(tally.get(), 1);
        let old = n.replace_value(Counted::new(&tally));
        drop(old);
        assert_eq!(tally.get(), 1);
        let _e: Node<u32, Counted> = Node::new();
    }
    assert_eq!(tally.get(), 0);
}

#[test]
fn node_key_value_mut_edits_in_place() {
    let mut n: Node<u32, i32> = Node::new_with(4, 40, 9);
    if let Some((k, v)) = n.key_value_mut() {
        assert_eq!(*k, 4);
        *v += 2;
    }
    assert_eq!(n.key_value_ref(), Some((&4, &42)));
    let mut e: Node<u32, i32> = Node::new();
    assert!(e.key_value_mut().is_none());
}
