use tallyfy::models::{Color, Counter};
use tallyfy::store::CounterStore;

fn mk(id: u128, title: &str, count: usize, color: Color) -> Counter {
    Counter { id, title: String::from(title), count, color }
}

fn ids_of(store: &CounterStore) -> Vec<u128> {
    store.entries().iter().map(|c| c.id).collect()
}

#[test]
fn fresh_counters_have_defaults() {
    let c = Counter::new();
    assert_eq!(c.title, "Untitled");
    assert_eq!(c.count, 0);
    assert_eq!(c.color, Color::System);
    let d = Counter::default();
    assert_eq!(d.title, "Untitled");
    assert_eq!(d.count, 0);
    assert_eq!(d.color, Color::System);
}

#[test]
fn fresh_ids_pairwise_distinct() {
    let mut store = CounterStore::new();
    for _ in 0..32 {
        assert!(store.add(Counter::new()));
    }
    let ids = ids_of(&store);
    for i in 0..ids.len() {
        for j in 0..i {
            assert_ne!(ids[i], ids[j]);
        }
    }
}

#[test]
fn add_appends_in_order() {
    let mut store = CounterStore::new();
    assert!(store.add(mk(1, "a", 0, Color::Red)));
    assert!(store.add(mk(2, "b", 5, Color::Blue)));
    assert_eq!(store.len(), 2);
    assert_eq!(ids_of(&store), vec![1, 2]);
    assert!(store.contains_id(1));
    assert!(store.contains_id(2));
    assert!(!store.contains_id(3));
}

#[test]
fn add_rejects_duplicate_id() {
    let mut store = CounterStore::new();
    assert!(store.add(mk(7, "first", 1, Color::Green)));
    assert!(!store.add(mk(7, "second", 9, Color::Red)));
    assert_eq!(store.len(), 1);
    let held = store.get(7).unwrap();
    assert_eq!(held.title, "first");
    assert_eq!(held.count, 1);
}

#[test]
fn increment_then_decrement_roundtrip() {
    let mut store = CounterStore::new();
    store.add(mk(1, "a", 41, Color::System));
    store.increment(1);
    assert_eq!(store.get(1).unwrap().count, 42);
    store.decrement(1);
    assert_eq!(store.get(1).unwrap().count, 41);
}

#[test]
fn decrement_at_zero_is_noop() {
    let mut store = CounterStore::new();
    store.add(mk(1, "a", 0, Color::System));
    store.decrement(1);
    assert_eq!(store.get(1).unwrap().count, 0);
}

#[test]
fn increment_at_max_is_noop() {
    let mut store = CounterStore::new();
    store.add(mk(1, "a", 0, Color::System));
    store.set_value(1, usize::MAX);
    store.increment(1);
    assert_eq!(store.get(1).unwrap().count, usize::MAX);
}

#[test]
fn set_title_replaces_verbatim() {
    let mut store = CounterStore::new();
    store.add(mk(1, "old", 0, Color::System));
    store.set_title(1, String::from("  spaced out  "));
    assert_eq!(store.get(1).unwrap().title, "  spaced out  ");
}

#[test]
fn set_value_replaces_directly() {
    let mut store = CounterStore::new();
    store.add(mk(1, "a", 3, Color::System));
    store.set_value(1, 100);
    assert_eq!(store.get(1).unwrap().count, 100);
}

#[test]
fn set_color_replaces_tag() {
    let mut store = CounterStore::new();
    store.add(mk(1, "a", 0, Color::System));
    store.set_color(1, Color::Purple);
    assert_eq!(store.get(1).unwrap().color, Color::Purple);
}

#[test]
fn unknown_id_mutations_are_noops() {
    let mut store = CounterStore::new();
    store.add(mk(1, "a", 2, Color::Red));
    store.increment(99);
    store.decrement(99);
    store.set_title(99, String::from("x"));
    store.set_value(99, 7);
    store.set_color(99, Color::Blue);
    store.delete(99);
    store.move_up(99);
    store.move_down(99);
    store.move_top(99);
    store.move_bottom(99);
    assert_eq!(store.len(), 1);
    let held = store.get(1).unwrap();
    assert_eq!(held.title, "a");
    assert_eq!(held.count, 2);
    assert_eq!(held.color, Color::Red);
}

#[test]
fn delete_removes_only_that_entry() {
    let mut store = CounterStore::new();
    store.add(mk(1, "a", 0, Color::Red));
    store.add(mk(2, "b", 0, Color::Blue));
    store.add(mk(3, "c", 0, Color::Green));
    store.delete(2);
    assert_eq!(ids_of(&store), vec![1, 3]);
    assert!(!store.contains_id(2));
}

#[test]
fn move_up_swaps_with_predecessor() {
    let mut store = CounterStore::new();
    store.add(mk(1, "a", 0, Color::System));
    store.add(mk(2, "b", 0, Color::System));
    store.add(mk(3, "c", 0, Color::System));
    store.move_up(3);
    assert_eq!(ids_of(&store), vec![1, 3, 2]);
}

#[test]
fn move_up_on_first_is_noop() {
    let mut store = CounterStore::new();
    store.add(mk(1, "a", 0, Color::System));
    store.add(mk(2, "b", 0, Color::System));
    store.move_up(1);
    assert_eq!(ids_of(&store), vec![1, 2]);
}

#[test]
fn move_down_swaps_with_successor() {
    let mut store = CounterStore::new();
    store.add(mk(1, "a", 0, Color::System));
    store.add(mk(2, "b", 0, Color::System));
    store.add(mk(3, "c", 0, Color::System));
    store.move_down(1);
    assert_eq!(ids_of(&store), vec![2, 1, 3]);
}

#[test]
fn move_down_on_last_is_noop() {
    let mut store = CounterStore::new();
    store.add(mk(1, "a", 0, Color::System));
    store.add(mk(2, "b", 0, Color::System));
    store.move_down(2);
    assert_eq!(ids_of(&store), vec![1, 2]);
}

#[test]
fn move_top_reinserts_first() {
    let mut store = CounterStore::new();
    store.add(mk(1, "a", 0, Color::System));
    store.add(mk(2, "b", 0, Color::System));
    store.add(mk(3, "c", 0, Color::System));
    store.move_top(3);
    assert_eq!(ids_of(&store), vec![3, 1, 2]);
}

#[test]
fn move_top_twice_is_idempotent() {
    let mut store = CounterStore::new();
    store.add(mk(1, "a", 0, Color::System));
    store.add(mk(2, "b", 0, Color::System));
    store.add(mk(3, "c", 0, Color::System));
    store.move_top(2);
    let once = ids_of(&store);
    store.move_top(2);
    assert_eq!(ids_of(&store), once);
    assert_eq!(once, vec![2, 1, 3]);
}

#[test]
fn move_bottom_reinserts_last() {
    let mut store = CounterStore::new();
    store.add(mk(1, "a", 0, Color::System));
    store.add(mk(2, "b", 0, Color::System));
    store.add(mk(3, "c", 0, Color::System));
    store.move_bottom(1);
    assert_eq!(ids_of(&store), vec![2, 3, 1]);
}

#[test]
fn reorder_keeps_id_multiset() {
    let mut store = CounterStore::new();
    store.add(mk(1, "a", 0, Color::Red));
    store.add(mk(2, "b", 0, Color::Blue));
    store.add(mk(3, "c", 0, Color::Green));
    let before = {
        let mut v = ids_of(&store);
        v.sort_unstable();
        v
    };
    let reversed: Vec<Counter> = store.entries().iter().rev().cloned().collect();
    store.reorder(reversed);
    assert_eq!(ids_of(&store), vec![3, 2, 1]);
    let after = {
        let mut v = ids_of(&store);
        v.sort_unstable();
        v
    };
    assert_eq!(before, after);
}
