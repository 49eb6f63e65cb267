use tallyfy::filter::{compute, contains_substr, FilterState};
use tallyfy::models::{all_colors, Color, Counter};
use tallyfy::store::CounterStore;

fn mk(id: u128, title: &str, count: usize, color: Color) -> Counter {
    Counter { id, title: String::from(title), count, color }
}

fn shown_ids(store: &CounterStore, filter: &FilterState) -> Vec<u128> {
    compute(store.entries(), filter).iter().map(|c| c.id).collect()
}

#[test]
fn inactive_filter_shows_nothing() {
    let mut store = CounterStore::new();
    store.add(mk(1, "a", 0, Color::Red));
    store.add(mk(2, "b", 0, Color::System));
    let filter = FilterState::new();
    assert!(shown_ids(&store, &filter).is_empty());
}

#[test]
fn toggle_color_selects_and_deselects() {
    let mut filter = FilterState::new();
    assert!(!filter.is_color_selected(Color::Red));
    filter.toggle_color(Color::Red);
    assert!(filter.is_color_selected(Color::Red));
    assert!(!filter.is_color_selected(Color::Blue));
    filter.toggle_color(Color::Red);
    assert!(!filter.is_color_selected(Color::Red));
}

#[test]
fn set_text_replaces_criterion() {
    let mut filter = FilterState::new();
    filter.set_text(String::from("abc"));
    assert_eq!(filter.text().as_str(), "abc");
    filter.set_text(String::from(""));
    assert_eq!(filter.text().as_str(), "");
}

#[test]
fn color_selection_shows_exactly_that_color() {
    let mut store = CounterStore::new();
    store.add(mk(1, "a", 0, Color::Red));
    store.add(mk(2, "b", 0, Color::Blue));
    store.add(mk(3, "c", 0, Color::Red));
    store.add(mk(4, "d", 0, Color::System));
    let mut filter = FilterState::new();
    filter.toggle_color(Color::Red);
    assert_eq!(shown_ids(&store, &filter), vec![1, 3]);
}

#[test]
fn color_and_text_criteria_are_a_union() {
    let mut store = CounterStore::new();
    store.add(mk(1, "plain", 0, Color::Red));
    store.add(mk(2, "foobar", 0, Color::Blue));
    store.add(mk(3, "bar", 0, Color::Green));
    store.add(mk(4, "foo red too", 0, Color::Red));
    let mut filter = FilterState::new();
    filter.toggle_color(Color::Red);
    filter.set_text(String::from("foo"));
    assert_eq!(shown_ids(&store, &filter), vec![1, 2, 4]);
}

#[test]
fn empty_text_never_matches_titles() {
    let mut store = CounterStore::new();
    store.add(mk(1, "anything", 0, Color::Blue));
    let mut filter = FilterState::new();
    filter.toggle_color(Color::Red);
    filter.set_text(String::from(""));
    assert!(shown_ids(&store, &filter).is_empty());
}

#[test]
fn text_match_is_case_sensitive() {
    let mut store = CounterStore::new();
    store.add(mk(1, "Groceries", 0, Color::System));
    let mut filter = FilterState::new();
    filter.set_text(String::from("groceries"));
    assert!(shown_ids(&store, &filter).is_empty());
    filter.set_text(String::from("Groc"));
    assert_eq!(shown_ids(&store, &filter), vec![1]);
}

#[test]
fn substring_search_exact_results() {
    assert!(contains_substr("hello", "ell"));
    assert!(contains_substr("hello", "hello"));
    assert!(contains_substr("hello", ""));
    assert!(contains_substr("hello", "o"));
    assert!(!contains_substr("hello", "xyz"));
    assert!(!contains_substr("", "a"));
    assert!(!contains_substr("he", "hello"));
}

#[test]
fn all_colors_lists_the_closed_set() {
    let colors = all_colors();
    assert_eq!(
        colors,
        vec![
            Color::System,
            Color::Red,
            Color::Orange,
            Color::Yellow,
            Color::Green,
            Color::Blue,
            Color::Purple,
        ]
    );
}

#[test]
fn end_to_end_scenario() {
    let mut store = CounterStore::new();
    let a = Counter::new();
    let a_id = a.id;
    assert_eq!(a.title, "Untitled");
    assert_eq!(a.count, 0);
    assert_eq!(a.color, Color::System);
    assert!(store.add(a));

    store.increment(a_id);
    store.increment(a_id);
    assert_eq!(store.get(a_id).unwrap().count, 2);

    store.set_color(a_id, Color::Red);
    let mut filter = FilterState::new();
    filter.toggle_color(Color::Red);
    assert!(shown_ids(&store, &filter).contains(&a_id));

    store.delete(a_id);
    assert!(!shown_ids(&store, &filter).contains(&a_id));
    assert!(!store.contains_id(a_id));
}
