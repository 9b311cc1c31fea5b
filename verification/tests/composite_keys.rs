use live_mutex_mills::composite::{canonical_keys, Composite, CompositeError, Progress};


fn s(xs: &[&str]) -> Vec<String> {
    xs.iter().map(|x| x.to_string()).collect()
}

#[test]
fn canonicalize_dedups_sorts_and_caps() {
    assert_eq!(canonical_keys(&s(&["C", "A", "B"])).unwrap(), s(&["A", "B", "C"]));
    assert_eq!(canonical_keys(&s(&["A", "A", "B"])).unwrap(), s(&["A", "B"]));
    assert_eq!(canonical_keys(&s(&["only"])).unwrap(), s(&["only"]));
    assert_eq!(canonical_keys(&s(&[])), Err(CompositeError::Empty));
    assert_eq!(canonical_keys(&s(&["A", ""])), Err(CompositeError::EmptyKey));
    // Four distinct keys exceed the cap; a duplicate that nets to 3 is fine.
    assert_eq!(canonical_keys(&s(&["A", "B", "C", "D"])), Err(CompositeError::TooMany(4)));
    assert_eq!(canonical_keys(&s(&["A", "B", "C", "A"])).unwrap(), s(&["A", "B", "C"]));
}

#[test]
fn composite_advances_in_sorted_order() {
    let mut c = Composite::new(&s(&["B", "A", "C"])).unwrap();
    assert_eq!(c.pending().map(String::as_str), Some("A"));
    assert_eq!(c.on_acquired("A", 1), Progress::Next("B".to_string()));
    assert_eq!(c.on_acquired("B", 2), Progress::Next("C".to_string()));
    assert_eq!(c.on_acquired("C", 3), Progress::Held);
    assert!(c.is_held());
    assert_eq!(c.pending(), None);
    assert_eq!(c.fence("A"), Some(1));
    assert_eq!(c.fence("C"), Some(3));
    // Out-of-order / duplicate acquisitions are ignored.
    assert_eq!(c.on_acquired("A", 9), Progress::Ignored);
}
