//! The demo of the daemon, step by step.
use live_mutex_mills::composite::CompositeError;
use live_mutex_mills::demo::{Demo, DemoAction, DemoEvent, DemoNext, DEMO_ATTEMPT};

fn demo(keys: &[&str]) -> Demo {
    let keys: Vec<String> = keys.iter().map(|k| k.to_string()).collect();
    Demo::new(&keys).expect("valid keys")
}

fn asks(action: &DemoAction) -> Option<&str> {
    action.ask.as_deref()
}

#[test]
fn demo_takes_its_keys_in_order_holds_and_gives_back() {
    let mut d = demo(&["b", "a"]);
    let first = d.step(DemoEvent::Woke);
    assert_eq!(asks(&first), Some("a"));
    assert!(matches!(first.go_on, DemoNext::Wait(8_000_000_000)));
    let second = d.step(DemoEvent::Acquired("a".to_string(), 5, 1_000_000_000));
    assert_eq!(asks(&second), Some("b"));
    assert!(matches!(second.go_on, DemoNext::Wait(7_000_000_000)));
    let stray = d.step(DemoEvent::Acquired("z".to_string(), 9, 2_000_000_000));
    assert_eq!(asks(&stray), None);
    assert!(matches!(stray.go_on, DemoNext::Wait(6_000_000_000)));
    let held = d.step(DemoEvent::Acquired("b".to_string(), 7, 9_000_000_000));
    assert_eq!(asks(&held), None);
    assert!(matches!(held.go_on, DemoNext::Hold));
    assert_eq!(d.composite().fence("a"), Some(5));
    assert_eq!(d.composite().fence("b"), Some(7));
    let back = d.step(DemoEvent::Woke);
    assert_eq!(asks(&back), None);
    match back.go_on {
        DemoNext::GiveBack(keys) => assert_eq!(keys, vec!["a".to_string(), "b".to_string()]),
        other => panic!("expected the keys back, got {other:?}"),
    }
    let again = d.step(DemoEvent::Woke);
    assert_eq!(asks(&again), Some("a"));
    assert!(!d.composite().is_held());
}

#[test]
fn stalled_attempts_are_given_up() {
    let mut d = demo(&["a", "b"]);
    let _ = d.step(DemoEvent::Woke);
    let late = d.step(DemoEvent::Acquired("a".to_string(), 1, DEMO_ATTEMPT));
    assert_eq!(asks(&late), Some("b"));
    assert!(matches!(late.go_on, DemoNext::GiveBack(_)));

    let _ = d.step(DemoEvent::Woke);
    let timed_out = d.step(DemoEvent::TimedOut);
    assert_eq!(asks(&timed_out), None);
    match timed_out.go_on {
        DemoNext::GiveBack(keys) => assert_eq!(keys.len(), 2),
        other => panic!("expected the keys back, got {other:?}"),
    }
}

#[test]
fn what_the_demo_does_not_wait_for_changes_nothing() {
    let mut d = demo(&["a"]);
    let early = d.step(DemoEvent::TimedOut);
    assert_eq!(asks(&early), None);
    assert!(matches!(early.go_on, DemoNext::Nothing));
    let begun = d.step(DemoEvent::Woke);
    assert_eq!(asks(&begun), Some("a"));
    assert!(matches!(d.step(DemoEvent::Woke).go_on, DemoNext::Nothing));
}

#[test]
fn demo_keys_are_checked() {
    let none: Vec<String> = Vec::new();
    assert!(matches!(Demo::new(&none), Err(CompositeError::Empty)));
    let empty = vec!["".to_string()];
    assert!(matches!(Demo::new(&empty), Err(CompositeError::EmptyKey)));
    let many: Vec<String> = ["a", "b", "c", "d"].iter().map(|k| k.to_string()).collect();
    assert!(matches!(Demo::new(&many), Err(CompositeError::TooMany(4))));
}
