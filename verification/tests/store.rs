use clipboard_relay::clip::Clip;
use clipboard_relay::store::Store;

fn clip(text: &str, timestamp: u64) -> Clip {
    Clip { text: String::from(text), timestamp }
}

#[test]
fn first_write_is_accepted() {
    let mut store = Store::new();
    assert!(store.current().is_none());
    let accepted = store.add(&clip("hello", 42));
    assert!(accepted);
    let current = store.current().unwrap();
    assert_eq!(current.text, "hello");
    assert_eq!(current.timestamp, 42);
}

#[test]
fn newer_different_text_wins() {
    let mut store = Store::new();
    assert!(store.add(&clip("a", 1)));
    let accepted = store.add(&clip("b", 2));
    assert!(accepted);
    let current = store.current().unwrap();
    assert_eq!(current.text, "b");
    assert_eq!(current.timestamp, 2);
}

#[test]
fn newer_identical_text_is_rejected() {
    let mut store = Store::new();
    assert!(store.add(&clip("same", 1)));
    let accepted = store.add(&clip("same", 10));
    assert!(!accepted);
    let current = store.current().unwrap();
    assert_eq!(current.text, "same");
    assert_eq!(current.timestamp, 1);
}

#[test]
fn equal_timestamp_is_rejected() {
    let mut store = Store::new();
    assert!(store.add(&clip("a", 5)));
    let accepted = store.add(&clip("b", 5));
    assert!(!accepted);
    let current = store.current().unwrap();
    assert_eq!(current.text, "a");
}

#[test]
fn older_timestamp_is_rejected_regardless_of_text() {
    let mut store = Store::new();
    assert!(store.add(&clip("a", 5)));
    assert!(!store.add(&clip("b", 3)));
    assert!(!store.add(&clip("a", 3)));
    let current = store.current().unwrap();
    assert_eq!(current.text, "a");
    assert_eq!(current.timestamp, 5);
}

#[test]
fn current_is_a_snapshot() {
    let mut store = Store::new();
    assert!(store.add(&clip("x", 7)));
    let first = store.current().unwrap();
    assert!(store.add(&clip("y", 8)));
    assert_eq!(first.text, "x");
    assert_eq!(store.current().unwrap().text, "y");
}

#[test]
fn clip_new_keeps_text() {
    let c = Clip::new(String::from("fresh"));
    assert_eq!(c.text, "fresh");
    let d = c.duplicate();
    assert_eq!(d.text, c.text);
    assert_eq!(d.timestamp, c.timestamp);
}
