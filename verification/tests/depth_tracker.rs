use json_chunker::depth::{Descriptor, CLOSE_BRACE, OPEN_BRACE};

#[test]
fn new_descriptor_is_outside_any_object() {
    let d = Descriptor::new();
    assert_eq!(d.depth(), 0);
    assert_eq!(d.prev_depth(), 0);
    assert!(!d.object_end());
}

#[test]
fn increment_remembers_previous_depth() {
    let mut d = Descriptor::new();
    d.increment();
    assert_eq!((d.prev_depth(), d.depth()), (0, 1));
    d.increment();
    assert_eq!((d.prev_depth(), d.depth()), (1, 2));
    assert!(!d.object_end());
}

#[test]
fn decrement_to_zero_is_object_end() {
    let mut d = Descriptor::new();
    d.increment();
    d.increment();
    d.decrement();
    assert_eq!((d.prev_depth(), d.depth()), (2, 1));
    assert!(!d.object_end());
    d.decrement();
    assert_eq!((d.prev_depth(), d.depth()), (1, 0));
    assert!(d.object_end());
}

#[test]
fn equalize_clears_object_end() {
    let mut d = Descriptor::new();
    d.increment();
    d.decrement();
    assert!(d.object_end());
    d.equalize();
    assert_eq!((d.prev_depth(), d.depth()), (0, 0));
    assert!(!d.object_end());
}

#[test]
fn equalize_keeps_depth() {
    let mut d = Descriptor::new();
    d.increment();
    d.equalize();
    assert_eq!((d.prev_depth(), d.depth()), (1, 1));
}

#[test]
fn zero_resets_both_levels() {
    let mut d = Descriptor::new();
    d.increment();
    d.increment();
    d.zero();
    assert_eq!((d.prev_depth(), d.depth()), (0, 0));
    assert!(!d.object_end());
}

#[test]
fn feed_follows_the_three_rules() {
    let mut d = Descriptor::new();
    assert!(!d.feed(b','));
    assert_eq!((d.prev_depth(), d.depth()), (0, 0));
    assert!(!d.feed(OPEN_BRACE));
    assert_eq!((d.prev_depth(), d.depth()), (0, 1));
    assert!(!d.feed(b'"'));
    assert_eq!((d.prev_depth(), d.depth()), (1, 1));
    assert!(!d.feed(b'{'));
    assert!(!d.feed(b'}'));
    assert_eq!((d.prev_depth(), d.depth()), (2, 1));
    assert!(d.feed(CLOSE_BRACE));
    assert_eq!((d.prev_depth(), d.depth()), (1, 0));
}

#[test]
fn brace_constants_are_the_ascii_braces() {
    assert_eq!(OPEN_BRACE, b'{');
    assert_eq!(CLOSE_BRACE, b'}');
}

#[test]
fn closing_brace_outside_an_object_closes_nothing() {
    let mut d = Descriptor::new();
    d.decrement();
    assert_eq!((d.prev_depth(), d.depth()), (0, 0));
    assert!(!d.object_end());
    assert!(!d.feed(CLOSE_BRACE));
    assert_eq!((d.prev_depth(), d.depth()), (0, 0));
    d.increment();
    d.decrement();
    assert!(d.object_end());
    d.decrement();
    assert_eq!((d.prev_depth(), d.depth()), (0, 0));
    assert!(!d.object_end());
}
