use json_chunker::splitter::{Splitter, Step};

#[test]
fn splitter_starts_behind_the_opening_bracket() {
    let s = Splitter::new(512);
    assert_eq!(s.cursor(), 1);
    assert_eq!(s.chunk_index(), 0);
    assert_eq!(s.chunk_start(), 0);
    assert_eq!(s.body_start(), None);
    assert_eq!(s.chunksize(), 512);
    assert!(s.chunk_is_empty());
}

#[test]
fn append_moves_cursor_behind_object() {
    let mut s = Splitter::new(100);
    let step = s.advance(b"{\"a\":1},{\"b\":2}]");
    assert_eq!(step, Step::Append { skip: 0, len: 7 });
    assert_eq!(s.cursor(), 8);
    assert_eq!(s.chunk_index(), 0);
    assert_eq!(s.chunk_start(), 0);
    assert_eq!(s.body_start(), Some(1));
    assert!(!s.chunk_is_empty());
}

#[test]
fn rollover_opens_the_next_chunk_at_the_cursor() {
    let mut s = Splitter::new(1);
    let step = s.advance(b"{\"a\":1},{\"b\":2}]");
    assert_eq!(step, Step::Rollover { skip: 0, len: 7, next_index: 1 });
    assert_eq!(s.cursor(), 8);
    assert_eq!(s.chunk_index(), 1);
    assert_eq!(s.chunk_start(), 8);
    assert_eq!(s.body_start(), None);
    assert!(s.chunk_is_empty());
}

#[test]
fn chunk_opened_by_rollover_begins_behind_the_comma() {
    let mut s = Splitter::new(1);
    s.advance(b"{\"a\":1},{\"b\":2}]");
    let step = s.advance(b",{\"b\":2}]");
    assert_eq!(step, Step::Rollover { skip: 1, len: 7, next_index: 2 });
    assert_eq!(s.cursor(), 16);
    assert_eq!(s.chunk_start(), 16);
}

#[test]
fn whitespace_before_the_comma_is_passed_over_with_it() {
    let mut s = Splitter::new(1);
    assert_eq!(s.advance(b"{\"a\":1} \n,\t{\"b\":2}]"), Step::Rollover { skip: 0, len: 7, next_index: 1 });
    assert_eq!(s.cursor(), 8);
    let step = s.advance(b" \n,\t{\"b\":2}]");
    assert_eq!(step, Step::Rollover { skip: 3, len: 8, next_index: 2 });
    assert_eq!(s.cursor(), 19);
}

#[test]
fn only_one_comma_is_passed_over() {
    let mut s = Splitter::new(100);
    assert_eq!(s.advance(b"{}"), Step::Append { skip: 0, len: 2 });
    let mut rolled = Splitter::new(0);
    assert_eq!(rolled.advance(b"{}"), Step::Rollover { skip: 0, len: 2, next_index: 1 });
    assert_eq!(rolled.advance(b" ,,{}"), Step::Rollover { skip: 2, len: 3, next_index: 2 });
}

#[test]
fn object_right_behind_a_rollover_is_kept_whole() {
    let mut s = Splitter::new(0);
    assert_eq!(s.advance(b"{}{}"), Step::Rollover { skip: 0, len: 2, next_index: 1 });
    assert_eq!(s.advance(b"{}"), Step::Rollover { skip: 0, len: 2, next_index: 2 });
}

#[test]
fn nothing_is_passed_over_inside_a_chunk_or_in_chunk_0() {
    let mut s = Splitter::new(100);
    assert_eq!(s.advance(b" {\"a\":1}"), Step::Append { skip: 0, len: 8 });
    assert_eq!(s.body_start(), Some(1));
    assert_eq!(s.advance(b" , {\"b\":2}"), Step::Append { skip: 0, len: 10 });
    assert_eq!(s.body_start(), Some(1));
    assert_eq!(s.cursor(), 19);
}

#[test]
fn threshold_is_strict() {
    let mut at = Splitter::new(8);
    assert_eq!(at.advance(b"{\"a\":1},"), Step::Append { skip: 0, len: 7 });
    let mut below = Splitter::new(7);
    assert_eq!(below.advance(b"{\"a\":1},"), Step::Rollover { skip: 0, len: 7, next_index: 1 });
}

#[test]
fn threshold_counts_from_chunk_start() {
    let mut s = Splitter::new(9);
    assert_eq!(s.advance(b"{\"a\":1},{\"b\":2},{\"c\":3}]"), Step::Append { skip: 0, len: 7 });
    assert_eq!(
        s.advance(b",{\"b\":2},{\"c\":3}]"),
        Step::Rollover { skip: 0, len: 8, next_index: 1 }
    );
    assert_eq!(s.chunk_start(), 16);
    assert_eq!(s.cursor(), 16);
    assert_eq!(s.advance(b",{\"c\":3}]"), Step::Append { skip: 1, len: 7 });
    assert_eq!(s.cursor(), 24);
    assert_eq!(s.body_start(), Some(17));
    assert_eq!(s.advance(b"]"), Step::Finish { remove_current: false });
    assert_eq!(s.cursor(), 24);
}

#[test]
fn finish_on_fresh_chunk_asks_for_removal() {
    let mut s = Splitter::new(10);
    assert_eq!(s.advance(b"]"), Step::Finish { remove_current: true });
    assert_eq!(s.cursor(), 1);
    assert_eq!(s.chunk_index(), 0);
}

#[test]
fn finish_after_rollover_asks_for_removal() {
    let mut s = Splitter::new(0);
    assert_eq!(s.advance(b"{}]"), Step::Rollover { skip: 0, len: 2, next_index: 1 });
    assert_eq!(s.advance(b"]"), Step::Finish { remove_current: true });
    assert_eq!(s.chunk_index(), 1);
    assert_eq!(s.cursor(), 3);
}

#[test]
fn can_advance_guards_the_offsets() {
    let s = Splitter::new(10);
    assert!(s.can_advance(0));
    assert!(s.can_advance(1048576));
    assert!(!s.can_advance(usize::MAX));
}

#[test]
fn try_advance_takes_the_same_step() {
    let mut tried = Splitter::new(9);
    let mut plain = Splitter::new(9);
    let windows: [&[u8]; 4] =
        [b"{\"a\":1},{\"b\":2},{\"c\":3}]", b",{\"b\":2},{\"c\":3}]", b",{\"c\":3}]", b"]"];
    for window in windows {
        assert_eq!(tried.try_advance(window), Some(plain.advance(window)));
        assert_eq!(tried.cursor(), plain.cursor());
        assert_eq!(tried.chunk_index(), plain.chunk_index());
        assert_eq!(tried.chunk_start(), plain.chunk_start());
        assert_eq!(tried.body_start(), plain.body_start());
    }
    assert_eq!(tried.cursor(), 24);
}
