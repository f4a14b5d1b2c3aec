use json_chunker::chunk::{append_span, close_chunk, is_empty_chunk, open_chunk};
use json_chunker::run::{read_window, run_over, split_bytes, DEFAULT_CHUNKSIZE, WINDOW_CAPACITY};

const THREE: &[u8] = b"[{\"a\":1},{\"b\":2},{\"c\":3}]";

#[test]
fn large_chunksize_gives_one_chunk() {
    let files = split_bytes(THREE, DEFAULT_CHUNKSIZE, WINDOW_CAPACITY);
    assert_eq!(files, vec![b"[{\"a\":1},{\"b\":2},{\"c\":3}\n]".to_vec()]);
}

#[test]
fn chunksize_one_gives_one_object_per_chunk() {
    let files = split_bytes(THREE, 1, WINDOW_CAPACITY);
    assert_eq!(
        files,
        vec![
            b"[{\"a\":1}\n]".to_vec(),
            b"[{\"b\":2}\n]".to_vec(),
            b"[{\"c\":3}\n]".to_vec(),
        ]
    );
}

#[test]
fn empty_array_leaves_no_chunk() {
    let files = split_bytes(b"[]", DEFAULT_CHUNKSIZE, WINDOW_CAPACITY);
    assert!(files.is_empty());
}

#[test]
fn empty_source_leaves_no_chunk() {
    assert!(split_bytes(b"", 1, WINDOW_CAPACITY).is_empty());
    assert!(split_bytes(b"[", 1, WINDOW_CAPACITY).is_empty());
}

#[test]
fn delimiter_is_kept_inside_a_chunk_and_dropped_between_chunks() {
    let files = split_bytes(THREE, 9, WINDOW_CAPACITY);
    assert_eq!(files, vec![b"[{\"a\":1},{\"b\":2}\n]".to_vec(), b"[{\"c\":3}\n]".to_vec()]);
}

#[test]
fn rollover_on_last_object_leaves_no_empty_chunk() {
    let files = split_bytes(b"[{\"a\":1},{\"b\":2}]", 15, WINDOW_CAPACITY);
    assert_eq!(files, vec![b"[{\"a\":1},{\"b\":2}\n]".to_vec()]);
}

#[test]
fn smaller_chunksize_never_gives_fewer_chunks() {
    let mut previous = usize::MAX;
    for chunksize in 0..30u64 {
        let count = split_bytes(THREE, chunksize, WINDOW_CAPACITY).len();
        assert!(count <= previous);
        assert!(count >= 1);
        previous = count;
    }
    assert_eq!(split_bytes(THREE, 0, WINDOW_CAPACITY).len(), 3);
    assert_eq!(split_bytes(THREE, 29, WINDOW_CAPACITY).len(), 1);
}

#[test]
fn chunk_bodies_rejoined_give_the_source_objects() {
    for chunksize in 0..30u64 {
        let files = split_bytes(THREE, chunksize, WINDOW_CAPACITY);
        let mut joined: Vec<u8> = vec![b'['];
        for (i, file) in files.iter().enumerate() {
            assert_eq!(file[0], b'[');
            assert!(file.ends_with(b"\n]"));
            assert!(file.len() > 3);
            if i > 0 {
                joined.push(b',');
            }
            joined.extend_from_slice(&file[1..file.len() - 2]);
        }
        joined.push(b']');
        assert_eq!(joined, THREE.to_vec());
    }
}

#[test]
fn object_larger_than_window_ends_the_run() {
    let source = b"[{\"a\":1},{\"bbbbbbbbbbbb\":2},{\"c\":3}]";
    let files = split_bytes(source, 1, 10);
    assert_eq!(files, vec![b"[{\"a\":1}\n]".to_vec()]);
}

#[test]
fn object_that_just_fits_the_window_is_found() {
    let files = split_bytes(THREE, 100, 8);
    assert_eq!(files, vec![b"[{\"a\":1},{\"b\":2},{\"c\":3}\n]".to_vec()]);
    let cut = split_bytes(THREE, 100, 7);
    assert_eq!(cut, vec![b"[{\"a\":1}\n]".to_vec()]);
}

#[test]
fn zero_capacity_reads_nothing() {
    assert!(split_bytes(THREE, 1, 0).is_empty());
}

#[test]
fn nested_objects_stay_whole() {
    let source = b"[{\"a\":{\"x\":[1,{\"y\":2}]}},{\"b\":{}}]";
    let files = split_bytes(source, 0, WINDOW_CAPACITY);
    assert_eq!(
        files,
        vec![b"[{\"a\":{\"x\":[1,{\"y\":2}]}}\n]".to_vec(), b"[{\"b\":{}}\n]".to_vec()]
    );
}

#[test]
fn unbalanced_closing_brace_ends_the_run() {
    let files = split_bytes(b"[{\"a\":1},},{\"b\":2}]", 100, WINDOW_CAPACITY);
    assert_eq!(files, vec![b"[{\"a\":1}\n]".to_vec()]);
}

#[test]
fn first_byte_is_passed_over_unread() {
    let files = split_bytes(b"{{\"a\":1}}", 100, WINDOW_CAPACITY);
    assert_eq!(files, vec![b"[{\"a\":1}\n]".to_vec()]);
}

#[test]
fn read_window_is_bounded_by_capacity_and_source() {
    assert_eq!(read_window(THREE, 1, 7), b"{\"a\":1}");
    assert_eq!(read_window(THREE, 17, 100), b"{\"c\":3}]");
    assert_eq!(read_window(THREE, 25, 100), b"");
    assert_eq!(read_window(THREE, 26, 100), b"");
    assert_eq!(read_window(THREE, 0, 0), b"");
}

#[test]
fn chunk_writer_frames_a_body() {
    let mut chunk = open_chunk();
    assert_eq!(chunk, b"[".to_vec());
    append_span(&mut chunk, b"{\"a\":1}");
    append_span(&mut chunk, b",{\"b\":2}");
    close_chunk(&mut chunk);
    assert_eq!(chunk, b"[{\"a\":1},{\"b\":2}\n]".to_vec());
}

#[test]
fn empty_chunk_is_recognised() {
    let mut chunk = open_chunk();
    close_chunk(&mut chunk);
    assert!(is_empty_chunk(&chunk));
    assert!(is_empty_chunk(b"[\n]"));
    assert!(!is_empty_chunk(b"[]"));
    assert!(!is_empty_chunk(b"[{}]"));
    assert!(!is_empty_chunk(b"[ ]"));
    assert!(!is_empty_chunk(b""));
    assert!(!is_empty_chunk(b"[\n]\n"));
}

#[test]
fn defaults_are_one_and_512_mebibytes() {
    assert_eq!(WINDOW_CAPACITY, 1024 * 1024);
    assert_eq!(DEFAULT_CHUNKSIZE, 512 * 1024 * 1024);
}

#[test]
fn objects_without_a_comma_between_them_stay_whole() {
    let source = b"[{}{},{}]";
    let larger = split_bytes(source, 4, WINDOW_CAPACITY);
    assert_eq!(larger, vec![b"[{}{}\n]".to_vec(), b"[{}\n]".to_vec()]);
    let smaller = split_bytes(source, 2, WINDOW_CAPACITY);
    assert_eq!(smaller, vec![b"[{}\n]".to_vec(), b"[{},{}\n]".to_vec()]);
}

#[test]
fn whitespace_between_items_is_copied() {
    let source = b"[{\"a\":1},\n {\"b\":2}]";
    let one = split_bytes(source, 100, WINDOW_CAPACITY);
    assert_eq!(one, vec![b"[{\"a\":1},\n {\"b\":2}\n]".to_vec()]);
    let two = split_bytes(source, 1, WINDOW_CAPACITY);
    assert_eq!(two, vec![b"[{\"a\":1}\n]".to_vec(), b"[\n {\"b\":2}\n]".to_vec()]);
}

#[test]
fn chunks_are_source_slices_one_byte_apart() {
    let source = b"[{\"a\":1},{\"b\":{\"c\":2}},{\"d\":3},{\"e\":4}]";
    for chunksize in 0..45u64 {
        let files = split_bytes(source, chunksize, WINDOW_CAPACITY);
        let mut at = 1usize;
        for file in &files {
            let body = &file[1..file.len() - 2];
            assert!(!body.is_empty());
            assert_eq!(body, &source[at..at + body.len()]);
            assert_eq!(body[body.len() - 1], b'}');
            at += body.len() + 1;
        }
        assert_eq!(at, source.len());
    }
}

#[test]
fn whitespace_before_the_comma_is_dropped_with_it() {
    let source = b"[{\"a\":1} ,{\"b\":2}]";
    let one = split_bytes(source, 100, WINDOW_CAPACITY);
    assert_eq!(one, vec![b"[{\"a\":1} ,{\"b\":2}\n]".to_vec()]);
    let two = split_bytes(source, 1, WINDOW_CAPACITY);
    assert_eq!(two, vec![b"[{\"a\":1}\n]".to_vec(), b"[{\"b\":2}\n]".to_vec()]);
}

#[test]
fn whitespace_on_both_sides_of_the_comma() {
    let source = b"[ {\"a\":1}\r\n\t,\n  {\"b\":2} , {\"c\":3}\n]";
    let files = split_bytes(source, 0, WINDOW_CAPACITY);
    assert_eq!(
        files,
        vec![
            b"[ {\"a\":1}\n]".to_vec(),
            b"[\n  {\"b\":2}\n]".to_vec(),
            b"[ {\"c\":3}\n]".to_vec(),
        ]
    );
    let two = split_bytes(source, 20, WINDOW_CAPACITY);
    assert_eq!(
        two,
        vec![b"[ {\"a\":1}\r\n\t,\n  {\"b\":2}\n]".to_vec(), b"[ {\"c\":3}\n]".to_vec()]
    );
}

#[test]
fn no_chunk_begins_or_ends_with_a_comma() {
    let source = b"[{\"a\":1} ,{\"b\":{\"c\":2}}\n, {\"d\":3},{\"e\":4} ]";
    for chunksize in 0..50u64 {
        let files = split_bytes(source, chunksize, WINDOW_CAPACITY);
        let mut objects = 0;
        for file in &files {
            let body = &file[1..file.len() - 2];
            let first = body.iter().position(|b| !b" \t\r\n".contains(b)).unwrap();
            assert_eq!(body[first], b'{');
            assert_eq!(body[body.len() - 1], b'}');
            objects += body.iter().filter(|b| **b == b'"').count() / 2;
        }
        assert_eq!(objects, 5);
    }
}

#[test]
fn separator_longer_than_the_window_ends_the_run() {
    let source = b"[{\"a\":1}          ,{\"b\":2}]";
    let files = split_bytes(source, 1, 8);
    assert_eq!(files, vec![b"[{\"a\":1}\n]".to_vec()]);
}

#[test]
fn run_over_tells_where_the_run_ended() {
    let (files, end) = run_over(THREE, 1, WINDOW_CAPACITY);
    assert_eq!(files, split_bytes(THREE, 1, WINDOW_CAPACITY));
    assert_eq!(end.cursor(), 24);
    assert_eq!(end.chunk_index(), 3);
    assert!(end.chunk_is_empty());
    let (files, end) = run_over(THREE, 100, WINDOW_CAPACITY);
    assert_eq!(files.len(), 1);
    assert_eq!(end.cursor(), 24);
    assert_eq!(end.chunk_index(), 0);
    assert_eq!(end.body_start(), Some(1));
    let (files, end) = run_over(THREE, 100, 7);
    assert_eq!(files.len(), 1);
    assert_eq!(end.cursor(), 8);
}

#[test]
fn smaller_chunksize_never_opens_fewer_chunks() {
    let sources: [&[u8]; 4] = [
        THREE,
        b"[{}{},{}]",
        b"[{\"a\":1} ,{\"b\":{\"c\":2}}\n, {\"d\":3},{\"e\":4} ]",
        b"[{\"a\":1},},{\"b\":2}]",
    ];
    for source in sources {
        let mut opened = u64::MAX;
        let mut left = usize::MAX;
        for chunksize in 0..50u64 {
            let (files, end) = run_over(source, chunksize, 16);
            assert!(end.chunk_index() + 1 <= opened || opened == u64::MAX);
            assert!(files.len() <= left);
            opened = end.chunk_index() + 1;
            left = files.len();
        }
    }
}
