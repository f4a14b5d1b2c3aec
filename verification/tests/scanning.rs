use json_chunker::scan::{find_object_end, skip_separator};

#[test]
fn finds_end_of_flat_object() {
    assert_eq!(find_object_end(b"{\"a\":1},{\"b\":2}]"), Some(6));
}

#[test]
fn leading_delimiter_is_part_of_the_span() {
    assert_eq!(find_object_end(b",{\"b\":2},{\"c\":3}]"), Some(7));
}

#[test]
fn nested_object_ends_at_outer_brace() {
    assert_eq!(find_object_end(b"{\"a\":{\"b\":{}}} ,"), Some(13));
}

#[test]
fn smallest_object() {
    assert_eq!(find_object_end(b"{}"), Some(1));
}

#[test]
fn no_end_in_empty_window() {
    assert_eq!(find_object_end(b""), None);
}

#[test]
fn no_end_without_braces() {
    assert_eq!(find_object_end(b"]"), None);
    assert_eq!(find_object_end(b" , \n"), None);
}

#[test]
fn no_end_when_object_is_cut_off() {
    assert_eq!(find_object_end(b"{\"a\":{\"b\":1}"), None);
}

#[test]
fn closing_brace_outside_an_object_stops_the_scan() {
    assert_eq!(find_object_end(b"}{\"a\":1}"), None);
    assert_eq!(find_object_end(b" }"), None);
}

#[test]
fn braces_inside_strings_are_counted() {
    assert_eq!(find_object_end(b"{\"a\":\"}\"}"), Some(6));
}

#[test]
fn separator_is_filler_and_one_comma() {
    assert_eq!(skip_separator(b",{\"b\":2}"), 1);
    assert_eq!(skip_separator(b" ,{\"b\":2}"), 2);
    assert_eq!(skip_separator(b" \r\n\t, {\"b\":2}"), 5);
    assert_eq!(skip_separator(b",,{}"), 1);
}

#[test]
fn separator_without_comma_ends_at_the_brace() {
    assert_eq!(skip_separator(b"{\"b\":2}"), 0);
    assert_eq!(skip_separator(b"  {\"b\":2}"), 2);
    assert_eq!(skip_separator(b" }"), 1);
}

#[test]
fn separator_may_fill_the_window() {
    assert_eq!(skip_separator(b""), 0);
    assert_eq!(skip_separator(b"]"), 1);
    assert_eq!(skip_separator(b" \n "), 3);
    assert_eq!(skip_separator(b" ,"), 2);
}
