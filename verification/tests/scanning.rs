use objectify_html::scan::{
    get_attribute, get_entire_tag, get_first_location_of_string, get_replacement_data,
    get_replacement_id, get_substrings_from_delims, get_tag_name, get_total_tag_length,
};

fn s(x: &str) -> String {
    x.to_string()
}

#[test]
fn tag_name_stops_at_space() {
    assert_eq!(get_tag_name(s("<include object=\"foo\"/>"), 0), "include");
}

#[test]
fn tag_name_without_space_runs_to_end() {
    assert_eq!(get_tag_name(s("<br>"), 0), "br>");
}

#[test]
fn tag_name_negative_and_past_end() {
    assert_eq!(get_tag_name(s("abc"), -5), "abc");
    assert_eq!(get_tag_name(s("abc"), 10), "");
    assert_eq!(get_tag_name(s("a b"), 1), "b");
}

#[test]
fn tag_name_never_holds_a_space() {
    let name = get_tag_name(s("<x  y z>"), 0);
    assert_eq!(name, "x");
    assert!(!name.contains(' '));
}

#[test]
fn entire_tag_up_to_closing_bracket() {
    assert_eq!(get_entire_tag(s("xx<a b>yy"), 2), "<a b>");
    assert_eq!(get_entire_tag(s("<abc"), 0), "<abc");
    assert_eq!(get_entire_tag(s("<a>"), -3), "<a>");
    assert_eq!(get_entire_tag(s("<a>"), 7), "");
}

#[test]
fn total_tag_length_counts_bytes() {
    assert_eq!(get_total_tag_length(s("<include object=\"foo\"/>"), 0), 23);
    assert_eq!(get_total_tag_length(s("<\u{e9}>rest"), 0), 4);
    assert_eq!(get_total_tag_length(s("ab<c>"), 2), get_entire_tag(s("ab<c>"), 2).len() as i32);
}

#[test]
fn attribute_value_is_read() {
    assert_eq!(get_attribute(s("<include object=\"foo\"/>"), s("object"), 8), "foo");
    assert_eq!(get_replacement_id(s("<include object=\"foo\"/>"), 8), "foo");
}

#[test]
fn attribute_missing_is_empty() {
    assert_eq!(get_attribute(s("<include object=\"foo\"/>"), s("params"), 0), "");
}

#[test]
fn attribute_matcher_does_not_recheck_on_mismatch() {
    assert_eq!(get_attribute(s("xoobject=\"v\""), s("object"), -1), "");
    assert_eq!(get_attribute(s("x object=\"v\""), s("object"), -1), "v");
}

#[test]
fn attribute_unterminated_runs_to_end() {
    assert_eq!(get_attribute(s("a=\"xyz"), s("a"), -1), "xyz");
}

#[test]
fn attribute_with_non_ascii_name_is_empty() {
    assert_eq!(get_attribute(s("abc"), s("\u{e9}"), -1), "");
}

#[test]
fn location_needs_a_following_character() {
    assert_eq!(get_first_location_of_string(s("hello world"), s("world")), -1);
    assert_eq!(get_first_location_of_string(s("hello world!"), s("world")), 6);
}

#[test]
fn location_of_empty_or_missing() {
    assert_eq!(get_first_location_of_string(s("abc"), s("")), -1);
    assert_eq!(get_first_location_of_string(s("abc"), s("x")), -1);
}

#[test]
fn location_matcher_does_not_recheck_on_mismatch() {
    assert_eq!(get_first_location_of_string(s("aab!"), s("ab")), -1);
    assert_eq!(get_first_location_of_string(s("xab!"), s("ab")), 1);
}

#[test]
fn location_counts_characters_before_the_match() {
    assert_eq!(get_first_location_of_string(s("\u{e9} tag!"), s("tag")), 2);
}

#[test]
fn found_location_holds_the_substring() {
    let text = "one two three four";
    let pos = get_first_location_of_string(s(text), s("three"));
    assert_eq!(pos, 8);
    assert_eq!(&text[pos as usize..pos as usize + 5], "three");
}

#[test]
fn substrings_between_brackets() {
    assert_eq!(
        get_substrings_from_delims(s("[a.ohtml]\n[b/c.ohtml]\n"), '[', ']'),
        vec![s("a.ohtml"), s("b/c.ohtml")]
    );
}

#[test]
fn substrings_only_between_open_and_close() {
    assert_eq!(get_substrings_from_delims(s("a]b"), '[', ']'), Vec::<String>::new());
    assert_eq!(get_substrings_from_delims(s("x]y"), '[', ']'), Vec::<String>::new());
    assert_eq!(get_substrings_from_delims(s("[a[b]"), '[', ']'), vec![s("a[b")]);
    assert_eq!(get_substrings_from_delims(s("[a"), '[', ']'), Vec::<String>::new());
    assert_eq!(get_substrings_from_delims(s("[]"), '[', ']'), vec![s("")]);
    let text = "[1]]x[2] ] [3";
    let parts = get_substrings_from_delims(s(text), '[', ']');
    assert_eq!(parts, vec![s("1"), s("2")]);
    assert!(parts.len() <= text.matches(']').count());
    assert!(parts.iter().all(|p| !p.contains(']')));
}

#[test]
fn replacement_data_stops_at_end_tag_with_space() {
    let file = "<begin object=\"foo\">BODY</begin >";
    assert_eq!(get_replacement_data(s(file), 19), "BODY");
}

#[test]
fn replacement_data_stops_at_closing_tag() {
    let file = "<begin object=\"a\">Q</begin>";
    assert_eq!(get_replacement_data(s(file), 17), "Q");
}

#[test]
fn replacement_data_ends_only_at_closing_tags() {
    assert_eq!(get_replacement_data(s(">B</beginx"), 0), "B</beginx");
    assert_eq!(get_replacement_data(s(">B</begin"), 0), "B");
    assert_eq!(get_replacement_data(s("><div>B</div></begin>x"), 0), "<div>B</div>");
}

#[test]
fn replacement_data_from_negative_start() {
    assert_eq!(get_replacement_data(s("ab</begin x"), -4), "ab");
}
