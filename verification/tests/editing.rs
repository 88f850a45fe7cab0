use objectify_html::edit::{
    get_params, insert_parameters, insert_substring_at_pos, remove_substring_at_pos,
    ParamChild, ParamContainer,
};

fn s(x: &str) -> String {
    x.to_string()
}

fn params(list: &[(&str, &str)]) -> ParamContainer {
    ParamContainer {
        children: list
            .iter()
            .map(|(n, c)| ParamChild { param_name: s(n), param_content: s(c) })
            .collect(),
    }
}

fn view(p: &ParamContainer) -> Vec<(String, String)> {
    p.children.iter().map(|c| (c.param_name.clone(), c.param_content.clone())).collect()
}

#[test]
fn insert_in_the_middle() {
    assert_eq!(insert_substring_at_pos(s("abcdef"), s("XY"), 2), "abXYcdef");
}

#[test]
fn insert_at_or_past_end_changes_nothing() {
    assert_eq!(insert_substring_at_pos(s("abc"), s("X"), 3), "abc");
    assert_eq!(insert_substring_at_pos(s("abc"), s("X"), 40), "abc");
}

#[test]
fn insert_empty_changes_nothing() {
    assert_eq!(insert_substring_at_pos(s("abc"), s(""), 1), "abc");
}

#[test]
fn insert_at_byte_position() {
    assert_eq!(insert_substring_at_pos(s("h\u{e9}llo"), s("X"), 3), "h\u{e9}Xllo");
    assert_eq!(insert_substring_at_pos(s("ab"), s("x\u{e9}"), 0), "x\u{e9}ab");
}

#[test]
fn remove_a_range() {
    assert_eq!(remove_substring_at_pos(s("abcdef"), 1, 3), "aef");
}

#[test]
fn remove_past_end_or_empty_range_changes_nothing() {
    assert_eq!(remove_substring_at_pos(s("abc"), 3, 5), "abc");
    assert_eq!(remove_substring_at_pos(s("abc"), 2, 1), "abc");
    assert_eq!(remove_substring_at_pos(s(""), -2, 4), "");
}

#[test]
fn remove_from_start_stops_when_empty() {
    assert_eq!(remove_substring_at_pos(s("abc"), 0, 10), "");
}

#[test]
fn remove_at_byte_position() {
    assert_eq!(remove_substring_at_pos(s("h\u{e9}llo"), 3, 4), "h\u{e9}o");
    assert_eq!(remove_substring_at_pos(s("h\u{e9}llo"), 1, 1), "hllo");
}

#[test]
fn remove_undoes_insert() {
    let text = s("<p>hello</p>");
    let with = insert_substring_at_pos(text.clone(), s("WORLD"), 3);
    assert_eq!(with, "<p>WORLDhello</p>");
    assert_eq!(remove_substring_at_pos(with, 3, 3 + 5 - 1), text);
}

#[test]
fn one_parameter_is_substituted() {
    assert_eq!(insert_parameters(s("Hello tag!"), params(&[("tag", "World")])), "Hello World!");
}

#[test]
fn no_parameter_found_leaves_the_text() {
    assert_eq!(insert_parameters(s("Hello"), params(&[("tag", "World")])), "Hello");
    assert_eq!(insert_parameters(s("abc"), params(&[])), "abc");
}

#[test]
fn parameter_at_the_end_is_substituted() {
    assert_eq!(insert_parameters(s("Hello tag"), params(&[("tag", "World")])), "Hello World");
}

#[test]
fn every_parameter_is_substituted() {
    assert_eq!(
        insert_parameters(s("Hi @p1@ and @p2@!"), params(&[("@p1@", "A"), ("@p2@", "B")])),
        "Hi A and B!"
    );
    assert_eq!(
        insert_parameters(s("a tag @p1@ b"), params(&[("tag", "T"), ("@p1@", "P")])),
        "a T P b"
    );
    assert_eq!(
        insert_parameters(s("a tag @p1@ b"), params(&[("tag", "T"), ("@p2@", "P")])),
        "a T @p1@ b"
    );
}

#[test]
fn parameters_apply_in_order_to_the_first_occurrence() {
    assert_eq!(insert_parameters(s("a"), params(&[("a", "b"), ("b", "c")])), "c");
    assert_eq!(insert_parameters(s("x x"), params(&[("x", "y")])), "y x");
    assert_eq!(insert_parameters(s("aab"), params(&[("ab", "X")])), "aX");
    assert_eq!(insert_parameters(s("abc"), params(&[("", "X")])), "abc");
}

#[test]
fn parameter_name_is_replaced_by_its_content() {
    assert_eq!(insert_parameters(s("@p1@R"), params(&[("@p1@", "ERRO")])), "ERROR");
    assert_eq!(insert_parameters(s("\u{e9}tag\u{e9}"), params(&[("tag", "\u{fc}")])), "\u{e9}\u{fc}\u{e9}");
}

#[test]
fn params_of_an_include() {
    let p = get_params(s("<include object=\"x\" params=\"[a][b]\"/>"), 0);
    assert_eq!(
        view(&p),
        vec![(s("tag"), s("include")), (s("@p1@"), s("a")), (s("@p2@"), s("b"))]
    );
}

#[test]
fn params_without_attribute_hold_the_tag_only() {
    let p = get_params(s("<include object=\"x\"/>"), 0);
    assert_eq!(view(&p), vec![(s("tag"), s("include"))]);
}

#[test]
fn params_labels_are_decimal() {
    let p = get_params(s("<i params=\"[0][1][2][3][4][5][6][7][8][9][10]\">"), 0);
    assert_eq!(p.children.len(), 12);
    assert_eq!(p.children[10].param_name, "@p10@");
    assert_eq!(p.children[10].param_content, "9");
    assert_eq!(p.children[11].param_name, "@p11@");
    assert_eq!(p.children[0].param_content, "i");
}
