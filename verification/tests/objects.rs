use objectify_html::inline::{start_inline, InlineAction};
use objectify_html::objects::{does_replacement_exist, start_search, SearchAction};

fn s(x: &str) -> String {
    x.to_string()
}

fn read_path(a: &SearchAction) -> Option<String> {
    match a {
        SearchAction::ReadFile(p) => Some(p.clone()),
        SearchAction::Finished(_) => None,
    }
}

fn finished(a: &SearchAction) -> Option<String> {
    match a {
        SearchAction::ReadFile(_) => None,
        SearchAction::Finished(d) => Some(d.clone()),
    }
}

#[test]
fn definition_is_found() {
    let file = "<begin object=\"foo\">BODY</begin >";
    let v = does_replacement_exist(s(file), s("foo"));
    assert!(v.exists);
    assert_eq!(v.data, "BODY");
}

#[test]
fn definition_missing() {
    let v = does_replacement_exist(s("<begin object=\"foo\">x</begin >"), s("bar"));
    assert!(!v.exists);
    assert_eq!(v.data, "");
}

#[test]
fn second_definition_in_a_file() {
    let file = "<begin object=\"a\">A</begin >\n<begin object=\"bb\">B</begin >";
    let v = does_replacement_exist(s(file), s("bb"));
    assert!(v.exists);
    assert_eq!(v.data, "B");
}

#[test]
fn search_reads_listed_files_in_order() {
    let (mut search, action) = start_search(s("foo"), s("[a.ohtml]\n[b.ohtml]\n"));
    assert_eq!(read_path(&action), Some(s("a.ohtml")));
    let action = search.feed(s("<begin object=\"bar\">no</begin >"));
    assert_eq!(read_path(&action), Some(s("b.ohtml")));
    let action = search.feed(s("<begin object=\"foo\">yes</begin >"));
    assert_eq!(finished(&action), Some(s("yes")));
}

#[test]
fn search_first_definition_wins() {
    let (mut search, action) = start_search(s("foo"), s("[a][b]"));
    assert_eq!(read_path(&action), Some(s("a")));
    let action = search.feed(s("<begin object=\"foo\">first</begin >"));
    assert_eq!(finished(&action), Some(s("first")));
}

#[test]
fn search_without_definition_is_error() {
    let (mut search, action) = start_search(s("foo"), s("[a]"));
    assert_eq!(read_path(&action), Some(s("a")));
    let action = search.feed(s("nothing here"));
    assert_eq!(finished(&action), Some(s("ERROR")));
}

#[test]
fn search_without_files_is_error() {
    let (_search, action) = start_search(s("foo"), s("no files"));
    assert_eq!(finished(&action), Some(s("ERROR")));
}

fn need(a: &InlineAction) -> Option<String> {
    match a {
        InlineAction::NeedObject(n) => Some(n.clone()),
        _ => None,
    }
}

fn done(a: &InlineAction) -> Option<String> {
    match a {
        InlineAction::Finished(t) => Some(t.clone()),
        _ => None,
    }
}

/// Runs both machines over a set of files held in memory.
fn compile(page: &str, files: &[(&str, &str)]) -> String {
    let read = |path: &str| -> String {
        files.iter().find(|(p, _)| *p == path).map(|(_, c)| s(c)).expect("missing file")
    };
    let (mut inliner, mut action) = start_inline(s(page));
    loop {
        match action {
            InlineAction::NeedObject(name) => {
                let (mut search, mut step) = start_search(name, read(".build"));
                let data = loop {
                    match step {
                        SearchAction::ReadFile(path) => step = search.feed(read(&path)),
                        SearchAction::Finished(d) => break d,
                    }
                };
                action = inliner.resume(data);
            }
            InlineAction::Finished(text) => return text,
        }
    }
}

#[test]
fn definition_from_the_specification() {
    let file = "<begin object=\"foo\">\n    <div class=\"thing\"> Test </div>\n</begin>";
    let v = does_replacement_exist(s(file), s("foo"));
    assert!(v.exists);
    assert_eq!(v.data, "\n    <div class=\"thing\"> Test </div>\n");
}

#[test]
fn page_without_includes_is_unchanged() {
    let (_inliner, action) = start_inline(s("<p>plain</p>"));
    assert_eq!(done(&action), Some(s("<p>plain</p>")));
}

#[test]
fn include_tag_only_is_replaced() {
    let (mut inliner, action) = start_inline(s("<include object=\"foo\"/>\nrest"));
    assert_eq!(need(&action), Some(s("foo")));
    let action = inliner.resume(s("[tag]"));
    assert_eq!(done(&action), Some(s("[include]\nrest")));
}

#[test]
fn include_inside_markup_is_replaced() {
    let (mut inliner, action) = start_inline(s("<p><include object=\"foo\"/></p>"));
    assert_eq!(need(&action), Some(s("foo")));
    let action = inliner.resume(s("X"));
    assert_eq!(done(&action), Some(s("<p>X</p>")));
}

#[test]
fn include_at_the_end_of_the_page() {
    let (mut inliner, action) = start_inline(s("text<include object=\"foo\"/>"));
    assert_eq!(need(&action), Some(s("foo")));
    let action = inliner.resume(s("[tag]"));
    assert_eq!(done(&action), Some(s("text[include]")));
}

#[test]
fn nested_includes_are_resolved() {
    let (mut inliner, action) = start_inline(s("<include object=\"a\"/> end"));
    assert_eq!(need(&action), Some(s("a")));
    let action = inliner.resume(s("tag:<include object=\"b\"/> !"));
    assert_eq!(need(&action), Some(s("b")));
    let action = inliner.resume(s("[tag]"));
    assert_eq!(done(&action), Some(s("include:[include] ! end")));
}

#[test]
fn parameters_are_substituted_into_the_object() {
    let page = "<include object=\"card\" params=\"[Ann][42]\"/>";
    let (mut inliner, action) = start_inline(s(page));
    assert_eq!(need(&action), Some(s("card")));
    let action = inliner.resume(s("<b>@p1@</b> is @p2@"));
    assert_eq!(done(&action), Some(s("<b>Ann</b> is 42")));
}

#[test]
fn missing_object_leaves_the_include() {
    let page = "<include object=\"foo\"/>x";
    let (mut inliner, action) = start_inline(s(page));
    assert_eq!(need(&action), Some(s("foo")));
    let action = inliner.resume(s("ERROR"));
    assert_eq!(done(&action), Some(s(page)));
}

#[test]
fn error_object_text_skips_the_include() {
    let page = "<include object=\"foo\" params=\"[ERRO]\"/>x";
    let (mut inliner, action) = start_inline(s(page));
    assert_eq!(need(&action), Some(s("foo")));
    let action = inliner.resume(s("@p1@R"));
    assert_eq!(done(&action), Some(s(page)));
}

#[test]
fn example_page_from_the_specification() {
    let files = [(".build", "[o.ohtml]"), ("o.ohtml", "<begin object=\"a\">Q</begin>")];
    assert_eq!(compile("x<include object=\"a\"/>yz", &files), "xQyz");
}

#[test]
fn include_inside_a_definition_is_expanded() {
    let files = [
        (".build", "[o.ohtml]"),
        ("o.ohtml", "<begin object=\"a\">[<include object=\"b\"/>]</begin> <begin object=\"b\">Z</begin>"),
    ];
    assert_eq!(compile("<include object=\"a\"/>", &files), "[Z]");
}

#[test]
fn objects_from_several_files() {
    let files = [
        (".build", "[one.ohtml]\n[two.ohtml]\n"),
        ("one.ohtml", "<begin object=\"head\"><h1>T</h1></begin>"),
        ("two.ohtml", "<begin object=\"foot\"><hr/></begin>"),
    ];
    let page = "<include object=\"head\"/>\n<p>x</p>\n<include object=\"foot\"/>\n";
    assert_eq!(compile(page, &files), "<h1>T</h1>\n<p>x</p>\n<hr/>\n");
}

#[test]
fn replacing_twice_changes_nothing() {
    let files = [
        (".build", "[o.ohtml]"),
        ("o.ohtml", "<begin object=\"a\">A<include object=\"zz\"/></begin>"),
    ];
    let once = compile("1<include object=\"a\"/>2", &files);
    assert_eq!(once, "1A<include object=\"zz\"/>2");
    assert_eq!(compile(&once, &files), once);
}
