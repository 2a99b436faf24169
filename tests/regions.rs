use code_packager::{TagError, TagType, Tags};

fn tags() -> Tags {
    Tags::new().tag_prefix("// @").end_tag("end")
}

#[test]
fn include_keeps_region_content() {
    let t = tags().add_include("x");
    assert_eq!(Ok("a\nb\nc".to_string()), t.package("a\n// @x\nb\n// @end\nc"));
}

#[test]
fn exclude_drops_region_content() {
    let t = tags().add_exclude("x");
    assert_eq!(Ok("a\nc".to_string()), t.package("a\n// @x\nb\n// @end\nc"));
}

#[test]
fn close_without_open_fails() {
    assert_eq!(Err(TagError::UnexpectedEndTag(1)), tags().package("// @end"));
}

#[test]
fn close_without_open_fails_whatever_follows() {
    let t = tags().add_include("x");
    assert_eq!(
        Err(TagError::UnexpectedEndTag(2)),
        t.package("a\n// @end\n// @x\n// @x\nb")
    );
}

#[test]
fn open_without_close_fails_on_last_line() {
    let t = tags().add_include("x");
    assert_eq!(Err(TagError::ExpectedEndTag(2)), t.package("// @x\na"));
}

#[test]
fn nested_exclude_inside_include() {
    let t = tags().add_include("outer").add_exclude("inner");
    let doc = "// @outer\n1\n// @inner\n2\n// @end\n3\n// @end";
    assert_eq!(Ok("1\n3".to_string()), t.package(doc));
}

#[test]
fn exclude_dominates_nested_include() {
    let t = tags().add_exclude("outer").add_include("inner");
    let doc = "// @outer\n// @inner\nx\n// @end\n// @end";
    assert_eq!(Ok(String::new()), t.package(doc));
}

#[test]
fn exclude_keeps_nesting_depth() {
    let t = tags().add_exclude("outer").add_include("inner");
    let doc = "// @outer\n// @inner\nx\n// @end\ny\n// @end\nz\n";
    assert_eq!(Ok("z\n".to_string()), t.package(doc));
}

#[test]
fn tag_in_both_sets_is_included() {
    let t = tags().add_include("x").add_exclude("x");
    assert_eq!(Ok("a\nb\n".to_string()), t.package("// @x\na\n// @end\nb\n"));
}

#[test]
fn unknown_tag_is_content() {
    let t = tags().add_include("x");
    assert_eq!(Ok("// @y\na".to_string()), t.package("// @y\na"));
}

#[test]
fn trailing_newline_is_kept() {
    let t = tags().add_exclude("x");
    assert_eq!(Ok("a\n".to_string()), t.package("a\n// @x\nb\n// @end\n"));
    assert_eq!(Ok("a".to_string()), t.package("a\n// @x\nb\n// @end"));
}

#[test]
fn nothing_kept_still_ends_with_newline() {
    let t = tags().add_exclude("x");
    assert_eq!(Ok("\n".to_string()), t.package("// @x\nb\n// @end\n"));
}

#[test]
fn no_op_configuration_returns_document() {
    let doc = "fn main() {\n    println!(\"hi\");\n}\n\nlast\n";
    assert_eq!(Ok(doc.to_string()), Tags::new().tag_prefix("// @").end_tag("end").package(doc));
}

#[test]
fn empty_document() {
    assert_eq!(Ok(String::new()), tags().package(""));
    assert_eq!(Ok("\n".to_string()), tags().package("\n"));
}

#[test]
fn crlf_terminators_are_normalised() {
    let t = tags().add_exclude("x");
    assert_eq!(Ok("a\nc\n".to_string()), t.package("a\r\n// @x\r\nb\r\n// @end\r\nc\r\n"));
}

#[test]
fn directive_after_code_and_with_spaces() {
    let t = tags().add_exclude("x");
    let doc = "a\nlet v = 1; // @  x  \nb\n\t// @end\t\nc";
    assert_eq!(Ok("a\nc".to_string()), t.package(doc));
}

#[test]
fn classifier_kinds() {
    let t = tags().add_include("x").add_exclude("y");
    assert_eq!(TagType::Include, TagType::from(&t, "  // @x"));
    assert_eq!(TagType::Exclude, TagType::from(&t, "code // @ y "));
    assert_eq!(TagType::End, TagType::from(&t, "// @end"));
    assert_eq!(TagType::Content, TagType::from(&t, "// @z"));
    assert_eq!(TagType::Content, TagType::from(&t, "plain x"));
}

#[test]
fn classifier_uses_first_prefix() {
    let t = tags().add_include("x");
    assert_eq!(TagType::Content, TagType::from(&t, "// @y // @x"));
}

#[test]
fn remove_include_and_exclude() {
    let t = tags().add_include("x").remove_include("x");
    assert_eq!(TagType::Content, TagType::from(&t, "// @x"));
    let t = tags().add_exclude("y").remove_exclude("y").remove_exclude("z");
    assert_eq!(TagType::Content, TagType::from(&t, "// @y"));
}

#[test]
fn include_all_and_exclude_all() {
    let t = tags().include_all(&["a", "b", "a"]).exclude_all(&["c", "d"]);
    assert_eq!(TagType::Include, TagType::from(&t, "// @a"));
    assert_eq!(TagType::Include, TagType::from(&t, "// @b"));
    assert_eq!(TagType::Exclude, TagType::from(&t, "// @c"));
    assert_eq!(TagType::Exclude, TagType::from(&t, "// @d"));
    let t = t.remove_include("a");
    assert_eq!(TagType::Content, TagType::from(&t, "// @a"));
}

#[test]
fn default_tags_close_on_blank_line() {
    let t = Tags::new();
    assert_eq!(Ok("x".to_string()), t.package("x"));
    assert_eq!(Err(TagError::UnexpectedEndTag(2)), t.package("x
  
y"));
}

#[test]
fn non_ascii_text_is_kept() {
    let t = tags().add_exclude("ü");
    assert_eq!(Ok("äö\nß".to_string()), t.package("äö\n// @ü\n€\n// @end\nß"));
}

#[test]
fn blank_last_kept_line_ends_output_with_newline() {
    let t = tags().add_exclude("x");
    assert_eq!(Ok("a\n".to_string()), t.package("a\n\n// @x\n// @end"));
}
