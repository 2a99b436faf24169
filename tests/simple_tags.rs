use code_packager::{TagError, Tags};

fn text(lines: &[&str]) -> String {
    lines.join("\n") + "\n"
}

fn content() -> String {
    text(&[
        "pub fn answer() -> u32 {",
        "    // @implement",
        "    let x = 6 * 7;",
        "    x",
        "    // @end",
        "    // @provide",
        "    todo!()",
        "    // @end",
        "}",
    ])
}

#[test]
fn test_implement() {
    let tag = Tags::new()
        .tag_prefix("// @")
        .add_include("implement")
        .add_exclude("provide")
        .end_tag("end");

    let trimmed = tag.package(&content()).unwrap();
    let expected = text(&["pub fn answer() -> u32 {", "    let x = 6 * 7;", "    x", "}"]);
    assert_eq!(expected, trimmed);
}

#[test]
fn test_provide() {
    let tag = Tags::new()
        .tag_prefix("// @")
        .add_exclude("implement")
        .add_include("provide")
        .end_tag("end");

    let trimmed = tag.package(&content()).unwrap();
    let expected = text(&["pub fn answer() -> u32 {", "    todo!()", "}"]);
    assert_eq!(expected, trimmed);
}

#[test]
fn test_error() {
    let tag = Tags::new()
        .tag_prefix("// @")
        .add_include("implement")
        .end_tag("end");

    assert_eq!(Err(TagError::UnexpectedEndTag(8)), tag.package(&content()));
}
