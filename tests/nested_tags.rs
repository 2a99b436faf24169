use code_packager::{TagError, Tags};

fn text(lines: &[&str]) -> String {
    lines.join("\n") + "\n"
}

const CONTENT: [&str; 22] = [
    "/// A point in the plane.",
    "",
    "pub struct Point {",
    "    pub x: i32,",
    "    pub y: i32,",
    "}",
    "",
    "// @outer",
    "impl Point {",
    "    pub fn sum(&self) -> i32 {",
    "        self.x + self.y",
    "    }",
    "    // @inner",
    "    pub fn diff(&self) -> i32 {",
    "        // @innermost",
    "        let _checked = self.x.checked_sub(self.y);",
    "        // @end",
    "        self.x - self.y",
    "    }",
    "    // @end",
    "}",
    "// @end",
];

/// The lines of the document at the given 1-based numbers.
fn pick(numbers: &[usize]) -> String {
    let lines: Vec<&str> = numbers.iter().map(|n| CONTENT[n - 1]).collect();
    text(&lines)
}

fn outer() -> String {
    pick(&[1, 2, 3, 4, 5, 6, 7, 9, 10, 11, 12, 21])
}

fn inner() -> String {
    pick(&[1, 2, 3, 4, 5, 6, 7, 9, 10, 11, 12, 14, 18, 19, 21])
}

fn innermost() -> String {
    pick(&[1, 2, 3, 4, 5, 6, 7, 9, 10, 11, 12, 14, 16, 18, 19, 21])
}

#[test]
fn test_outer() {
    let tag = Tags::new()
        .tag_prefix("// @")
        .add_include("outer")
        .add_exclude("inner")
        .add_exclude("innermost")
        .end_tag("end");

    let trimmed = tag.package(&text(&CONTENT)).unwrap();
    assert_eq!(outer(), trimmed);
}

#[test]
fn test_outer2() {
    let tag = Tags::new()
        .tag_prefix("// @")
        .add_include("outer")
        .add_exclude("inner")
        .add_include("innermost")
        .end_tag("end");

    let trimmed = tag.package(&text(&CONTENT)).unwrap();
    assert_eq!(outer(), trimmed);
}

#[test]
fn test_outer_error() {
    let tag = Tags::new()
        .tag_prefix("// @")
        .add_include("outer")
        .add_exclude("inner")
        .end_tag("end");

    assert_eq!(Err(TagError::UnexpectedEndTag(22)), tag.package(&text(&CONTENT)));
}

#[test]
fn test_inner() {
    let tag = Tags::new()
        .tag_prefix("// @")
        .add_include("outer")
        .add_include("inner")
        .add_exclude("innermost")
        .end_tag("end");

    let trimmed = tag.package(&text(&CONTENT)).unwrap();
    assert_eq!(inner(), trimmed);
}

#[test]
fn test_inner_error2() {
    let tag = Tags::new()
        .tag_prefix("// @")
        .add_include("outer")
        .add_include("inner")
        .end_tag("end");

    assert_eq!(Err(TagError::UnexpectedEndTag(22)), tag.package(&text(&CONTENT)));
}

#[test]
fn test_innermost() {
    let tag = Tags::new()
        .tag_prefix("// @")
        .add_include("outer")
        .add_include("inner")
        .add_include("innermost")
        .end_tag("end");

    let trimmed = tag.package(&text(&CONTENT)).unwrap();
    assert_eq!(innermost(), trimmed);
}
