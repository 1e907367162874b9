use md_reader::document::Syntax;
use md_reader::parser::Parser;

fn parse(line: &str) -> (Syntax, String) {
    Parser::parse(line)
}

#[test]
fn heading_levels_one_to_six() {
    for level in 1..=6u8 {
        let line = format!("{} text", "#".repeat(level as usize));
        assert_eq!(parse(&line), (Syntax::H(level), "text".to_string()));
    }
}

#[test]
fn seven_hashes_is_paragraph() {
    assert_eq!(
        parse("####### text"),
        (Syntax::P, "####### text".to_string())
    );
}

#[test]
fn lone_marker_is_paragraph() {
    assert_eq!(parse("###"), (Syntax::P, "###".to_string()));
    assert_eq!(parse("#"), (Syntax::P, "#".to_string()));
}

#[test]
fn empty_line_is_empty_paragraph() {
    assert_eq!(parse(""), (Syntax::P, String::new()));
}

#[test]
fn spaces_only_line_is_empty_paragraph() {
    assert_eq!(parse("    "), (Syntax::P, String::new()));
}

#[test]
fn whitespace_runs_collapse() {
    assert_eq!(parse("a    b"), (Syntax::P, "a b".to_string()));
}

#[test]
fn leading_and_trailing_spaces_dropped() {
    assert_eq!(parse("   a  b   c  "), (Syntax::P, "a b c".to_string()));
}

#[test]
fn marker_after_leading_spaces() {
    assert_eq!(parse("   ##   Sub   title "), (Syntax::H(2), "Sub title".to_string()));
}

#[test]
fn marker_with_nothing_after() {
    assert_eq!(parse("# "), (Syntax::H(1), String::new()));
    assert_eq!(parse("###   "), (Syntax::H(3), String::new()));
}

#[test]
fn marker_mixed_with_text_is_paragraph() {
    assert_eq!(parse("#a text"), (Syntax::P, "#a text".to_string()));
    assert_eq!(parse("a# text"), (Syntax::P, "a# text".to_string()));
}

#[test]
fn trailing_hashes_stay_in_heading() {
    assert_eq!(parse("## Title #"), (Syntax::H(2), "Title #".to_string()));
}

#[test]
fn later_hashes_are_text() {
    assert_eq!(parse("word # x"), (Syntax::P, "word # x".to_string()));
}

#[test]
fn multibyte_characters_kept() {
    assert_eq!(parse("#  héllo   wörld"), (Syntax::H(1), "héllo wörld".to_string()));
}
