use md_reader::document::{Document, Syntax};
use md_reader::parser::MDParser;

fn blocks(doc: &Document) -> Vec<(Syntax, String)> {
    (0..doc.len())
        .map(|i| (doc.syntax(i), doc.content(i).to_string()))
        .collect()
}

#[test]
fn new_document_is_empty() {
    assert_eq!(Document::new().len(), 0);
}

#[test]
fn consecutive_paragraphs_merge() {
    let mut doc = Document::new();
    doc.append(Syntax::P, "hello".to_string());
    doc.append(Syntax::P, "world".to_string());
    assert_eq!(blocks(&doc), vec![(Syntax::P, "hello world".to_string())]);
}

#[test]
fn heading_between_paragraphs_prevents_merge() {
    let mut doc = Document::new();
    doc.append(Syntax::P, "a".to_string());
    doc.append(Syntax::H(1), "t".to_string());
    doc.append(Syntax::P, "b".to_string());
    assert_eq!(
        blocks(&doc),
        vec![
            (Syntax::P, "a".to_string()),
            (Syntax::H(1), "t".to_string()),
            (Syntax::P, "b".to_string()),
        ]
    );
}

#[test]
fn consecutive_headings_stay_apart() {
    let mut doc = Document::new();
    doc.append(Syntax::H(2), "x".to_string());
    doc.append(Syntax::H(2), "y".to_string());
    assert_eq!(
        blocks(&doc),
        vec![(Syntax::H(2), "x".to_string()), (Syntax::H(2), "y".to_string())]
    );
}

#[test]
fn three_paragraphs_keep_order() {
    let mut one_by_one = Document::new();
    one_by_one.append(Syntax::P, "a".to_string());
    one_by_one.append(Syntax::P, "b".to_string());
    one_by_one.append(Syntax::P, "c".to_string());

    let mut grouped = Document::new();
    grouped.append(Syntax::P, "a".to_string());
    grouped.append(Syntax::P, "b c".to_string());

    let mut whole = Document::new();
    whole.append(Syntax::P, "a b c".to_string());

    assert_eq!(blocks(&one_by_one), vec![(Syntax::P, "a b c".to_string())]);
    assert_eq!(blocks(&one_by_one), blocks(&grouped));
    assert_eq!(blocks(&one_by_one), blocks(&whole));
}

#[test]
fn empty_paragraph_still_adds_separator() {
    let mut doc = Document::new();
    doc.append(Syntax::P, "a".to_string());
    doc.append(Syntax::P, String::new());
    assert_eq!(blocks(&doc), vec![(Syntax::P, "a ".to_string())]);
}

#[test]
fn lines_become_blocks() {
    let lines: Vec<String> = ["# Title", "Some text.", "More text.", "## Sub", "End."]
        .iter()
        .map(|l| l.to_string())
        .collect();
    let doc = MDParser::parse(&lines);
    assert_eq!(
        blocks(&doc),
        vec![
            (Syntax::H(1), "Title".to_string()),
            (Syntax::P, "Some text. More text.".to_string()),
            (Syntax::H(2), "Sub".to_string()),
            (Syntax::P, "End.".to_string()),
        ]
    );
}

#[test]
fn no_lines_no_blocks() {
    let doc = MDParser::parse(&Vec::new());
    assert_eq!(doc.len(), 0);
}

#[test]
fn empty_lines_merge_into_paragraph() {
    let lines: Vec<String> = vec!["a".to_string(), String::new(), "b".to_string()];
    let doc = MDParser::parse(&lines);
    assert_eq!(blocks(&doc), vec![(Syntax::P, "a  b".to_string())]);
}
