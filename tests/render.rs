use ngram_index::documents::decimal_text;
use ngram_index::{generate_tokenized_doc, RawDoc};

fn raw(id: u8, title: &str, author: &str, content: &str) -> RawDoc {
    RawDoc { id, title: title.to_string(), author: author.to_string(), content: content.to_string() }
}

#[test]
fn decimal_of_bytes() {
    assert_eq!(decimal_text(0), "0");
    assert_eq!(decimal_text(7), "7");
    assert_eq!(decimal_text(42), "42");
    assert_eq!(decimal_text(100), "100");
    assert_eq!(decimal_text(255), "255");
}

#[test]
fn doc_show_cuts_content_at_25_characters() {
    let docs = generate_tokenized_doc(&vec![raw(12, "T", "A", "abcdefghijklmnopqrstuvwxyz0123")]);
    assert_eq!(
        docs.docs[0].show(),
        "  id:      12\n  title:   T\n  author:  A\n  content: abcdefghijklmnopqrstuvwxy...\n----------\n"
    );
}

#[test]
fn documents_show_by_identifier() {
    let docs = generate_tokenized_doc(&vec![raw(1, "One", "a", "x"), raw(2, "Two", "b", "y")]);
    let shown = docs.show(vec![2, 1]);
    assert_eq!(shown, format!("{}{}", docs.docs[1].show(), docs.docs[0].show()));
    assert!(shown.starts_with("  id:      2\n  title:   Two\n"));
    assert_eq!(docs.show(Vec::new()), "");
}
