use ngram_index::{generate_index, generate_tokenized_doc, Documents, InversedIndex, RawDoc};

fn raw(id: u8, title: &str, author: &str, content: &str) -> RawDoc {
    RawDoc { id, title: title.to_string(), author: author.to_string(), content: content.to_string() }
}

fn words(v: &[&str]) -> Vec<String> {
    v.iter().map(|s| s.to_string()).collect()
}

fn index_of(pairs: &[(&str, u8)]) -> InversedIndex {
    let mut ii = InversedIndex::new();
    for (t, id) in pairs {
        ii.add(&t.to_string(), *id);
    }
    ii
}

fn cat_docs() -> Documents {
    generate_tokenized_doc(&vec![raw(1, "", "", "cat sat mat"), raw(2, "", "", "cat ran far")])
}

#[test]
fn lookup_absent_token() {
    let ii = index_of(&[("ab", 1)]);
    assert_eq!(ii.lookup(&"zz".to_string()), None);
    assert_eq!(ii.lookup(&"ab".to_string()), Some(&vec![1]));
}

#[test]
fn add_keeps_lists_ascending() {
    let ii = index_of(&[("ab", 5), ("ab", 2), ("ab", 9), ("ab", 0), ("cd", 3)]);
    assert_eq!(ii.lookup(&"ab".to_string()), Some(&vec![0, 2, 5, 9]));
    assert_eq!(ii.lookup(&"cd".to_string()), Some(&vec![3]));
}

#[test]
fn add_twice_keeps_one_entry() {
    let ii = index_of(&[("ca", 1), ("ca", 1)]);
    assert_eq!(ii.lookup(&"ca".to_string()), Some(&vec![1]));
    assert_eq!(ii.search(words(&["ca"])), vec![1]);
}

#[test]
fn single_token_query_returns_its_list() {
    let ii = index_of(&[("ab", 7), ("ab", 3), ("ab", 255), ("cd", 3)]);
    assert_eq!(ii.search(words(&["ab"])), vec![3, 7, 255]);
    assert_eq!(ii.search(words(&["a"])), Vec::<u8>::new());
}

#[test]
fn multi_token_query_intersects() {
    let ii = index_of(&[
        ("ab", 1), ("ab", 2), ("ab", 4), ("ab", 6), ("ab", 9),
        ("bc", 2), ("bc", 3), ("bc", 4), ("bc", 9),
        ("cd", 0), ("cd", 4), ("cd", 9), ("cd", 10),
    ]);
    // "abcd" stands for the tokens "ab" and "bc"
    assert_eq!(ii.search(words(&["abcd"])), vec![2, 4, 9]);
    assert_eq!(ii.search(words(&["ab", "bc", "cd"])), vec![4, 9]);
    assert_eq!(ii.search(words(&["cd", "ab"])), vec![4, 9]);
}

#[test]
fn disjoint_lists_give_nothing() {
    let ii = index_of(&[("ab", 1), ("ab", 3), ("cd", 2), ("cd", 4)]);
    assert_eq!(ii.search(words(&["ab", "cd"])), Vec::<u8>::new());
}

#[test]
fn repeated_token_in_query() {
    let ii = index_of(&[("ab", 1), ("ab", 3)]);
    assert_eq!(ii.search(words(&["ab", "ab"])), vec![1, 3]);
}

#[test]
fn absent_token_among_several_gives_nothing() {
    let ii = index_of(&[("ab", 1), ("cd", 1)]);
    assert_eq!(ii.search(words(&["ab", "zz"])), Vec::<u8>::new());
    assert_eq!(ii.search(words(&["zz", "cd"])), Vec::<u8>::new());
}

#[test]
fn empty_query_gives_nothing() {
    let ii = index_of(&[("ab", 1)]);
    assert_eq!(ii.search(Vec::new()), Vec::<u8>::new());
}

#[test]
fn query_cat_finds_both_documents() {
    let docs = cat_docs();
    let ii = generate_index(&docs);
    let found = ii.search(words(&["cat"]));
    assert_eq!(found, vec![1, 2]);
    assert_eq!(ii.search(words(&["sat"])), vec![1]);
    assert_eq!(ii.search(words(&["ran", "far"])), vec![2]);
}

#[test]
fn unknown_token_gives_zero_results() {
    let ii = generate_index(&cat_docs());
    let found = ii.search(words(&["zz"]));
    assert_eq!(found, Vec::<u8>::new());
    assert_eq!(found.len(), 0);
}

#[test]
fn tokenized_docs_hold_title_author_and_content_tokens() {
    let docs = generate_tokenized_doc(&vec![raw(4, "ab", "c", "de")]);
    assert_eq!(docs.docs.len(), 1);
    let d = &docs.docs[0];
    assert_eq!(d.id, 4);
    assert_eq!(d.title, "ab");
    assert_eq!(d.author, "c");
    assert_eq!(d.raw_content, "de");
    assert_eq!(d.content, words(&["ab", "bc", "cd"]));
}

#[test]
fn title_and_author_are_whole_tokens() {
    let docs = generate_tokenized_doc(&vec![raw(1, "Rust", "Ferris", "x")]);
    let ii = generate_index(&docs);
    assert_eq!(ii.lookup(&"Rust".to_string()), Some(&vec![1]));
    assert_eq!(ii.lookup(&"Ferris".to_string()), Some(&vec![1]));
    assert_eq!(ii.lookup(&"Ru".to_string()), Some(&vec![1]));
}

#[test]
fn rebuilding_gives_identical_lists() {
    let docs = cat_docs();
    let a = generate_index(&docs);
    let mut b = InversedIndex::new();
    b.build(&docs);
    let mut ta = a.tokens().clone();
    let mut tb = b.tokens().clone();
    ta.sort();
    tb.sort();
    assert_eq!(ta, tb);
    for t in ta.iter() {
        assert_eq!(a.lookup(t), b.lookup(t));
    }
}

#[test]
fn build_adds_to_an_existing_index() {
    let mut ii = index_of(&[("ca", 9)]);
    ii.build(&cat_docs());
    assert_eq!(ii.lookup(&"ca".to_string()), Some(&vec![1, 2, 9]));
}
