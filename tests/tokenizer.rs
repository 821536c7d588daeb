use ngram_index::tokenize;
use ngram_index::substring;

fn strings(v: &[&str]) -> Vec<String> {
    v.iter().map(|s| s.to_string()).collect()
}

#[test]
fn short_text_is_one_token() {
    assert_eq!(tokenize(2, "ab".to_string()), strings(&["ab"]));
    assert_eq!(tokenize(2, "a".to_string()), strings(&["a"]));
    assert_eq!(tokenize(3, "ab".to_string()), strings(&["ab"]));
}

#[test]
fn empty_text_is_one_empty_token() {
    assert_eq!(tokenize(2, String::new()), strings(&[""]));
}

#[test]
fn long_text_leaves_out_the_last_window() {
    assert_eq!(tokenize(2, "abcd".to_string()), strings(&["ab", "bc"]));
    assert_eq!(tokenize(2, "cat".to_string()), strings(&["ca"]));
    assert_eq!(tokenize(3, "abcdef".to_string()), strings(&["abc", "bcd", "cde"]));
}

#[test]
fn tokens_count_code_points() {
    assert_eq!(tokenize(2, "日本語です".to_string()), strings(&["日本", "本語", "語で"]));
    assert_eq!(tokenize(2, "日本".to_string()), strings(&["日本"]));
}

#[test]
fn adjacent_tokens_add_one_character() {
    let text = "search engine";
    let toks = tokenize(2, text.to_string());
    let chars: Vec<char> = text.chars().collect();
    assert_eq!(toks.len(), chars.len() - 2);
    for i in 0..toks.len() - 1 {
        let mut joined = toks[i].clone();
        joined.push(toks[i + 1].chars().last().unwrap());
        let window: String = chars[i..i + 3].iter().collect();
        assert_eq!(joined, window);
    }
}

#[test]
fn zero_width_windows() {
    assert_eq!(tokenize(0, "abc".to_string()), strings(&["", "", ""]));
    assert_eq!(tokenize(0, String::new()), strings(&[""]));
}

#[test]
fn substring_by_characters() {
    assert_eq!(substring("hello world", 0, 5), "hello");
    assert_eq!(substring("hello", 3, 10), "lo");
    assert_eq!(substring("hello", 7, 2), "");
    assert_eq!(substring("hello", 1, 0), "");
    assert_eq!(substring("日本語です", 1, 2), "本語");
}
