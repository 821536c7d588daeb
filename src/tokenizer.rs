use vstd::prelude::*;
use vstd::string::StrSliceExecFns;

verus! {

/// The window width used for documents and queries.
pub const N: usize = 2;

/// The characters of `s` from code-point offset `start`, at most `length` of them.
pub open spec fn char_window(s: Seq<char>, start: int, length: int) -> Seq<char> {
    let lo = if start < s.len() { start } else { s.len() as int };
    let hi = if start + length < s.len() { start + length } else { s.len() as int };
    if length == 0 { Seq::empty() } else { s.subrange(lo, hi) }
}

/// Up to `length` characters of `s` starting at character offset `start`;
/// shorter (possibly empty) where `s` ends first.
pub fn substring(s: &str, start: usize, length: usize) -> (r: &str)
    ensures
        r@ == char_window(s@, start as int, length as int),
{
    let len = s.unicode_len();
    if length == 0 || start >= len {
        return s.substring_char(len, len);
    }
    let end = if length <= len - start { start + length } else { len };
    s.substring_char(start, end)
}

/// The tokens of `s` for window width `n`: the whole text when it has at most
/// `n` characters, otherwise the windows of width `n` that start at offsets
/// `0 .. len - n` (the window starting at `len - n` is not produced).
pub open spec fn ngrams(n: nat, s: Seq<char>) -> Seq<Seq<char>> {
    if s.len() <= n {
        seq![s]
    } else {
        Seq::new((s.len() - n) as nat, |i: int| s.subrange(i, i + n))
    }
}

/// The character sequences held by a sequence of strings.
pub open spec fn texts(v: Seq<String>) -> Seq<Seq<char>> {
    v.map_values(|s: String| s@)
}

/// Splits `content` into its tokens of width `n`, in left-to-right order.
pub fn tokenize(n: usize, content: String) -> (r: Vec<String>)
    ensures
        texts(r@) == ngrams(n as nat, content@),
        content@.len() <= n ==> r@.len() == 1 && r@[0]@ == content@,
        content@.len() > n ==> r@.len() == content@.len() - n,
        content@.len() > n ==> forall|i: int| 0 <= i < r@.len() ==> (#[trigger] r@[i])@.len() == n,
{
    let len = content.as_str().unicode_len();
    let mut result: Vec<String> = Vec::new();
    if len <= n {
        result.push(content);
        assert(texts(result@) =~= ngrams(n as nat, content@));
        return result;
    }
    let mut i: usize = 0;
    while i < len - n
        invariant
            len == content@.len(),
            n < len,
            i <= len - n,
            result@.len() == i,
            forall|j: int| 0 <= j < i ==> (#[trigger] result@[j])@ == content@.subrange(j, j + n),
        decreases len - n - i,
    {
        let gram = substring(content.as_str(), i, n);
        result.push(gram.to_owned());
        i = i + 1;
    }
    assert(texts(result@) =~= ngrams(n as nat, content@));
    result
}

/// A text of at most `n` characters is a single token, unchanged.
pub proof fn lemma_short_text_is_one_token(n: nat, s: Seq<char>)
    requires
        s.len() <= n,
    ensures
        ngrams(n, s).len() == 1,
        ngrams(n, s)[0] == s,
{
}

/// A text of `L > n` characters gives `L - n` tokens of `n` characters each,
/// and each token followed by the last character of the next one is the
/// source window one character wider: the next token adds exactly the next
/// character of the source.
pub proof fn lemma_long_text_windows(n: nat, s: Seq<char>)
    requires
        s.len() > n,
    ensures
        ngrams(n, s).len() == s.len() - n,
        forall|i: int| 0 <= i < s.len() - n ==> (#[trigger] ngrams(n, s)[i]).len() == n,
        n > 0 ==> forall|i: int|
            0 <= i && i + 1 < s.len() - n ==> (#[trigger] ngrams(n, s)[i + 1]).last() == s[i + n]
                && ngrams(n, s)[i] + seq![ngrams(n, s)[i + 1].last()] == s.subrange(i, i + n + 1),
{
    if n > 0 {
        assert forall|i: int| 0 <= i && i + 1 < s.len() - n implies (#[trigger] ngrams(n, s)[i
            + 1]).last() == s[i + n] && ngrams(n, s)[i] + seq![ngrams(n, s)[i + 1].last()]
            == s.subrange(i, i + n + 1) by {
            assert(ngrams(n, s)[i] + seq![ngrams(n, s)[i + 1].last()] =~= s.subrange(i, i + n + 1));
        }
    }
}

/// The tokens of all the words, word after word, each word split by `ngrams`.
pub open spec fn query_tokens(n: nat, words: Seq<Seq<char>>) -> Seq<Seq<char>>
    decreases words.len(),
{
    if words.len() == 0 {
        Seq::empty()
    } else {
        query_tokens(n, words.drop_last()) + ngrams(n, words.last())
    }
}

} // verus!
