use vstd::prelude::*;
use vstd::string::StringExecFns;

use crate::tokenizer::{ngrams, substring, texts, tokenize, char_window, N};

verus! {

/// A document as it arrives: identifier, title, author and raw content.
pub struct RawDoc {
    pub id: u8,
    pub title: String,
    pub author: String,
    pub content: String,
}

/// A document with its content tokens computed once, at ingestion.
pub struct Doc {
    pub id: u8,
    pub title: String,
    pub author: String,
    pub content: Vec<String>,
    pub raw_content: String,
}

/// The document collection; the document with identifier `k` stands at
/// position `k - 1`.
pub struct Documents {
    pub docs: Vec<Doc>,
}

/// The tokens under which a document is indexed: its title and its author,
/// each whole, then its content tokens.
pub open spec fn doc_tokens(d: Doc) -> Seq<Seq<char>> {
    seq![d.title@, d.author@] + texts(d.content@)
}

/// `d` is `raw` with its content tokens: the tokens of title, author and
/// content written one after the other.
pub open spec fn tokenized_from(raw: RawDoc, d: Doc) -> bool {
    &&& d.id == raw.id
    &&& d.title@ == raw.title@
    &&& d.author@ == raw.author@
    &&& d.raw_content@ == raw.content@
    &&& texts(d.content@) == ngrams(N as nat, raw.title@ + raw.author@ + raw.content@)
}

impl Doc {
    /// The document for `raw`, with its content tokens.
    pub fn from_raw(raw: &RawDoc) -> (r: Doc)
        ensures
            tokenized_from(*raw, r),
    {
        let text = raw.title.clone().concat(raw.author.as_str()).concat(raw.content.as_str());
        Doc {
            id: raw.id,
            title: raw.title.clone(),
            author: raw.author.clone(),
            content: tokenize(N, text),
            raw_content: raw.content.clone(),
        }
    }
}

/// Turns each raw document into a document with its content tokens, in order.
pub fn generate_tokenized_doc(raw_docs: &Vec<RawDoc>) -> (r: Documents)
    ensures
        r.docs@.len() == raw_docs@.len(),
        forall|i: int| 0 <= i < raw_docs@.len() ==> tokenized_from(raw_docs@[i], #[trigger] r.docs@[i]),
{
    let mut docs: Vec<Doc> = Vec::new();
    let mut i: usize = 0;
    while i < raw_docs.len()
        invariant
            i <= raw_docs@.len(),
            docs@.len() == i,
            forall|j: int| 0 <= j < i ==> tokenized_from(raw_docs@[j], #[trigger] docs@[j]),
        decreases raw_docs@.len() - i,
    {
        docs.push(Doc::from_raw(&raw_docs[i]));
        i = i + 1;
    }
    Documents { docs }
}

/// The decimal digit `d`.
pub open spec fn digit(d: nat) -> char {
    if d == 0 { '0' } else if d == 1 { '1' } else if d == 2 { '2' } else if d == 3 { '3' }
    else if d == 4 { '4' } else if d == 5 { '5' } else if d == 6 { '6' } else if d == 7 { '7' }
    else if d == 8 { '8' } else { '9' }
}

/// `x` written in decimal, without leading zeros.
pub open spec fn decimal(x: nat) -> Seq<char>
    decreases x,
{
    if x < 10 {
        seq![digit(x)]
    } else {
        decimal(x / 10).push(digit(x % 10))
    }
}

/// The one-character text of the decimal digit `d`.
fn digit_text(d: u8) -> (r: &'static str)
    requires
        d < 10,
    ensures
        r@ == seq![digit(d as nat)],
{
    let digits = "0123456789";
    proof {
        reveal_strlit("0123456789");
    }
    let r = digits.substring_char(d as usize, d as usize + 1);
    assert(r@ =~= seq![digit(d as nat)]);
    r
}

/// `x` in decimal.
pub fn decimal_text(x: u8) -> (r: String)
    ensures
        r@ == decimal(x as nat),
{
    if x < 10 {
        String::from_str(digit_text(x))
    } else if x < 100 {
        let mut r = String::from_str(digit_text(x / 10));
        r.append(digit_text(x % 10));
        assert(decimal(x as nat / 10) == seq![digit(x as nat / 10)]);
        assert(r@ =~= decimal(x as nat));
        r
    } else {
        let mut r = String::from_str(digit_text(x / 100));
        r.append(digit_text(x / 10 % 10));
        r.append(digit_text(x % 10));
        let ghost t = x as nat / 10;
        assert(t / 10 == x as nat / 100 && t % 10 == x as nat / 10 % 10);
        assert(decimal(t / 10) == seq![digit(x as nat / 100)]);
        assert(decimal(t) == decimal(t / 10).push(digit(t % 10)));
        assert(r@ =~= decimal(x as nat));
        r
    }
}

/// A document as shown in a result listing: identifier, title, author, the
/// first 25 characters of the content, and a separator line.
pub open spec fn shown(d: Doc) -> Seq<char> {
    "  id:      "@ + decimal(d.id as nat) + "\n  title:   "@ + d.title@ + "\n  author:  "@ + d.author@
        + "\n  content: "@ + char_window(d.raw_content@, 0, 25) + "...\n----------\n"@
}

/// The documents with the identifiers `ids`, shown one after the other.
pub open spec fn shown_all(docs: Seq<Doc>, ids: Seq<u8>) -> Seq<char>
    decreases ids.len(),
{
    if ids.len() == 0 {
        Seq::empty()
    } else {
        shown_all(docs, ids.drop_last()) + shown(docs[ids.last() - 1])
    }
}

impl Doc {
    /// This document as shown in a result listing.
    pub fn show(&self) -> (r: String)
        ensures
            r@ == shown(*self),
    {
        let mut r = String::from_str("  id:      ");
        r.append(decimal_text(self.id).as_str());
        r.append("\n  title:   ");
        r.append(self.title.as_str());
        r.append("\n  author:  ");
        r.append(self.author.as_str());
        r.append("\n  content: ");
        r.append(substring(self.raw_content.as_str(), 0, 25));
        r.append("...\n----------\n");
        r
    }
}

impl Documents {
    /// The documents with the identifiers `ids`, in that order, shown one
    /// after the other.
    pub fn show(&self, ids: Vec<u8>) -> (r: String)
        requires
            forall|i: int| 0 <= i < ids@.len() ==> 1 <= #[trigger] ids@[i] <= self.docs@.len(),
        ensures
            r@ == shown_all(self.docs@, ids@),
    {
        let mut r = String::new();
        let mut i: usize = 0;
        while i < ids.len()
            invariant
                i <= ids@.len(),
                forall|j: int| 0 <= j < ids@.len() ==> 1 <= #[trigger] ids@[j] <= self.docs@.len(),
                r@ == shown_all(self.docs@, ids@.subrange(0, i as int)),
            decreases ids@.len() - i,
        {
            let doc = &self.docs[(ids[i] - 1) as usize];
            r.append(doc.show().as_str());
            proof {
                assert(ids@.subrange(0, i + 1).drop_last() =~= ids@.subrange(0, i as int));
            }
            i = i + 1;
        }
        proof {
            assert(ids@.subrange(0, ids@.len() as int) =~= ids@);
        }
        r
    }
}

} // verus!
