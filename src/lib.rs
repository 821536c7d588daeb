pub mod documents;
pub mod index;
pub mod postings;
pub mod tokenizer;

pub use documents::{generate_tokenized_doc, Doc, Documents, RawDoc};
pub use index::{generate_index, InversedIndex};
pub use tokenizer::{substring, tokenize, N};
