//! An inverted-index search engine over a collection of text documents:
//! documents are tokenized into lower-case words, each word is mapped to the
//! documents that contain it and the offsets at which it occurs, and a query
//! ranks the documents that contain every query word by their number of hits.
pub mod text;
pub mod parser;
pub mod doctable;
pub mod search;
pub mod memindex;
pub mod marshaller;
pub mod shell;
