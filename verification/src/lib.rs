//! A local file-system search engine core: a segmented inverted index with
//! an on-disk dictionary/postings layout, an incremental ingest pipeline and
//! TF·IDF scoring data computed over multiple segments.
//!
//! All disk reads and writes, thread scheduling and floating-point scoring
//! live outside this crate; the library works on plain values (byte vectors,
//! strings, integers) and states in its contracts exactly what each operation
//! computes.
//!
//! The layers, bottom up: [`codec`] defines the binary encoding all index
//! files share; [`order`] the term order; [`stamp`] wall-clock timestamps;
//! [`store`] the document store (path-to-id registry); [`segment`] the
//! in-memory postings buffer; [`disk`] the immutable on-disk segment;
//! [`flush`] the spill from buffer to segment; [`index`] the main index
//! facade; [`search`] the two-pass query executor; [`ingest`] the pure
//! decisions of the ingest driver; [`lexer`] the tokenizer; and [`laws`]
//! the cross-cutting guarantees, stated once and proved.

pub mod codec;
pub mod disk;
pub mod flush;
pub mod index;
pub mod ingest;
pub mod laws;
pub mod lexer;
pub mod order;
pub mod search;
pub mod segment;
pub mod stamp;
pub mod store;
