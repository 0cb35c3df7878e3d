//! Assembly of a batch report from independently authored vector-graphics
//! pages: a normalizer that inlines base64-embedded vector payloads found
//! inside image references (`xml`), a renderer boundary (`render`), a
//! deterministic ordering of the rendered pages (`order`), and a merge
//! engine that combines the per-page documents into one self-consistent,
//! navigable document (`pdf`, `merge`, `pdf_io`).

pub mod merge;
pub mod names;
pub mod order;
pub mod pdf;
pub mod pdf_io;
pub mod render;
pub mod xml;
