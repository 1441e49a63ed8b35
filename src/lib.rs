//! Keyword extraction (RAKE) and extractive summarisation (TextRank) over plain text, with the
//! rules for reference links and the page layout of the exported report.
pub mod analyze;
pub mod layout;
pub mod rake;
pub mod rank;
pub mod resources;
pub mod sentences;
pub mod stopwords;
pub mod text;
pub mod textrank;

pub use analyze::{extract_keywords, extract_summary};
