//! A query-driven emoji lookup engine: anchored fuzzy matching of typed terms
//! against a corpus of `"glyph| description| code"` entries, ranking by how
//! recently and often entries were picked under related queries, and
//! highlighting of the characters that matched.

pub mod frecency;
pub mod highlight;
pub mod matcher;
pub mod payload;
pub mod rank;
pub mod session;
pub mod text;
