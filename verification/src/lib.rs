//! A verified find/replace engine over an in-memory text buffer: it locates
//! every occurrence of a query substring, keeps a cyclic cursor over the
//! match list, performs single or bulk replacements, and composes styled
//! runs that highlight the matches for display.

pub mod highlight;
pub mod laws;
pub mod matching;
pub mod search;
