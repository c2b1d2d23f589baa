//! Summaries of authorship across a set of version-controlled plugin
//! checkouts: per-author contribution tables, per-repository contributor
//! counts, and per-repository first-commit dates.

pub mod dates;
pub mod history;
pub mod order;
pub mod scan;
pub mod text;
