//! Verified core of a file utility toolkit: copy-name heuristics, filename
//! normalisation, similarity grouping, content-hash grouping and random
//! renumbering.
pub mod content;
pub mod copy_names;
pub mod grouping;
pub mod normalize;
pub mod ordering;
pub mod renumber;
pub mod report;
pub mod text;
pub mod union_find;
