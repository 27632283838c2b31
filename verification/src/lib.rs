//! Collecting pet records from lines of text.

pub mod collector;
pub mod record;
pub mod text;
