//! Stress trainer for Russian words: a parser for the word database, the
//! catalog of parsed words, and the statistics that decide what to ask next.

pub mod header;
pub mod model;
pub mod util;
