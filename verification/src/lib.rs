//! Reading-position resolver for an e-reader.
//!
//! Given text fragments recognized from a screenshot of a page and an
//! indexed corpus of per-page text for the open book, the library finds
//! the corpus position the screenshot shows, and, from two screenshots,
//! the direction and distance between the two positions.  All matching
//! logic is verified; image recognition and the user interface live
//! outside the library and exchange plain values with it.

pub mod controller;
pub mod corpus;
pub mod delta;
pub mod gateway;
pub mod matcher;
pub mod normalize;
