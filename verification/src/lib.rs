//! A resumable best-first search engine that looks for a sequence of named
//! text transformations ("hints") turning a start string into a target
//! string. Dissimilarity between texts is measured by a weighted edit
//! distance with an n-gram similarity bonus and asymmetric length penalties;
//! all weights are fixed-point numbers in thousandths (milli-units), so the
//! whole computation is exact integer arithmetic.

pub mod text;
pub mod distance;
pub mod hints;
pub mod attempts;
pub mod progress;
pub mod engine;
