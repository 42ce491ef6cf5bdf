//! Planning the cheapest preparation for a card-draw exam: exact draw
//! probabilities, the score reached with 90% probability, and the cheapest
//! plan for every score, together with the text helpers of the program.
pub mod combinatorics;
pub mod helpers;
pub mod pmf;
pub mod pmf_total;
pub mod pmf_monotone;
pub mod plan;
pub mod counting;
pub mod format;
pub mod format_laws;
pub mod progress;
pub mod io;
pub mod error;
pub mod cache;
