//! Ticket indexing and itinerary search.
//!
//! Tickets are kept in a key-value layout with two derived indices, and a
//! search composes direct and one-transfer itineraries, ranked by price.

pub mod date;
pub mod decimal;
pub mod error;
pub mod guarantees;
pub mod handlers;
pub mod index;
pub mod keys;
pub mod plan;
pub mod ranking;
pub mod search;
pub mod seqs;
pub mod store;
pub mod tickets;
