//! A Vickrey-Clarke-Groves (VCG) auction library.
//!
//! Given a stock of items and a collection of mutually-exclusive bid groups,
//! the highest-value feasible combination of bids is computed, along with the
//! payment each winning bidder must make. A payment is the harm the winner
//! causes to the other bidders: the value the others could have achieved
//! without the winner, minus the value the others achieve in the chosen
//! outcome.

pub mod laws;
pub mod lemmas;
pub mod model;
pub mod payments;
pub mod search;
pub mod types;
pub mod vcg;

pub use types::SimpleBid;
pub use vcg::vcg_auction;
pub use vcg::vcg_auction_with_tiebreaker;
pub use vcg::AuctionResult;
