//! A decision engine for a two-player grid puzzle: players alternately cross
//! out a cell or write a numbered guess into an empty one, under row/column
//! uniqueness; completed lines award their guess count to whoever guessed it.
//! The crate holds the verified rules engine (legality, automatic cascading
//! elimination, scoring) and a Monte Carlo tree search driver over it.

pub mod bot;
pub mod game;
pub mod rules;
pub mod scoring;
pub mod search;
pub mod select;
pub mod tally;
