//! What holds of every text and every tree, proved from the grammar.
//!
//! `spelling` states the grammar once more, as the ways to write a tree, and
//! shows that a text is read as a program exactly where it is such a way.
//! `expressions` and `round_trip` draw from it what single operators,
//! literals, double negation and rendered trees are read as. `reading` holds
//! the lemmas on runs of whitespace and digits that the others share.
pub mod expressions;
pub mod reading;
pub mod round_trip;
pub mod spelling;
