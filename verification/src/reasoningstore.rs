//! Rules and triple patterns over named nodes and variables, with prefixes
//! expanded, as the N3 rule reader produces them.
pub mod triple;
pub mod rule;
