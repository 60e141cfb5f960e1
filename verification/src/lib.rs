use vstd::prelude::*;

pub mod text;
pub mod encoding;
pub mod triples;
pub mod parser;
pub mod reasoningstore;
pub mod n3_parser;
pub mod utils;
pub mod rsp;
pub mod bindings;
pub mod tripleindex;
pub mod ruleindex;
pub mod reasoner;
pub mod store;
pub mod backwardchaining;
pub mod observer;
pub mod imars_window;
pub mod time_window;
pub mod csprite;
pub mod dred;
pub mod closure;
pub mod instances;
pub mod pipeline;
pub mod sparql;
pub mod sparql_syntax;

verus! {
} // verus!
