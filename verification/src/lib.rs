use vstd::prelude::*;

pub mod text;
pub mod snapshot;
pub mod content;
pub mod redaction;
pub mod env;
pub mod output;
pub mod utils;
pub mod paths;
pub mod tokenstream;
pub mod runtime;
pub mod filters;
pub mod settings;
pub mod serialization;
pub mod snapfile;
pub mod pending;
pub mod diff;
pub mod globbing;

verus! {

} // verus!
