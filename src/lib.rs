// A game client bootstrapper's core: the configuration parser, checksum
// comparison for cached files, and the decisions of the file synchronizer.
use vstd::prelude::*;

pub mod jav_config;
pub mod launch;
pub mod sync;
pub mod table;
pub mod text;

verus! {

} // verus!
