//! A cross-consensus message engine: programs of instructions that move assets,
//! buy execution, dispatch calls and negotiate message versions between systems.

pub mod weight;
pub mod assets;
pub mod location;
pub mod ledger;
pub mod traps;
pub mod versions;
pub mod program;
pub mod executor;
pub mod pallet;
pub mod codec;
