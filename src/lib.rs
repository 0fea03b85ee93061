//! A proof-of-work gated HTTP front end: Cuckoo Cycle puzzles keyed to
//! server-issued challenge tokens, a solver and a verifier for them, and a
//! streaming reader that frames requests off a connection.
use vstd::prelude::*;

pub mod cuckoo;
pub mod http_read;
pub mod http_server;
pub mod simple_miner;

verus! {

} // verus!
