//! A proof-of-work blockchain node core: a domain-certificate registry with
//! validated create/modify/delete operations and a reverse IP index, together
//! with the sealing codec, difficulty test, verifier and miner of the
//! proof-of-work consensus engine.

pub mod pow;
pub mod registry;
pub mod reward;
pub mod rpc;
pub mod util;
pub mod validation;
pub mod worker;
