//! The decisions of the mining worker. The worker loop polls a shared cell
//! holding the current candidate block; each round it snapshots the cell,
//! tries a bounded number of nonces, and submits any seal it finds. The
//! decision of one round lives here; the thread, the lock and the sleep are
//! the embedder's.

use vstd::prelude::*;

use crate::pow::mine;
use crate::pow::spec_verify;
use crate::pow::u256_val;
use crate::pow::H256;
use crate::pow::U256;
use crate::util::bytes_vec_eq;

verus! {

/// The current work of the miner: the best known parent, the pre-hash of the
/// candidate block, its optional pre-runtime digest, and the difficulty to
/// meet.
pub struct MiningMetadata {
    pub best_hash: H256,
    pub pre_hash: H256,
    pub pre_runtime: Option<Vec<u8>>,
    pub difficulty: U256,
}

/// What one round of mining decided: there was no candidate to mine, a seal
/// was found and should be submitted, or the attempt budget ran out.
pub enum MinerStep {
    NoWork,
    Found(Vec<u8>),
    Exhausted,
}

/// One round of the mining loop over a snapshot of the metadata cell: with no
/// candidate the worker should sleep; otherwise it tries `round` nonces and
/// hands back a seal that verifies against the snapshot's pre-hash and
/// difficulty, if one is found.
pub fn mining_step(meta: &Option<MiningMetadata>, round: u32) -> (r: MinerStep)
    requires
        meta is Some ==> meta->0.pre_hash@.len() == 32,
    ensures
        (meta is None) == (r is NoWork),
        r is Found ==> meta is Some && spec_verify(
            meta->0.pre_hash@,
            meta->0.difficulty,
            r->Found_0@,
        ),
        meta is Some && round > 0 && u256_val(meta->0.difficulty) == 0 ==> r is Found,
{
    match meta {
        None => MinerStep::NoWork,
        Some(m) => match mine(&m.pre_hash, m.difficulty, round) {
            Some(seal) => MinerStep::Found(seal),
            None => MinerStep::Exhausted,
        },
    }
}

/// Whether a mined seal still belongs to the current candidate: the parent it
/// was mined against must be the best hash of the metadata now in the cell. A
/// stale solution is dropped silently, never submitted.
pub fn submission_is_current(meta: &Option<MiningMetadata>, mined_against: &H256) -> (r: bool)
    ensures
        r == (meta is Some && meta->0.best_hash@ == mined_against@),
{
    match meta {
        None => false,
        Some(m) => bytes_vec_eq(&m.best_hash.bytes, &mined_against.bytes),
    }
}

} // verus!
