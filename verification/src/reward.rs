//! The reward hook: after a block's transactions are applied, the collected
//! fees go to the account named in the block's proof-of-work digest. The
//! account is read here from the header's digest items; if no item names a
//! miner, the fees stay unallocated, which is not an error.

use vstd::prelude::*;

verus! {

/// One digest item of a block header: a pre-runtime item tagged with a
/// four-byte engine identifier, or anything else.
pub enum DigestItem {
    PreRuntime(Vec<u8>, Vec<u8>),
    Other(Vec<u8>),
}

/// The engine identifier of proof-of-work pre-runtime digests: `pow_`.
pub open spec fn pow_engine_id() -> Seq<u8> {
    seq![112u8, 111u8, 119u8, 95u8]
}

/// Whether a digest item carries a miner account: a pre-runtime item under
/// the proof-of-work engine whose data holds a 64-bit account identifier.
pub open spec fn names_miner(item: DigestItem) -> bool {
    match item {
        DigestItem::PreRuntime(engine, data) => engine@ == pow_engine_id() && data@.len() >= 8,
        DigestItem::Other(_) => false,
    }
}

/// The account a digest item names: the little-endian identifier at the head
/// of its data.
pub open spec fn miner_of(item: DigestItem) -> u64 {
    match item {
        DigestItem::PreRuntime(_, data) => vstd::bytes::spec_u64_from_le_bytes(
            data@.subrange(0, 8),
        ),
        DigestItem::Other(_) => 0,
    }
}

/// The miner named by the first digest item that names one, if any. Items
/// under the proof-of-work engine whose data is too short to decode are
/// skipped, as are all other items.
pub open spec fn spec_block_miner(logs: Seq<DigestItem>) -> Option<u64>
    decreases logs.len(),
{
    if logs.len() == 0 {
        None
    } else if names_miner(logs[0]) {
        Some(miner_of(logs[0]))
    } else {
        spec_block_miner(logs.drop_first())
    }
}

proof fn lemma_block_miner_at(logs: Seq<DigestItem>, i: int)
    requires
        0 <= i < logs.len(),
        names_miner(logs[i]),
        forall|j: int| 0 <= j < i ==> !names_miner(logs[j]),
    ensures
        spec_block_miner(logs) == Some(miner_of(logs[i])),
    decreases logs.len(),
{
    if i > 0 {
        lemma_block_miner_at(logs.drop_first(), i - 1);
    }
}

proof fn lemma_block_miner_none(logs: Seq<DigestItem>)
    requires
        forall|j: int| 0 <= j < logs.len() ==> !names_miner(logs[j]),
    ensures
        spec_block_miner(logs) is None,
    decreases logs.len(),
{
    if logs.len() > 0 {
        lemma_block_miner_none(logs.drop_first());
    }
}

/// Whether a slice begins with the proof-of-work engine identifier and is
/// exactly it.
fn is_pow_engine(engine: &[u8]) -> (r: bool)
    ensures
        r == (engine@ == pow_engine_id()),
{
    let r = engine.len() == 4 && engine[0] == 112 && engine[1] == 111 && engine[2] == 119
        && engine[3] == 95;
    proof {
        if r {
            assert(engine@ =~= pow_engine_id());
        }
        if engine@ == pow_engine_id() {
            assert(engine@.len() == 4);
            assert(engine@[0] == 112 && engine@[1] == 111 && engine@[2] == 119 && engine@[3] == 95);
        }
    }
    r
}

/// The account to credit a block's fees to: the miner named by the first
/// proof-of-work pre-runtime item of the header's digest, or nobody.
pub fn get_block_miner(digest: &Vec<DigestItem>) -> (r: Option<u64>)
    ensures
        r == spec_block_miner(digest@),
{
    let mut i: usize = 0;
    while i < digest.len()
        invariant
            i <= digest@.len(),
            forall|j: int| 0 <= j < i ==> !names_miner(digest@[j]),
        decreases digest@.len() - i,
    {
        match &digest[i] {
            DigestItem::PreRuntime(engine, data) => {
                if is_pow_engine(engine.as_slice()) && data.len() >= 8 {
                    let id = vstd::bytes::u64_from_le_bytes(
                        crate::util::slice_subrange_u8(data.as_slice(), 0, 8),
                    );
                    proof {
                        lemma_block_miner_at(digest@, i as int);
                    }
                    return Some(id);
                }
            },
            DigestItem::Other(_) => {},
        }
        i = i + 1;
    }
    proof {
        lemma_block_miner_none(digest@);
    }
    None
}

} // verus!
