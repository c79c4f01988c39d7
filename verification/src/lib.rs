//! A minimal peer-to-peer blockchain node engine.
//!
//! Peers exchange signed envelopes, propagate transactions and blocks, and
//! independently reconstruct an append-only chain of blocks.  Each block
//! snapshots a Merkle-trie-addressed transaction set and a ledger of account
//! balances derived by replaying transactions against the parent block's
//! ledger.

pub mod block;
pub mod clock;
pub mod codec;
pub mod errors;
pub mod keyvalue;
pub mod ledger;
pub mod merkle;
pub mod messages;
pub mod neighbors;
pub mod responses;
pub mod signature;
pub mod storekeys;
pub mod transactions;

use vstd::prelude::*;

verus! {

/// Mathematical model of the wrapping byte checksum: the sum of all bytes,
/// reduced modulo 2^32.
pub open spec fn checksum_spec(data: Seq<u8>) -> u32
    decreases data.len(),
{
    if data.len() == 0 {
        0u32
    } else {
        ((checksum_spec(data.drop_last()) + data.last()) % 0x1_0000_0000) as u32
    }
}

/// Wrapping sum of all bytes of `data`, reduced modulo 2^32.
pub fn checksum(data: &[u8]) -> (r: u32)
    ensures
        r == checksum_spec(data@),
{
    let mut s: u32 = 0;
    let mut i: usize = 0;
    while i < data.len()
        invariant
            i <= data@.len(),
            s == checksum_spec(data@.take(i as int)),
        decreases data@.len() - i,
    {
        proof {
            assert(data@.take(i + 1).drop_last() =~= data@.take(i as int));
            assert(data@.take(i + 1).last() == data@[i as int]);
        }
        s = s.wrapping_add(data[i] as u32);
        i = i + 1;
    }
    proof {
        assert(data@.take(data@.len() as int) =~= data@);
    }
    s
}

} // verus!
