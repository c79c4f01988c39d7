//! The distinguished keys of the key-value store.
//!
//! These byte strings must be reproduced exactly: they are the store keys the
//! node uses for its secret key, the federation co-signing key, the chain tip
//! pointer, and the peer registry.

use vstd::prelude::*;

verus! {

/// The bytes of the store key `"secret_key"`.
pub open spec fn key_secret() -> Seq<u8> {
    seq![115u8, 101u8, 99u8, 114u8, 101u8, 116u8, 95u8, 107u8, 101u8, 121u8]
}

/// Returns the store key `"secret_key"`.
pub fn key_secret_bytes() -> (r: Vec<u8>)
    ensures
        r@ == key_secret(),
{
    let mut r: Vec<u8> = Vec::new();
    r.push(115u8);  // 's'
    r.push(101u8);  // 'e'
    r.push(99u8);  // 'c'
    r.push(114u8);  // 'r'
    r.push(101u8);  // 'e'
    r.push(116u8);  // 't'
    r.push(95u8);  // '_'
    r.push(107u8);  // 'k'
    r.push(101u8);  // 'e'
    r.push(121u8);  // 'y'
    proof {
        assert(r@ =~= key_secret());
    }
    r
}

/// The bytes of the store key `"federated_secret_key"`.
pub open spec fn key_federated() -> Seq<u8> {
    seq![102u8, 101u8, 100u8, 101u8, 114u8, 97u8, 116u8, 101u8, 100u8, 95u8, 115u8, 101u8, 99u8, 114u8, 101u8, 116u8, 95u8, 107u8, 101u8, 121u8]
}

/// Returns the store key `"federated_secret_key"`.
pub fn key_federated_bytes() -> (r: Vec<u8>)
    ensures
        r@ == key_federated(),
{
    let mut r: Vec<u8> = Vec::new();
    r.push(102u8);  // 'f'
    r.push(101u8);  // 'e'
    r.push(100u8);  // 'd'
    r.push(101u8);  // 'e'
    r.push(114u8);  // 'r'
    r.push(97u8);  // 'a'
    r.push(116u8);  // 't'
    r.push(101u8);  // 'e'
    r.push(100u8);  // 'd'
    r.push(95u8);  // '_'
    r.push(115u8);  // 's'
    r.push(101u8);  // 'e'
    r.push(99u8);  // 'c'
    r.push(114u8);  // 'r'
    r.push(101u8);  // 'e'
    r.push(116u8);  // 't'
    r.push(95u8);  // '_'
    r.push(107u8);  // 'k'
    r.push(101u8);  // 'e'
    r.push(121u8);  // 'y'
    proof {
        assert(r@ =~= key_federated());
    }
    r
}

/// The bytes of the store key `"last_block_header"`.
pub open spec fn key_last_header() -> Seq<u8> {
    seq![108u8, 97u8, 115u8, 116u8, 95u8, 98u8, 108u8, 111u8, 99u8, 107u8, 95u8, 104u8, 101u8, 97u8, 100u8, 101u8, 114u8]
}

/// Returns the store key `"last_block_header"`.
pub fn key_last_header_bytes() -> (r: Vec<u8>)
    ensures
        r@ == key_last_header(),
{
    let mut r: Vec<u8> = Vec::new();
    r.push(108u8);  // 'l'
    r.push(97u8);  // 'a'
    r.push(115u8);  // 's'
    r.push(116u8);  // 't'
    r.push(95u8);  // '_'
    r.push(98u8);  // 'b'
    r.push(108u8);  // 'l'
    r.push(111u8);  // 'o'
    r.push(99u8);  // 'c'
    r.push(107u8);  // 'k'
    r.push(95u8);  // '_'
    r.push(104u8);  // 'h'
    r.push(101u8);  // 'e'
    r.push(97u8);  // 'a'
    r.push(100u8);  // 'd'
    r.push(101u8);  // 'e'
    r.push(114u8);  // 'r'
    proof {
        assert(r@ =~= key_last_header());
    }
    r
}

/// The bytes of the store key `"neighbors"`.
pub open spec fn key_neighbors() -> Seq<u8> {
    seq![110u8, 101u8, 105u8, 103u8, 104u8, 98u8, 111u8, 114u8, 115u8]
}

/// Returns the store key `"neighbors"`.
pub fn key_neighbors_bytes() -> (r: Vec<u8>)
    ensures
        r@ == key_neighbors(),
{
    let mut r: Vec<u8> = Vec::new();
    r.push(110u8);  // 'n'
    r.push(101u8);  // 'e'
    r.push(105u8);  // 'i'
    r.push(103u8);  // 'g'
    r.push(104u8);  // 'h'
    r.push(98u8);  // 'b'
    r.push(111u8);  // 'o'
    r.push(114u8);  // 'r'
    r.push(115u8);  // 's'
    proof {
        assert(r@ =~= key_neighbors());
    }
    r
}

} // verus!
