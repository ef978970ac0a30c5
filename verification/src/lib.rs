//! Core of a self-hosted cryptocurrency payment gateway: exact 256-bit
//! amounts, the invoice/payment/webhook store with its invariants, the
//! per-chain block-ingestion logic, payment confirmation with reorg
//! awareness, invoice expiry, and HMAC-signed webhook dispatch planning.

use vstd::prelude::*;

pub mod amount;
pub mod confirm;
pub mod derive;
pub mod encoding;
pub mod ids;
pub mod ingest;
pub mod janitor;
pub mod laws;
pub mod model;
pub mod store;
pub mod watcher;
pub mod webhook;

verus! {

/// Smallest index not occupied by any entry of `busy`; `None` only when
/// every index is occupied.
pub fn min_free_index(busy: &Vec<u32>) -> (r: Option<u32>)
    ensures
        match r {
            Some(v) => !busy@.contains(v) && (forall|k: u32| k < v ==> busy@.contains(k)),
            None => forall|k: u32| busy@.contains(k),
        },
{
    let mut i: u32 = 0;
    loop
        invariant
            forall|k: u32| k < i ==> busy@.contains(k),
        decreases u32::MAX - i,
    {
        let mut found = false;
        let mut j: usize = 0;
        while j < busy.len()
            invariant
                j <= busy@.len(),
                found <==> exists|m: int| 0 <= m < j && busy@[m] == i,
            decreases busy@.len() - j,
        {
            if busy[j] == i {
                found = true;
            }
            j += 1;
        }
        if !found {
            assert(!busy@.contains(i));
            return Some(i);
        }
        assert(busy@.contains(i));
        if i == u32::MAX {
            proof {
                assert forall|k: u32| busy@.contains(k) by {
                    if k < u32::MAX {
                    } else {
                        assert(k == u32::MAX);
                    }
                }
            }
            return None;
        }
        i += 1;
    }
}

} // verus!
