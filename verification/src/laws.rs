//! The store-wide laws, stated on their own: each holds of every
//! well-formed store, and every store operation returns a well-formed
//! store.

use vstd::prelude::*;

use crate::model::InvoiceStatus;
use crate::store::{sum_confirmed, Store};

verus! {

/// At most one Pending invoice per `(chain, address)`: two Pending
/// invoices of one chain at one address are the same row.
pub proof fn lemma_at_most_one_pending_per_address(s: Store, i: int, j: int)
    requires
        s.wf(),
        0 <= i < s.invoices@.len(),
        0 <= j < s.invoices@.len(),
        s.invoices@[i].status == InvoiceStatus::Pending,
        s.invoices@[j].status == InvoiceStatus::Pending,
        s.invoices@[i].network@ == s.invoices@[j].network@,
        s.invoices@[i].address@ == s.invoices@[j].address@,
    ensures
        i == j,
{
}

/// Every invoice's `paid_raw` is exactly the sum of the Confirmed
/// payments credited to it.
pub proof fn lemma_paid_is_sum_of_confirmed(s: Store, i: int)
    requires
        s.wf(),
        0 <= i < s.invoices@.len(),
    ensures
        s.invoices@[i].paid_raw.as_nat() == sum_confirmed(s.payments@, s.invoices@[i].id@),
{
}

/// Repeating a payment attempt cannot produce a second row: two payments
/// with the same `(invoice_id, tx_hash, log_index)` are the same row.
pub proof fn lemma_payment_attempt_idempotent(s: Store, i: int, j: int)
    requires
        s.wf(),
        0 <= i < s.payments@.len(),
        0 <= j < s.payments@.len(),
        s.payments@[i].invoice_id@ == s.payments@[j].invoice_id@,
        s.payments@[i].tx_hash@ == s.payments@[j].tx_hash@,
        s.payments@[i].log_index == s.payments@[j].log_index,
    ensures
        i == j,
{
}

} // verus!

