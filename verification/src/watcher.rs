//! The watcher: correlates one payment event to its Pending invoice and
//! records the payment attempt, announcing fresh detections.

use vstd::prelude::*;

use crate::model::{Error, PaymentEvent, PaymentStatus, WebhookEvent, WebhookStatus};
use crate::store::Store;

verus! {

/// What became of one payment event.
#[derive(Debug, PartialEq)]
pub enum WatchOutcome {
    /// No Pending invoice at the event's `(network, to)`: the event is
    /// dropped.
    NoPendingInvoice,
    /// The invoice at that address awaits a different token: dropped.
    AssetMismatch,
    /// The payment attempt is recorded; `inserted` is false when the same
    /// transfer was already on file and only its block number moved.
    Recorded { invoice_id: String, inserted: bool },
    /// The store refused the payment attempt.
    Rejected { reason: Error },
}

/// Handles one event from the ingestion channel: finds the Pending invoice
/// for the event's receiving address, checks the asset, records the
/// payment attempt under `payment_id`, and on a fresh detection queues a
/// TxDetected webhook under `job_id`.
pub fn process_payment_event(
    store: &mut Store,
    event: &PaymentEvent,
    payment_id: String,
    job_id: String,
    now: i64,
) -> (r: WatchOutcome)
    requires
        old(store).wf(),
    ensures
        final(store).wf(),
        final(store).chains@ == old(store).chains@,
        final(store).invoices@ == old(store).invoices@,
        match r {
            WatchOutcome::NoPendingInvoice => !old(store).has_pending_at(
                event.network@,
                crate::encoding::normalized(event.to@),
            ) && final(store).unchanged(*old(store)),
            WatchOutcome::AssetMismatch => {
                let inv = old(store).invoices@[old(store).pending_index_at(
                    event.network@,
                    crate::encoding::normalized(event.to@),
                )];
                &&& old(store).has_pending_at(
                    event.network@,
                    crate::encoding::normalized(event.to@),
                )
                &&& inv.token@ != event.token@
                &&& final(store).unchanged(*old(store))
            },
            WatchOutcome::Rejected { reason } => {
                let inv = old(store).invoices@[old(store).pending_index_at(
                    event.network@,
                    crate::encoding::normalized(event.to@),
                )];
                &&& reason == Error::DuplicateId
                &&& old(store).has_pending_at(
                    event.network@,
                    crate::encoding::normalized(event.to@),
                )
                &&& inv.token@ == event.token@
                &&& !old(store).has_payment_key(inv.id@, event.tx_hash@, event.log_index)
                &&& old(store).has_payment(payment_id@)
                &&& final(store).unchanged(*old(store))
            },
            WatchOutcome::Recorded { invoice_id, inserted } => {
                let inv = old(store).invoices@[old(store).pending_index_at(
                    event.network@,
                    crate::encoding::normalized(event.to@),
                )];
                &&& old(store).has_pending_at(
                    event.network@,
                    crate::encoding::normalized(event.to@),
                )
                &&& inv.token@ == event.token@
                &&& invoice_id == inv.id
                &&& (!inserted ==> {
                    let k = old(store).payment_key_index(
                        inv.id@,
                        event.tx_hash@,
                        event.log_index,
                    );
                    &&& old(store).has_payment_key(inv.id@, event.tx_hash@, event.log_index)
                    &&& final(store).payments@ == old(store).payments@.update(
                        k,
                        crate::model::Payment {
                            block_number: event.block_number,
                            ..old(store).payments@[k]
                        },
                    )
                    &&& final(store).webhooks@ == old(store).webhooks@
                })
                &&& (inserted ==> {
                    let np = final(store).payments@.last();
                    &&& !old(store).has_payment_key(inv.id@, event.tx_hash@, event.log_index)
                    &&& final(store).payments@.len() == old(store).payments@.len() + 1
                    &&& final(store).payments@.drop_last() == old(store).payments@
                    &&& np.id == payment_id
                    &&& np.invoice_id@ == inv.id@
                    &&& np.from@ == event.from@
                    &&& np.to@ == event.to@
                    &&& np.network@ == event.network@
                    &&& np.tx_hash@ == event.tx_hash@
                    &&& np.log_index == event.log_index
                    &&& np.amount_raw == event.amount_raw
                    &&& np.block_number == event.block_number
                    &&& np.status == PaymentStatus::Confirming
                    &&& np.created_at == now
                    &&& (inv.webhook_url is None ==> final(store).webhooks@ == old(store).webhooks@)
                    &&& (inv.webhook_url is Some && old(store).has_webhook(job_id@) ==> final(store).webhooks@ == old(store).webhooks@)
                    &&& (inv.webhook_url is Some && !old(store).has_webhook(job_id@) ==> {
                        let nw = final(store).webhooks@.last();
                        &&& final(store).webhooks@.len() == old(store).webhooks@.len() + 1
                        &&& final(store).webhooks@.drop_last() == old(store).webhooks@
                        &&& nw.id == job_id
                        &&& nw.invoice_id@ == inv.id@
                        &&& nw.url == inv.webhook_url->Some_0
                        &&& nw.attempts == 0
                        &&& nw.max_retries == 10
                        &&& nw.status == WebhookStatus::Pending
                        &&& nw.next_retry == now
                        &&& nw.payload == (WebhookEvent::TxDetected {
                            invoice_id: inv.id,
                            tx_hash: event.tx_hash,
                            amount: event.amount,
                            currency: event.token,
                        })
                    })
                })
            },
        },
{
    let invoice = match store.get_pending_invoice_by_address(
        event.network.as_str(),
        event.to.as_str(),
    ) {
        Some(inv) => inv,
        None => {
            return WatchOutcome::NoPendingInvoice;
        },
    };
    if !crate::encoding::str_eq(event.token.as_str(), invoice.token.as_str()) {
        return WatchOutcome::AssetMismatch;
    }
    let inserted = match store.add_payment_attempt(
        payment_id,
        invoice.id.as_str(),
        event.from.as_str(),
        event.to.as_str(),
        event.tx_hash.as_str(),
        event.amount_raw,
        event.block_number,
        event.network.as_str(),
        event.log_index,
        now,
    ) {
        Ok(b) => b,
        Err(reason) => {
            return WatchOutcome::Rejected { reason };
        },
    };
    if inserted {
        let detected = WebhookEvent::TxDetected {
            invoice_id: invoice.id.clone(),
            tx_hash: event.tx_hash.clone(),
            amount: event.amount.clone(),
            currency: event.token.clone(),
        };
        let _ = store.add_webhook_job(job_id, invoice.id.as_str(), &detected, now);
    }
    WatchOutcome::Recorded { invoice_id: invoice.id, inserted }
}

} // verus!
