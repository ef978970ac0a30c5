//! The confirmator: promotes Confirming payments once they are buried
//! deep enough, with reorg awareness.

use vstd::prelude::*;

use crate::model::{Error, InvoiceStatus, Payment, PaymentStatus, WebhookEvent, WebhookStatus};
use crate::store::Store;

verus! {

/// Whether the payment has accumulated the chain's required depth:
/// `last_processed_block >= block_number + required_confirmations`.
pub fn confirmation_due(store: &Store, payment: &Payment) -> (r: Result<bool, Error>)
    requires
        store.wf(),
    ensures
        match r {
            Ok(b) => {
                let c = store.chains@[store.chain_index(payment.network@)];
                &&& store.has_chain(payment.network@)
                &&& (b <==> c.last_processed_block >= payment.block_number
                    + c.required_confirmations)
            },
            Err(e) => e == Error::NotFound && !store.has_chain(payment.network@),
        },
{
    match store.get_chain(payment.network.as_str()) {
        Some(c) => {
            let target: u128 = payment.block_number as u128 + c.required_confirmations as u128;
            Ok(c.last_processed_block as u128 >= target)
        },
        None => Err(Error::NotFound),
    }
}

/// What one confirmator pass did with a payment.
#[derive(Debug, PartialEq)]
pub enum ConfirmOutcome {
    /// The node no longer reports the transaction: wait and retry later.
    TxUnverified,
    /// The transaction moved to another block; its row now carries the new
    /// block number and confirmation starts over.
    Reorged,
    /// The payment is Confirmed; `fully_paid` says whether the invoice is
    /// now settled in full.
    Confirmed { fully_paid: bool },
    /// The store refused the step.
    Failed { reason: Error },
}

/// Applies the node's verdict for a due payment: `actual_block` is what
/// `eth_getTransactionReceipt` reported for the payment's transaction.
/// On full settlement an InvoicePaid webhook is queued under `job_id` and
/// the invoice's address leaves the chain's watch-set; on a partial one a
/// TxConfirmed webhook is queued instead.
pub fn apply_confirmation(
    store: &mut Store,
    payment: &Payment,
    actual_block: Option<u64>,
    job_id: String,
    now: i64,
) -> (r: ConfirmOutcome)
    requires
        old(store).wf(),
    ensures
        final(store).wf(),
        match r {
            ConfirmOutcome::TxUnverified => actual_block is None && final(store).unchanged(
                *old(store),
            ),
            ConfirmOutcome::Reorged => {
                let k = old(store).payment_index(payment.id@);
                &&& actual_block is Some
                &&& actual_block->Some_0 != payment.block_number
                &&& old(store).has_payment(payment.id@)
                &&& final(store).payments@ == old(store).payments@.update(
                    k,
                    Payment { block_number: actual_block->Some_0, ..old(store).payments@[k] },
                )
                &&& final(store).chains@ == old(store).chains@
                &&& final(store).invoices@ == old(store).invoices@
                &&& final(store).webhooks@ == old(store).webhooks@
            },
            ConfirmOutcome::Confirmed { fully_paid } => {
                let k = old(store).payment_index(payment.id@);
                let p = old(store).payments@[k];
                let ii = old(store).invoice_index(p.invoice_id@);
                let inv = old(store).invoices@[ii];
                let new_paid = inv.paid_raw.as_nat() + p.amount_raw.as_nat();
                &&& actual_block == Some(payment.block_number)
                &&& old(store).has_payment(payment.id@)
                &&& p.status == PaymentStatus::Confirming
                &&& old(store).has_invoice(p.invoice_id@)
                &&& final(store).payments@ == old(store).payments@.update(
                    k,
                    Payment { status: PaymentStatus::Confirmed, ..p },
                )
                &&& (fully_paid <==> new_paid >= inv.amount_raw.as_nat())
                &&& final(store).invoices@[ii].paid_raw.as_nat() == new_paid
                &&& final(store).invoices@[ii].status == (if fully_paid && inv.status
                    == InvoiceStatus::Pending {
                    InvoiceStatus::Paid
                } else {
                    inv.status
                })
                &&& final(store).invoices@ == old(store).invoices@.update(
                    ii,
                    final(store).invoices@[ii],
                )
                &&& (!fully_paid ==> final(store).chains@ == old(store).chains@)
                &&& (fully_paid && !old(store).has_chain(payment.network@) ==> final(store).chains@ == old(store).chains@)
                &&& (fully_paid && old(store).has_chain(payment.network@) ==> (exists|ci: int|
                    0 <= ci < final(store).chains@.len() && (#[trigger] final(store).chains@[
                        ci
                    ]).name@ == payment.network@ && !crate::store::watch_contains(
                        final(store).chains@[ci],
                        crate::encoding::normalized(payment.to@),
                    )))
                &&& (!old(store).has_invoice(payment.invoice_id@) ==> final(store).webhooks@
                    == old(store).webhooks@)
                &&& (old(store).has_invoice(payment.invoice_id@) ==> {
                    let wi = old(store).invoice_index(payment.invoice_id@);
                    let wurl = old(store).invoices@[wi].webhook_url;
                    &&& (wurl is None ==> final(store).webhooks@ == old(store).webhooks@)
                    &&& (wurl is Some && old(store).has_webhook(job_id@) ==> final(store).webhooks@
                        == old(store).webhooks@)
                    &&& (wurl is Some && !old(store).has_webhook(job_id@) ==> {
                        let nw = final(store).webhooks@.last();
                        &&& final(store).webhooks@.len() == old(store).webhooks@.len() + 1
                        &&& final(store).webhooks@.drop_last() == old(store).webhooks@
                        &&& nw.id == job_id
                        &&& nw.invoice_id@ == payment.invoice_id@
                        &&& nw.url == wurl->Some_0
                        &&& nw.attempts == 0
                        &&& nw.max_retries == 10
                        &&& nw.status == WebhookStatus::Pending
                        &&& nw.next_retry == now
                        &&& (fully_paid ==> nw.payload == (WebhookEvent::InvoicePaid {
                            invoice_id: payment.invoice_id,
                            paid_amount: final(store).invoices@[wi].paid,
                        }))
                        &&& (!fully_paid ==> nw.payload == (WebhookEvent::TxConfirmed {
                            invoice_id: payment.invoice_id,
                            tx_hash: payment.tx_hash,
                            confirmations: if old(store).has_chain(payment.network@) {
                                old(store).chains@[old(store).chain_index(
                                    payment.network@,
                                )].required_confirmations
                            } else {
                                0u64
                            },
                        }))
                    })
                })
            },
            ConfirmOutcome::Failed { reason } => {
                &&& actual_block is Some
                &&& final(store).unchanged(*old(store))
                &&& (actual_block->Some_0 != payment.block_number ==> reason == Error::NotFound
                    && !old(store).has_payment(payment.id@))
                &&& (actual_block->Some_0 == payment.block_number ==> {
                    let k = old(store).payment_index(payment.id@);
                    let p = old(store).payments@[k];
                    ||| (reason == Error::NotFound && (!old(store).has_payment(payment.id@) || (
                    p.status == PaymentStatus::Confirming && !old(store).has_invoice(
                        p.invoice_id@,
                    ))))
                    ||| (reason == Error::BadInput && old(store).has_payment(payment.id@)
                        && p.status == PaymentStatus::Confirmed)
                    ||| (reason == Error::Storage && old(store).has_payment(payment.id@)
                        && p.status == PaymentStatus::Confirming && old(store).has_invoice(
                        p.invoice_id@,
                    ) && old(store).invoices@[old(store).invoice_index(
                        p.invoice_id@,
                    )].paid_raw.as_nat() + p.amount_raw.as_nat()
                        >= 0x1_0000_0000_0000_0000_0000_0000_0000_0000_0000_0000_0000_0000_0000_0000_0000_0000)
                })
            },
        },
{
    let actual = match actual_block {
        Some(a) => a,
        None => {
            return ConfirmOutcome::TxUnverified;
        },
    };
    if actual != payment.block_number {
        match store.update_payment_block(payment.id.as_str(), actual) {
            Ok(()) => {
                return ConfirmOutcome::Reorged;
            },
            Err(reason) => {
                return ConfirmOutcome::Failed { reason };
            },
        }
    }
    let fully_paid = match store.finalize_payment(payment.id.as_str()) {
        Ok(b) => b,
        Err(reason) => {
            return ConfirmOutcome::Failed { reason };
        },
    };
    let ghost mid = *store;
    if fully_paid {
        let paid_human = match store.get_invoice(payment.invoice_id.as_str()) {
            Some(inv) => inv.paid,
            None => String::new(),
        };
        let paid_event = WebhookEvent::InvoicePaid {
            invoice_id: payment.invoice_id.clone(),
            paid_amount: paid_human,
        };
        let _ = store.add_webhook_job(job_id, payment.invoice_id.as_str(), &paid_event, now);
        proof {
            if old(store).has_invoice(payment.invoice_id@) {
                let wi = old(store).invoice_index(payment.invoice_id@);
                crate::store::lemma_invoice_index_agrees(mid, wi, payment.invoice_id@);
            }
        }
        let removal = store.remove_watch_address(payment.network.as_str(), payment.to.as_str());
        proof {
            if old(store).has_chain(payment.network@) {
                assert(removal is Ok);
            } else {
                assert(removal is Err);
            }
        }
    } else {
        let confirmations = match store.get_chain(payment.network.as_str()) {
            Some(c) => c.required_confirmations,
            None => 0,
        };
        let confirmed_event = WebhookEvent::TxConfirmed {
            invoice_id: payment.invoice_id.clone(),
            tx_hash: payment.tx_hash.clone(),
            confirmations,
        };
        proof {
            if old(store).has_invoice(payment.invoice_id@) {
                let wi = old(store).invoice_index(payment.invoice_id@);
                crate::store::lemma_invoice_index_agrees(mid, wi, payment.invoice_id@);
            }
            if old(store).has_chain(payment.network@) {
                crate::store::lemma_chain_index_agrees(
                    *store,
                    old(store).chain_index(payment.network@),
                    payment.network@,
                );
            }
        }
        let _ = store.add_webhook_job(job_id, payment.invoice_id.as_str(), &confirmed_event, now);
    }
    ConfirmOutcome::Confirmed { fully_paid }
}

} // verus!
