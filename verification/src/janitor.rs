//! The janitor: expires Pending invoices past their deadline, announces
//! each expiry, and retires the dead addresses from the watch-sets.

use vstd::prelude::*;

use crate::encoding::normalized;
use crate::ids::new_uuid;
use crate::model::{InvoiceStatus, WebhookEvent, WebhookStatus};
use crate::store::{
    chain_same_but_watch, expiring, lemma_expiring_from, lemma_invoice_index_agrees,
    lemma_watch_shrinks, should_expire, watch_contains, Store,
};

verus! {

/// One janitor pass at time `now`: every Pending invoice with
/// `expires_at <= now` becomes Expired and is returned as an
/// `(id, network, address)` triple; an InvoiceExpired webhook is queued
/// for each, and each expired address leaves its chain's watch-set.
///
/// The `k`-th expiry's webhook job gets the id `job_ids[k]`; the caller
/// hands in at least as many ids as there are Pending invoices (a fresh
/// one is drawn for any expiry past the end of the batch, best effort).
/// When the batch is long enough, pairwise distinct, and free of ids
/// already queued, one InvoiceExpired job is guaranteed per expired
/// invoice that carries a webhook URL.
pub fn janitor_tick(store: &mut Store, now: i64, job_ids: &Vec<String>) -> (r: Vec<
    (String, String, String),
>)
    requires
        old(store).wf(),
    ensures
        final(store).wf(),
        final(store).payments@ == old(store).payments@,
        final(store).invoices@.len() == old(store).invoices@.len(),
        forall|i: int|
            0 <= i < old(store).invoices@.len() ==> final(store).invoices@[i] == (if should_expire(
                old(store).invoices@[i],
                now,
            ) {
                crate::model::Invoice {
                    status: InvoiceStatus::Expired,
                    ..old(store).invoices@[i]
                }
            } else {
                old(store).invoices@[i]
            }),
        r@.len() == expiring(old(store).invoices@, now).len(),
        forall|k: int|
            0 <= k < r@.len() ==> (#[trigger] r@[k]).0 == expiring(old(store).invoices@, now)[k].id
                && r@[k].1 == expiring(old(store).invoices@, now)[k].network && r@[k].2 == expiring(
                old(store).invoices@,
                now,
            )[k].address,
        final(store).chains@.len() == old(store).chains@.len(),
        forall|c: int|
            0 <= c < old(store).chains@.len() ==> chain_same_but_watch(
                #[trigger] final(store).chains@[c],
                old(store).chains@[c],
            ),
        forall|k: int, c: int|
            0 <= k < r@.len() && 0 <= c < final(store).chains@.len() && (#[trigger] final(store).chains@[c]).name@ == (#[trigger] r@[k]).1@ ==> !watch_contains(
                final(store).chains@[c],
                normalized(r@[k].2@),
            ),
        final(store).webhooks@.len() >= old(store).webhooks@.len(),
        final(store).webhooks@.subrange(0, old(store).webhooks@.len() as int) == old(store).webhooks@,
        forall|j: int|
            old(store).webhooks@.len() <= j < final(store).webhooks@.len() ==> (#[trigger] final(store).webhooks@[j]).status == WebhookStatus::Pending && (final(store).webhooks@[
                j
            ].payload matches WebhookEvent::InvoiceExpired { .. }) && (exists|k: int|
                0 <= k < r@.len() && final(store).webhooks@[j].invoice_id@ == (#[trigger] r@[k]).0@),
        (job_ids@.len() >= expiring(old(store).invoices@, now).len() && (forall|a: int, b: int|
            0 <= a < b < job_ids@.len() ==> (#[trigger] job_ids@[a])@ != (#[trigger] job_ids@[b])@)
            && (forall|a: int|
            0 <= a < job_ids@.len() ==> !old(store).has_webhook(
                (#[trigger] job_ids@[a])@,
            ))) ==> (forall|k: int|
            0 <= k < r@.len() && (#[trigger] expiring(old(store).invoices@, now)[k]).webhook_url
                is Some ==> (exists|x: int|
                old(store).webhooks@.len() <= x < final(store).webhooks@.len() && (#[trigger] final(store).webhooks@[x]).id == job_ids@[k] && final(store).webhooks@[x].invoice_id@
                    == expiring(old(store).invoices@, now)[k].id@ && final(store).webhooks@[
                    x
                ].payload == (WebhookEvent::InvoiceExpired {
                    invoice_id: expiring(old(store).invoices@, now)[k].id,
                }) && final(store).webhooks@[x].status == WebhookStatus::Pending && final(store).webhooks@[x].url == expiring(old(store).invoices@, now)[k].webhook_url->Some_0
                    && final(store).webhooks@[x].next_retry == now)),
    {
        let ghost orig0 = *old(store);
        let ghost exp = expiring(old(store).invoices@, now);
        let expired = store.expire_old_invoices(now);
        let ghost mid = *store;
        let ghost clean = job_ids@.len() >= exp.len() && (forall|a: int, b: int|
            0 <= a < b < job_ids@.len() ==> (#[trigger] job_ids@[a])@ != (#[trigger] job_ids@[b])@)
            && (forall|a: int|
            0 <= a < job_ids@.len() ==> !orig0.has_webhook((#[trigger] job_ids@[a])@));
        let mut k: usize = 0;
        while k < expired.len()
            invariant
                store.wf(),
                orig0 == *old(store),
                mid.webhooks@ == orig0.webhooks@,
                exp == expiring(orig0.invoices@, now),
                expired@.len() == exp.len(),
                forall|kk: int|
                    0 <= kk < expired@.len() ==> (#[trigger] expired@[kk]).0 == exp[kk].id
                        && expired@[kk].1 == exp[kk].network && expired@[kk].2 == exp[kk].address,
                clean == (job_ids@.len() >= exp.len() && (forall|a: int, b: int|
                    0 <= a < b < job_ids@.len() ==> (#[trigger] job_ids@[a])@ != (
                    #[trigger] job_ids@[b])@) && (forall|a: int|
                    0 <= a < job_ids@.len() ==> !orig0.has_webhook((#[trigger] job_ids@[a])@))),
                k <= expired@.len(),
                mid.invoices@.len() == orig0.invoices@.len(),
                forall|i: int|
                    0 <= i < orig0.invoices@.len() ==> mid.invoices@[i] == (if should_expire(
                        orig0.invoices@[i],
                        now,
                    ) {
                        crate::model::Invoice {
                            status: InvoiceStatus::Expired,
                            ..orig0.invoices@[i]
                        }
                    } else {
                        orig0.invoices@[i]
                    }),
                store.invoices@ == mid.invoices@,
                store.payments@ == mid.payments@,
                store.chains@.len() == mid.chains@.len(),
                forall|c: int|
                    0 <= c < mid.chains@.len() ==> chain_same_but_watch(
                        #[trigger] store.chains@[c],
                        mid.chains@[c],
                    ),
                forall|kk: int, c: int|
                    0 <= kk < k && 0 <= c < store.chains@.len() && (#[trigger] store.chains@[c]).name@
                        == (#[trigger] expired@[kk]).1@ ==> !watch_contains(
                        store.chains@[c],
                        normalized(expired@[kk].2@),
                    ),
                store.webhooks@.len() >= mid.webhooks@.len(),
                store.webhooks@.subrange(0, mid.webhooks@.len() as int) == mid.webhooks@,
                forall|j: int|
                    mid.webhooks@.len() <= j < store.webhooks@.len() ==> (#[trigger] store.webhooks@[
                        j
                    ]).status == WebhookStatus::Pending && (store.webhooks@[
                        j
                    ].payload matches WebhookEvent::InvoiceExpired { .. }) && (exists|kk: int|
                        0 <= kk < expired@.len() && store.webhooks@[j].invoice_id@
                            == (#[trigger] expired@[kk]).0@),
                clean ==> (forall|x: int|
                    mid.webhooks@.len() <= x < store.webhooks@.len() ==> (exists|kk: int|
                        0 <= kk < k && (#[trigger] store.webhooks@[x]).id@ == job_ids@[kk]@)),
                clean ==> (forall|kk: int|
                    0 <= kk < k && (#[trigger] exp[kk]).webhook_url is Some ==> (exists|x: int|
                        mid.webhooks@.len() <= x < store.webhooks@.len() && (#[trigger] store.webhooks@[
                            x
                        ]).id == job_ids@[kk] && store.webhooks@[x].invoice_id@ == exp[kk].id@
                            && store.webhooks@[x].payload == (WebhookEvent::InvoiceExpired {
                            invoice_id: exp[kk].id,
                        }) && store.webhooks@[x].status == WebhookStatus::Pending
                            && store.webhooks@[x].url == exp[kk].webhook_url->Some_0
                            && store.webhooks@[x].next_retry == now)),
            decreases expired@.len() - k,
        {
            let job_id = if k < job_ids.len() {
                job_ids[k].clone()
            } else {
                new_uuid()
            };
            proof {
                if clean {
                    assert(k < job_ids@.len());
                    assert(job_id == job_ids@[k as int]);
                }
            }
            let ghost pre_add = *store;
            let event = WebhookEvent::InvoiceExpired { invoice_id: expired[k].0.clone() };
            let added = store.add_webhook_job(job_id, expired[k].0.as_str(), &event, now);
            proof {
                assert(store.webhooks@.subrange(0, mid.webhooks@.len() as int) =~= mid.webhooks@);
                if clean {
                    lemma_expiring_from(orig0.invoices@, now);
                    let i = choose|i: int|
                        0 <= i < orig0.invoices@.len() && orig0.invoices@[i] == exp[k as int]
                            && should_expire(orig0.invoices@[i], now);
                    assert(pre_add.invoices@[i] == (crate::model::Invoice {
                        status: InvoiceStatus::Expired,
                        ..orig0.invoices@[i]
                    }));
                    assert(pre_add.invoices@[i].id@ == expired@[k as int].0@);
                    assert(pre_add.has_invoice(expired@[k as int].0@));
                    lemma_invoice_index_agrees(pre_add, i, expired@[k as int].0@);
                    assert(!pre_add.has_webhook(job_ids@[k as int]@)) by {
                        if pre_add.has_webhook(job_ids@[k as int]@) {
                            let x = choose|x: int|
                                0 <= x < pre_add.webhooks@.len() && pre_add.webhooks@[x].id@
                                    == job_ids@[k as int]@;
                            if x < mid.webhooks@.len() {
                                assert(pre_add.webhooks@[x] == orig0.webhooks@[x]);
                                assert(orig0.has_webhook(job_ids@[k as int]@));
                            } else {
                                let kk = choose|kk: int|
                                    0 <= kk < k && (#[trigger] pre_add.webhooks@[x]).id@
                                        == job_ids@[kk]@;
                                assert(job_ids@[kk]@ != job_ids@[k as int]@);
                            }
                        }
                    }
                    if exp[k as int].webhook_url is Some {
                        assert(store.webhooks@.last().id == job_ids@[k as int]);
                        assert(store.webhooks@.last().payload == (WebhookEvent::InvoiceExpired {
                            invoice_id: exp[k as int].id,
                        }));
                    }
                    assert forall|x: int|
                        mid.webhooks@.len() <= x < store.webhooks@.len() implies (exists|kk: int|
                        0 <= kk < k + 1 && (#[trigger] store.webhooks@[x]).id@
                            == job_ids@[kk]@) by {
                        if x < pre_add.webhooks@.len() {
                            assert(store.webhooks@[x] == pre_add.webhooks@[x]);
                            let kk = choose|kk: int|
                                0 <= kk < k && (#[trigger] pre_add.webhooks@[x]).id@
                                    == job_ids@[kk]@;
                            assert(store.webhooks@[x].id@ == job_ids@[kk]@);
                        } else {
                            assert(store.webhooks@[x].id@ == job_ids@[k as int]@);
                        }
                    }
                    assert forall|kk: int|
                        0 <= kk < k + 1 && (#[trigger] exp[kk]).webhook_url is Some implies (
                    exists|x: int|
                        mid.webhooks@.len() <= x < store.webhooks@.len() && (
                        #[trigger] store.webhooks@[x]).id == job_ids@[kk]
                            && store.webhooks@[x].invoice_id@ == exp[kk].id@
                            && store.webhooks@[x].payload == (WebhookEvent::InvoiceExpired {
                            invoice_id: exp[kk].id,
                        }) && store.webhooks@[x].status == WebhookStatus::Pending
                            && store.webhooks@[x].url == exp[kk].webhook_url->Some_0
                            && store.webhooks@[x].next_retry == now) by {
                        if kk < k {
                            let x = choose|x: int|
                                mid.webhooks@.len() <= x < pre_add.webhooks@.len() && (
                                #[trigger] pre_add.webhooks@[x]).id == job_ids@[kk]
                                    && pre_add.webhooks@[x].invoice_id@ == exp[kk].id@
                                    && pre_add.webhooks@[x].payload == (
                                WebhookEvent::InvoiceExpired { invoice_id: exp[kk].id })
                                    && pre_add.webhooks@[x].status == WebhookStatus::Pending
                                    && pre_add.webhooks@[x].url == exp[kk].webhook_url->Some_0
                                    && pre_add.webhooks@[x].next_retry == now;
                            assert(store.webhooks@[x] == pre_add.webhooks@[x]);
                        } else {
                            let x = pre_add.webhooks@.len() as int;
                            assert(store.webhooks@[x] == store.webhooks@.last());
                        }
                    }
                }
                assert forall|j: int|
                    mid.webhooks@.len() <= j < store.webhooks@.len() implies (
                #[trigger] store.webhooks@[j]).status == WebhookStatus::Pending && (
                store.webhooks@[j].payload matches WebhookEvent::InvoiceExpired { .. }) && (exists|
                    kk: int,
                |
                    0 <= kk < expired@.len() && store.webhooks@[j].invoice_id@
                        == (#[trigger] expired@[kk]).0@) by {
                    if j < pre_add.webhooks@.len() {
                        assert(store.webhooks@[j] == pre_add.webhooks@[j]);
                    } else {
                        assert(j == store.webhooks@.len() - 1);
                        assert(store.webhooks@[j].invoice_id@ == (#[trigger] expired@[
                            k as int
                        ]).0@);
                    }
                }
            }
            let ghost pre_remove = *store;
            let removal = store.remove_watch_address(expired[k].1.as_str(), expired[k].2.as_str());
            proof {
                assert forall|kk: int, c: int|
                    0 <= kk < k + 1 && 0 <= c < store.chains@.len() && (#[trigger] store.chains@[
                        c
                    ]).name@ == (#[trigger] expired@[kk]).1@ implies !watch_contains(
                    store.chains@[c],
                    normalized(expired@[kk].2@),
                ) by {
                    if kk < k {
                        assert(!watch_contains(pre_remove.chains@[c], normalized(expired@[kk].2@)));
                        lemma_watch_shrinks(pre_remove, *store, c);
                    } else {
                        if removal is Err {
                            assert(!pre_remove.has_chain(expired@[kk].1@));
                            assert(store.chains@[c] == pre_remove.chains@[c]);
                            assert(store.chains@[c].name@ != expired@[kk].1@);
                        } else {
                            let idx = pre_remove.chain_index(expired@[kk].1@);
                            assert(!watch_contains(
                                store.chains@[idx],
                                normalized(expired@[kk].2@),
                            ));
                            if c != idx {
                                assert(store.chains@[c] == pre_remove.chains@[c]);
                                if c < idx {
                                    assert(pre_remove.chains@[c].name@
                                        != pre_remove.chains@[idx].name@);
                                } else {
                                    assert(pre_remove.chains@[idx].name@
                                        != pre_remove.chains@[c].name@);
                                }
                            }
                        }
                    }
                }
            }
            k += 1;
        }
        expired
    }

} // verus!
