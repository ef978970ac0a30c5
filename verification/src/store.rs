//! The state store: chains with their watch-sets and token sets, invoices,
//! payments and the webhook queue, with the invariants the gateway relies
//! on. Every operation states exactly how it changes the state.

use vstd::prelude::*;

use crate::amount::Amount;
use crate::encoding::{normalized, str_eq, to_lowercase_ascii};
use crate::model::{
    ChainConfig, Error, Invoice, InvoiceStatus, PartialChainUpdate, Payment, PaymentStatus,
    TokenConfig, WebhookEvent, WebhookJob, WebhookRecord, WebhookStatus,
};

verus! {

/// No two chains share a name.
pub open spec fn chain_names_unique(cs: Seq<ChainConfig>) -> bool {
    forall|i: int, j: int| 0 <= i < j < cs.len() ==> cs[i].name@ != cs[j].name@
}

/// Watch addresses are distinct and in canonical (lowercase) form; token
/// symbols and token contracts are each distinct within the chain.
pub open spec fn chain_wf(c: ChainConfig) -> bool {
    &&& forall|i: int, j: int|
        0 <= i < j < c.watch_addresses@.len() ==> c.watch_addresses@[i]@ != c.watch_addresses@[j]@
    &&& forall|i: int|
        0 <= i < c.watch_addresses@.len() ==> normalized(#[trigger] c.watch_addresses@[i]@)
            == c.watch_addresses@[i]@
    &&& forall|i: int, j: int|
        0 <= i < j < c.tokens@.len() ==> c.tokens@[i].symbol@ != c.tokens@[j].symbol@
            && c.tokens@[i].contract@ != c.tokens@[j].contract@
}

/// No two invoices share an id.
pub open spec fn invoice_ids_unique(is: Seq<Invoice>) -> bool {
    forall|i: int, j: int| 0 <= i < j < is.len() ==> is[i].id@ != is[j].id@
}

/// Invoice addresses are stored in canonical (lowercase) form.
pub open spec fn invoice_addresses_canonical(is: Seq<Invoice>) -> bool {
    forall|i: int|
        0 <= i < is.len() ==> normalized(#[trigger] is[i].address@) == is[i].address@
}

/// At most one Pending invoice per `(chain, address)`.
pub open spec fn pending_addresses_unique(is: Seq<Invoice>) -> bool {
    forall|i: int, j: int|
        0 <= i < j < is.len() && is[i].status == InvoiceStatus::Pending && is[j].status
            == InvoiceStatus::Pending ==> !(is[i].network@ == is[j].network@ && is[i].address@
            == is[j].address@)
}

/// Two payments never share an id, nor a `(invoice_id, tx_hash, log_index)`
/// key.
pub open spec fn payments_unique(ps: Seq<Payment>) -> bool {
    forall|i: int, j: int|
        0 <= i < j < ps.len() ==> ps[i].id@ != ps[j].id@ && !(ps[i].invoice_id@
            == ps[j].invoice_id@ && ps[i].tx_hash@ == ps[j].tx_hash@ && ps[i].log_index
            == ps[j].log_index)
}

/// No two webhook jobs share an id.
pub open spec fn webhook_ids_unique(ws: Seq<WebhookRecord>) -> bool {
    forall|i: int, j: int| 0 <= i < j < ws.len() ==> ws[i].id@ != ws[j].id@
}

/// What one payment adds to invoice `inv_id`: its amount when it is a
/// Confirmed payment of that invoice, nothing otherwise.
pub open spec fn payment_contribution(p: Payment, inv_id: Seq<char>) -> nat {
    if p.invoice_id@ == inv_id && p.status == PaymentStatus::Confirmed {
        p.amount_raw.as_nat()
    } else {
        0
    }
}

/// The total of the Confirmed payments credited to invoice `inv_id`.
pub open spec fn sum_confirmed(ps: Seq<Payment>, inv_id: Seq<char>) -> nat
    decreases ps.len(),
{
    if ps.len() == 0 {
        0
    } else {
        sum_confirmed(ps.drop_last(), inv_id) + payment_contribution(ps.last(), inv_id)
    }
}

/// Every invoice's `paid_raw` equals the sum of its Confirmed payments.
pub open spec fn paid_sums_consistent(is: Seq<Invoice>, ps: Seq<Payment>) -> bool {
    forall|i: int|
        0 <= i < is.len() ==> #[trigger] is[i].paid_raw.as_nat() == sum_confirmed(ps, is[i].id@)
}

/// The chains that are not called `name`.
pub open spec fn keep_chains_not_named(name: Seq<char>) -> spec_fn(ChainConfig) -> bool {
    |c: ChainConfig| c.name@ != name
}

/// The invoices whose chain is not `name`.
pub open spec fn keep_invoices_not_on(name: Seq<char>) -> spec_fn(Invoice) -> bool {
    |inv: Invoice| inv.network@ != name
}

/// The gateway's state: chain configurations (each with its watch-set and
/// token set), invoices, payments, and the webhook delivery queue.
pub struct Store {
    pub chains: Vec<ChainConfig>,
    pub invoices: Vec<Invoice>,
    pub payments: Vec<Payment>,
    pub webhooks: Vec<WebhookRecord>,
}

impl Store {
    /// The store's invariant.
    pub open spec fn wf(self) -> bool {
        &&& chain_names_unique(self.chains@)
        &&& forall|i: int| 0 <= i < self.chains@.len() ==> chain_wf(#[trigger] self.chains@[i])
        &&& invoice_ids_unique(self.invoices@)
        &&& invoice_addresses_canonical(self.invoices@)
        &&& pending_addresses_unique(self.invoices@)
        &&& payments_unique(self.payments@)
        &&& webhook_ids_unique(self.webhooks@)
        &&& paid_sums_consistent(self.invoices@, self.payments@)
    }

    pub open spec fn has_chain(self, name: Seq<char>) -> bool {
        exists|i: int| 0 <= i < self.chains@.len() && self.chains@[i].name@ == name
    }

    pub open spec fn chain_index(self, name: Seq<char>) -> int {
        choose|i: int| 0 <= i < self.chains@.len() && self.chains@[i].name@ == name
    }

    pub open spec fn has_invoice(self, id: Seq<char>) -> bool {
        exists|i: int| 0 <= i < self.invoices@.len() && self.invoices@[i].id@ == id
    }

    pub open spec fn invoice_index(self, id: Seq<char>) -> int {
        choose|i: int| 0 <= i < self.invoices@.len() && self.invoices@[i].id@ == id
    }

    /// Everything but the chain list is as in `other`.
    pub open spec fn same_but_chains(self, other: Store) -> bool {
        &&& self.invoices@ == other.invoices@
        &&& self.payments@ == other.payments@
        &&& self.webhooks@ == other.webhooks@
    }

    pub open spec fn unchanged(self, other: Store) -> bool {
        &&& self.chains@ == other.chains@
        &&& self.same_but_chains(other)
    }

    pub fn new() -> (r: Store)
        ensures
            r.wf(),
            r.chains@.len() == 0,
            r.invoices@.len() == 0,
            r.payments@.len() == 0,
            r.webhooks@.len() == 0,
    {
        Store { chains: Vec::new(), invoices: Vec::new(), payments: Vec::new(), webhooks: Vec::new() }
    }

    /// Index of the chain called `name`, if any.
    fn find_chain(&self, name: &str) -> (r: Option<usize>)
        ensures
            match r {
                Some(i) => i < self.chains@.len() && self.chains@[i as int].name@ == name@,
                None => !self.has_chain(name@),
            },
    {
        let mut i: usize = 0;
        while i < self.chains.len()
            invariant
                i <= self.chains@.len(),
                forall|j: int| 0 <= j < i ==> self.chains@[j].name@ != name@,
            decreases self.chains@.len() - i,
        {
            if str_eq(self.chains[i].name.as_str(), name) {
                return Some(i);
            }
            i += 1;
        }
        None
    }

    pub fn chain_exists(&self, chain_name: &str) -> (r: bool)
        ensures
            r == self.has_chain(chain_name@),
    {
        self.find_chain(chain_name).is_some()
    }

    /// A copy of the chain called `chain_name`.
    pub fn get_chain(&self, chain_name: &str) -> (r: Option<ChainConfig>)
        requires
            self.wf(),
        ensures
            match r {
                Some(c) => self.has_chain(chain_name@) && chain_eqv(
                    c,
                    self.chains@[self.chain_index(chain_name@)],
                ),
                None => !self.has_chain(chain_name@),
            },
            self.has_chain(chain_name@) <==> r is Some,
    {
        match self.find_chain(chain_name) {
            Some(i) => {
                let c = self.chains[i].clone();
                proof {
                    lemma_chain_index_agrees(*self, i as int, chain_name@);
                }
                Some(c)
            },
            None => None,
        }
    }

    /// Copies of all chains, in registration order.
    pub fn get_chains(&self) -> (r: Vec<ChainConfig>)
        ensures
            r@.len() == self.chains@.len(),
            forall|i: int| 0 <= i < r@.len() ==> chain_eqv(#[trigger] r@[i], self.chains@[i]),
    {
        let mut out: Vec<ChainConfig> = Vec::new();
        let mut i: usize = 0;
        while i < self.chains.len()
            invariant
                i <= self.chains@.len(),
                out@.len() == i,
                forall|j: int| 0 <= j < i ==> chain_eqv(#[trigger] out@[j], self.chains@[j]),
            decreases self.chains@.len() - i,
        {
            out.push(self.chains[i].clone());
            i += 1;
        }
        out
    }

    /// Registers a new chain. Rejects a duplicate name with `DuplicateId`
    /// and a config whose watch or token lists hold duplicates with
    /// `BadInput`.
    pub fn add_chain(&mut self, chain_config: ChainConfig) -> (r: Result<(), Error>)
        requires
            old(self).wf(),
        ensures
            final(self).wf(),
            match r {
                Ok(()) => !old(self).has_chain(chain_config.name@) && chain_wf(chain_config)
                    && final(self).chains@ == old(self).chains@.push(chain_config) && final(self).same_but_chains(*old(self)),
                Err(Error::DuplicateId) => old(self).has_chain(chain_config.name@) && final(self).unchanged(*old(self)),
                Err(Error::BadInput) => !old(self).has_chain(chain_config.name@) && !chain_wf(
                    chain_config,
                ) && final(self).unchanged(*old(self)),
                Err(_) => false,
            },
    {
        if self.find_chain(chain_config.name.as_str()).is_some() {
            return Err(Error::DuplicateId);
        }
        if !watch_list_wf(&chain_config.watch_addresses) || !tokens_unique(&chain_config.tokens) {
            return Err(Error::BadInput);
        }
        proof {
            assert forall|i: int, j: int|
                0 <= i < j < old(self).chains@.push(chain_config).len() implies old(self).chains@.push(chain_config)[i].name@ != old(self).chains@.push(chain_config)[j].name@ by {
                if j < old(self).chains@.len() {
                } else {
                    assert(old(self).chains@[i].name@ != chain_config.name@);
                }
            }
        }
        self.chains.push(chain_config);
        Ok(())
    }

    /// Removes the chain called `chain_name` and, cascading, its invoices.
    pub fn remove_chain(&mut self, chain_name: &str) -> (r: Result<(), Error>)
        requires
            old(self).wf(),
        ensures
            final(self).wf(),
            r is Ok,
            final(self).chains@ == old(self).chains@.filter(keep_chains_not_named(chain_name@)),
            final(self).invoices@ == old(self).invoices@.filter(
                keep_invoices_not_on(chain_name@),
            ),
            final(self).payments@ == old(self).payments@,
            final(self).webhooks@ == old(self).webhooks@,
    {
        let ghost cpred = keep_chains_not_named(chain_name@);
        let ghost orig_chains = self.chains@;
        let mut i: usize = 0;
        let ghost mut k: int = 0;
        proof {
            reveal(Seq::filter);
            assert(orig_chains.subrange(0, 0).filter(cpred) =~= Seq::<ChainConfig>::empty());
            assert(self.chains@ =~= orig_chains.subrange(0, 0).filter(cpred) + orig_chains.subrange(
                0,
                orig_chains.len() as int,
            ));
        }
        while i < self.chains.len()
            invariant
                0 <= k <= orig_chains.len(),
                i == orig_chains.subrange(0, k).filter(cpred).len(),
                self.chains@ == orig_chains.subrange(0, k).filter(cpred) + orig_chains.subrange(
                    k,
                    orig_chains.len() as int,
                ),
                cpred == keep_chains_not_named(chain_name@),
                self.invoices@ == old(self).invoices@,
                self.payments@ == old(self).payments@,
                self.webhooks@ == old(self).webhooks@,
            decreases orig_chains.len() - k,
        {
            let ghost fpre = orig_chains.subrange(0, k).filter(cpred);
            let ghost elem = orig_chains[k];
            proof {
                reveal(Seq::filter);
                fpre.lemma_filter_len(cpred);
                assert(self.chains@[i as int] == elem);
                assert(orig_chains.subrange(0, k + 1).drop_last() =~= orig_chains.subrange(0, k));
                assert(orig_chains.subrange(0, k + 1).last() == elem);
            }
            if str_eq(self.chains[i].name.as_str(), chain_name) {
                proof {
                    assert(!cpred(elem));
                    assert(orig_chains.subrange(0, k + 1).filter(cpred) =~= fpre);
                }
                self.chains.remove(i);
                proof {
                    assert(self.chains@ =~= orig_chains.subrange(0, k + 1).filter(cpred)
                        + orig_chains.subrange(k + 1, orig_chains.len() as int));
                }
            } else {
                proof {
                    assert(cpred(elem));
                    assert(orig_chains.subrange(0, k + 1).filter(cpred) =~= fpre.push(elem));
                    assert(self.chains@ =~= orig_chains.subrange(0, k + 1).filter(cpred)
                        + orig_chains.subrange(k + 1, orig_chains.len() as int));
                }
                i += 1;
            }
            proof {
                k = k + 1;
            }
        }
        proof {
            orig_chains.subrange(0, k).lemma_filter_len(cpred);
            assert(k == orig_chains.len());
            assert(orig_chains.subrange(0, k) =~= orig_chains);
            assert(self.chains@ =~= orig_chains.filter(cpred));
        }
        let ghost ipred = keep_invoices_not_on(chain_name@);
        let ghost orig_inv = self.invoices@;
        let mut i: usize = 0;
        let ghost mut k: int = 0;
        proof {
            reveal(Seq::filter);
            assert(orig_inv.subrange(0, 0).filter(ipred) =~= Seq::<Invoice>::empty());
            assert(self.invoices@ =~= orig_inv.subrange(0, 0).filter(ipred) + orig_inv.subrange(
                0,
                orig_inv.len() as int,
            ));
        }
        while i < self.invoices.len()
            invariant
                0 <= k <= orig_inv.len(),
                i == orig_inv.subrange(0, k).filter(ipred).len(),
                self.invoices@ == orig_inv.subrange(0, k).filter(ipred) + orig_inv.subrange(
                    k,
                    orig_inv.len() as int,
                ),
                ipred == keep_invoices_not_on(chain_name@),
                self.chains@ == orig_chains.filter(cpred),
                cpred == keep_chains_not_named(chain_name@),
                orig_chains == old(self).chains@,
                orig_inv == old(self).invoices@,
                self.payments@ == old(self).payments@,
                self.webhooks@ == old(self).webhooks@,
            decreases orig_inv.len() - k,
        {
            let ghost fpre = orig_inv.subrange(0, k).filter(ipred);
            let ghost elem = orig_inv[k];
            proof {
                reveal(Seq::filter);
                assert(self.invoices@[i as int] == elem);
                assert(orig_inv.subrange(0, k + 1).drop_last() =~= orig_inv.subrange(0, k));
                assert(orig_inv.subrange(0, k + 1).last() == elem);
            }
            if str_eq(self.invoices[i].network.as_str(), chain_name) {
                proof {
                    assert(!ipred(elem));
                    assert(orig_inv.subrange(0, k + 1).filter(ipred) =~= fpre);
                }
                self.invoices.remove(i);
                proof {
                    assert(self.invoices@ =~= orig_inv.subrange(0, k + 1).filter(ipred)
                        + orig_inv.subrange(k + 1, orig_inv.len() as int));
                }
            } else {
                proof {
                    assert(ipred(elem));
                    assert(orig_inv.subrange(0, k + 1).filter(ipred) =~= fpre.push(elem));
                    assert(self.invoices@ =~= orig_inv.subrange(0, k + 1).filter(ipred)
                        + orig_inv.subrange(k + 1, orig_inv.len() as int));
                }
                i += 1;
            }
            proof {
                k = k + 1;
            }
        }
        proof {
            orig_inv.subrange(0, k).lemma_filter_len(ipred);
            assert(k == orig_inv.len());
            assert(orig_inv.subrange(0, k) =~= orig_inv);
            assert(self.invoices@ =~= orig_inv.filter(ipred));
            lemma_filter_preserves_store_wf(*old(self), *self, chain_name@);
        }
        Ok(())
    }

    /// Sets the chain's `last_processed_block` cursor.
    pub fn update_chain_block(&mut self, chain_name: &str, block_num: u64) -> (r: Result<
        (),
        Error,
    >)
        requires
            old(self).wf(),
        ensures
            final(self).wf(),
            final(self).same_but_chains(*old(self)),
            match r {
                Ok(()) => old(self).has_chain(chain_name@) && final(self).chains@ == old(
                    self,
                ).chains@.update(
                    old(self).chain_index(chain_name@),
                    ChainConfig {
                        last_processed_block: block_num,
                        ..old(self).chains@[old(self).chain_index(chain_name@)]
                    },
                ),
                Err(Error::NotFound) => !old(self).has_chain(chain_name@) && final(self).chains@
                    == old(self).chains@,
                Err(_) => false,
            },
    {
        match self.find_chain(chain_name) {
            Some(i) => {
                proof {
                    lemma_chain_index_agrees(*old(self), i as int, chain_name@);
                }
                self.chains[i].last_processed_block = block_num;
                proof {
                    lemma_wf_chain_update(*old(self), *self, i as int);
                }
                Ok(())
            },
            None => Err(Error::NotFound),
        }
    }

    /// The chain's `last_processed_block` cursor.
    pub fn get_latest_block(&self, chain_name: &str) -> (r: Option<u64>)
        requires
            self.wf(),
        ensures
            match r {
                Some(n) => self.has_chain(chain_name@) && n == self.chains@[self.chain_index(
                    chain_name@,
                )].last_processed_block,
                None => !self.has_chain(chain_name@),
            },
    {
        match self.find_chain(chain_name) {
            Some(i) => {
                proof {
                    lemma_chain_index_agrees(*self, i as int, chain_name@);
                }
                Some(self.chains[i].last_processed_block)
            },
            None => None,
        }
    }

    /// The chain's extended public key.
    pub fn get_xpub(&self, chain_name: &str) -> (r: Option<String>)
        requires
            self.wf(),
        ensures
            match r {
                Some(x) => self.has_chain(chain_name@) && x == self.chains@[self.chain_index(
                    chain_name@,
                )].xpub,
                None => !self.has_chain(chain_name@),
            },
    {
        match self.find_chain(chain_name) {
            Some(i) => {
                proof {
                    lemma_chain_index_agrees(*self, i as int, chain_name@);
                }
                Some(self.chains[i].xpub.clone())
            },
            None => None,
        }
    }

    /// The chain's RPC endpoint.
    pub fn get_rpc_url(&self, chain_name: &str) -> (r: Option<String>)
        requires
            self.wf(),
        ensures
            match r {
                Some(x) => self.has_chain(chain_name@) && x == self.chains@[self.chain_index(
                    chain_name@,
                )].rpc_url,
                None => !self.has_chain(chain_name@),
            },
    {
        match self.find_chain(chain_name) {
            Some(i) => {
                proof {
                    lemma_chain_index_agrees(*self, i as int, chain_name@);
                }
                Some(self.chains[i].rpc_url.clone())
            },
            None => None,
        }
    }

    /// The chain's tip buffer.
    pub fn get_block_lag(&self, chain_name: &str) -> (r: Option<u8>)
        requires
            self.wf(),
        ensures
            match r {
                Some(n) => self.has_chain(chain_name@) && n == self.chains@[self.chain_index(
                    chain_name@,
                )].block_lag,
                None => !self.has_chain(chain_name@),
            },
    {
        match self.find_chain(chain_name) {
            Some(i) => {
                proof {
                    lemma_chain_index_agrees(*self, i as int, chain_name@);
                }
                Some(self.chains[i].block_lag)
            },
            None => None,
        }
    }

    /// Overwrites exactly the fields of the chain that the update holds.
    pub fn update_chain_partial(
        &mut self,
        chain_name: &str,
        chain_update: &PartialChainUpdate,
    ) -> (r: Result<(), Error>)
        requires
            old(self).wf(),
        ensures
            final(self).wf(),
            final(self).same_but_chains(*old(self)),
            match r {
                Ok(()) => old(self).has_chain(chain_name@) && final(self).chains@ == old(
                    self,
                ).chains@.update(
                    old(self).chain_index(chain_name@),
                    apply_chain_update(
                        old(self).chains@[old(self).chain_index(chain_name@)],
                        *chain_update,
                    ),
                ),
                Err(Error::NotFound) => !old(self).has_chain(chain_name@) && final(self).chains@
                    == old(self).chains@,
                Err(_) => false,
            },
    {
        match self.find_chain(chain_name) {
            Some(i) => {
                proof {
                    lemma_chain_index_agrees(*old(self), i as int, chain_name@);
                }
                if let Some(xpub) = &chain_update.xpub {
                    self.chains[i].xpub = xpub.clone();
                }
                if let Some(rpc_url) = &chain_update.rpc_url {
                    self.chains[i].rpc_url = rpc_url.clone();
                }
                if let Some(last_processed_block) = chain_update.last_processed_block {
                    self.chains[i].last_processed_block = last_processed_block;
                }
                if let Some(block_lag) = chain_update.block_lag {
                    self.chains[i].block_lag = block_lag;
                }
                if let Some(required_confirmations) = chain_update.required_confirmations {
                    self.chains[i].required_confirmations = required_confirmations;
                }
                proof {
                    assert(self.chains@[i as int] == apply_chain_update(
                        old(self).chains@[i as int],
                        *chain_update,
                    ));
                    assert(self.chains@ =~= old(self).chains@.update(
                        i as int,
                        self.chains@[i as int],
                    ));
                    lemma_wf_chain_update(*old(self), *self, i as int);
                }
                Ok(())
            },
            None => Err(Error::NotFound),
        }
    }

    /// Adds `address`, in canonical lowercase form, to the chain's
    /// watch-set; adding an address already watched changes nothing.
    pub fn add_watch_address(&mut self, chain_name: &str, address: &str) -> (r: Result<(), Error>)
        requires
            old(self).wf(),
        ensures
            final(self).wf(),
            final(self).same_but_chains(*old(self)),
            match r {
                Ok(()) => {
                    let idx = old(self).chain_index(chain_name@);
                    let oc = old(self).chains@[idx];
                    let nc = final(self).chains@[idx];
                    &&& old(self).has_chain(chain_name@)
                    &&& final(self).chains@ == old(self).chains@.update(idx, nc)
                    &&& chain_same_but_watch(nc, oc)
                    &&& watch_contains(nc, normalized(address@))
                    &&& (watch_contains(oc, normalized(address@)) ==> nc.watch_addresses@
                        == oc.watch_addresses@)
                    &&& (!watch_contains(oc, normalized(address@)) ==> nc.watch_addresses@.len()
                        == oc.watch_addresses@.len() + 1 && nc.watch_addresses@.last()@
                        == normalized(address@) && nc.watch_addresses@.drop_last()
                        == oc.watch_addresses@)
                },
                Err(Error::NotFound) => !old(self).has_chain(chain_name@) && final(self).chains@
                    == old(self).chains@,
                Err(_) => false,
            },
    {
        let i = match self.find_chain(chain_name) {
            Some(i) => i,
            None => {
                return Err(Error::NotFound);
            },
        };
        proof {
            lemma_chain_index_agrees(*old(self), i as int, chain_name@);
        }
        let la = to_lowercase_ascii(address);
        let mut j: usize = 0;
        let n = self.chains[i].watch_addresses.len();
        while j < n
            invariant
                self == old(self),
                old(self).wf(),
                i < self.chains@.len(),
                old(self).has_chain(chain_name@),
                old(self).chain_index(chain_name@) == i as int,
                n == self.chains@[i as int].watch_addresses@.len(),
                j <= n,
                la@ == normalized(address@),
                forall|b: int|
                    0 <= b < j ==> self.chains@[i as int].watch_addresses@[b]@ != la@,
            decreases n - j,
        {
            if str_eq(self.chains[i].watch_addresses[j].as_str(), la.as_str()) {
                proof {
                    assert(self.chains@ =~= old(self).chains@.update(
                        i as int,
                        self.chains@[i as int],
                    ));
                }
                return Ok(());
            }
            j += 1;
        }
        proof {
            crate::encoding::lemma_normalized_idempotent(address@);
        }
        self.chains[i].watch_addresses.push(la);
        proof {
            let nc = self.chains@[i as int];
            assert(watch_contains(nc, normalized(address@))) by {
                assert(nc.watch_addresses@.last()@ == normalized(address@));
            }
            assert(nc.watch_addresses@.drop_last() =~= old(self).chains@[
                i as int
            ].watch_addresses@);
            assert(chain_wf(nc));
            lemma_wf_chain_update(*old(self), *self, i as int);
        }
        Ok(())
    }

    /// Removes `address` (matched in canonical form) from the chain's
    /// watch-set; removing an unwatched address changes nothing.
    pub fn remove_watch_address(&mut self, chain_name: &str, address: &str) -> (r: Result<
        (),
        Error,
    >)
        requires
            old(self).wf(),
        ensures
            final(self).wf(),
            final(self).same_but_chains(*old(self)),
            match r {
                Ok(()) => {
                    let idx = old(self).chain_index(chain_name@);
                    let oc = old(self).chains@[idx];
                    let nc = final(self).chains@[idx];
                    &&& old(self).has_chain(chain_name@)
                    &&& final(self).chains@ == old(self).chains@.update(idx, nc)
                    &&& chain_same_but_watch(nc, oc)
                    &&& !watch_contains(nc, normalized(address@))
                    &&& (!watch_contains(oc, normalized(address@)) ==> nc.watch_addresses@
                        == oc.watch_addresses@)
                    &&& (watch_contains(oc, normalized(address@)) ==> (exists|iw: int|
                        0 <= iw < oc.watch_addresses@.len() && oc.watch_addresses@[iw]@
                            == normalized(address@) && nc.watch_addresses@
                            == oc.watch_addresses@.remove(iw)))
                },
                Err(Error::NotFound) => !old(self).has_chain(chain_name@) && final(self).chains@
                    == old(self).chains@,
                Err(_) => false,
            },
    {
        let i = match self.find_chain(chain_name) {
            Some(i) => i,
            None => {
                return Err(Error::NotFound);
            },
        };
        proof {
            lemma_chain_index_agrees(*old(self), i as int, chain_name@);
        }
        let la = to_lowercase_ascii(address);
        let mut j: usize = 0;
        let n = self.chains[i].watch_addresses.len();
        while j < n
            invariant
                self == old(self),
                old(self).wf(),
                i < self.chains@.len(),
                old(self).has_chain(chain_name@),
                old(self).chain_index(chain_name@) == i as int,
                n == self.chains@[i as int].watch_addresses@.len(),
                j <= n,
                la@ == normalized(address@),
                forall|b: int|
                    0 <= b < j ==> self.chains@[i as int].watch_addresses@[b]@ != la@,
            decreases n - j,
        {
            if str_eq(self.chains[i].watch_addresses[j].as_str(), la.as_str()) {
                let ghost oc = old(self).chains@[i as int];
                self.chains[i].watch_addresses.remove(j);
                proof {
                    let nc = self.chains@[i as int];
                    assert(nc.watch_addresses@ == oc.watch_addresses@.remove(j as int));
                    oc.watch_addresses@.remove_ensures(j as int);
                    assert(chain_wf(oc));
                    assert forall|b: int|
                        0 <= b < nc.watch_addresses@.len() implies nc.watch_addresses@[b]@
                        != normalized(address@) by {
                        if b < j {
                            assert(nc.watch_addresses@[b] == oc.watch_addresses@[b]);
                        } else {
                            assert(nc.watch_addresses@[b] == oc.watch_addresses@[b + 1]);
                            assert(oc.watch_addresses@[j as int]@ != oc.watch_addresses@[b + 1]@);
                        }
                    }
                    assert(!watch_contains(nc, normalized(address@)));
                    assert(chain_wf(nc)) by {
                        assert forall|a: int, b: int|
                            0 <= a < b < nc.watch_addresses@.len() implies nc.watch_addresses@[a]@
                            != nc.watch_addresses@[b]@ by {
                            let oa = if a < j {
                                a
                            } else {
                                a + 1
                            };
                            let ob = if b < j {
                                b
                            } else {
                                b + 1
                            };
                            assert(nc.watch_addresses@[a] == oc.watch_addresses@[oa]);
                            assert(nc.watch_addresses@[b] == oc.watch_addresses@[ob]);
                            assert(oc.watch_addresses@[oa]@ != oc.watch_addresses@[ob]@);
                        }
                        assert forall|a: int|
                            0 <= a < nc.watch_addresses@.len() implies normalized(
                            #[trigger] nc.watch_addresses@[a]@,
                        ) == nc.watch_addresses@[a]@ by {
                            let oa = if a < j {
                                a
                            } else {
                                a + 1
                            };
                            assert(nc.watch_addresses@[a] == oc.watch_addresses@[oa]);
                        }
                    }
                    lemma_wf_chain_update(*old(self), *self, i as int);
                }
                return Ok(());
            }
            j += 1;
        }
        proof {
            assert(self.chains@ =~= old(self).chains@.update(i as int, self.chains@[i as int]));
            assert(!watch_contains(old(self).chains@[i as int], normalized(address@)));
        }
        Ok(())
    }

    /// Copies of the chain's watch addresses.
    pub fn get_watch_addresses(&self, chain_name: &str) -> (r: Option<Vec<String>>)
        requires
            self.wf(),
        ensures
            match r {
                Some(v) => self.has_chain(chain_name@) && v@ == self.chains@[self.chain_index(
                    chain_name@,
                )].watch_addresses@,
                None => !self.has_chain(chain_name@),
            },
    {
        match self.find_chain(chain_name) {
            Some(i) => {
                proof {
                    lemma_chain_index_agrees(*self, i as int, chain_name@);
                }
                let v = self.chains[i].watch_addresses.clone();
                proof {
                    assert(v@ =~= self.chains@[i as int].watch_addresses@);
                }
                Some(v)
            },
            None => None,
        }
    }
}

/// `c` with the fields that `u` holds overwritten.
pub open spec fn apply_chain_update(c: ChainConfig, u: PartialChainUpdate) -> ChainConfig {
    ChainConfig {
        rpc_url: if u.rpc_url is Some {
            u.rpc_url->Some_0
        } else {
            c.rpc_url
        },
        xpub: if u.xpub is Some {
            u.xpub->Some_0
        } else {
            c.xpub
        },
        last_processed_block: if u.last_processed_block is Some {
            u.last_processed_block->Some_0
        } else {
            c.last_processed_block
        },
        block_lag: if u.block_lag is Some {
            u.block_lag->Some_0
        } else {
            c.block_lag
        },
        required_confirmations: if u.required_confirmations is Some {
            u.required_confirmations->Some_0
        } else {
            c.required_confirmations
        },
        ..c
    }
}

/// Equal fields apart from the watch-set.
pub open spec fn chain_same_but_watch(a: ChainConfig, b: ChainConfig) -> bool {
    &&& a.name == b.name
    &&& a.rpc_url == b.rpc_url
    &&& a.chain_type == b.chain_type
    &&& a.xpub == b.xpub
    &&& a.native_symbol == b.native_symbol
    &&& a.decimals == b.decimals
    &&& a.last_processed_block == b.last_processed_block
    &&& a.block_lag == b.block_lag
    &&& a.required_confirmations == b.required_confirmations
    &&& a.tokens@ == b.tokens@
}

/// The chain watches address `a`.
pub open spec fn watch_contains(c: ChainConfig, a: Seq<char>) -> bool {
    exists|j: int| 0 <= j < c.watch_addresses@.len() && c.watch_addresses@[j]@ == a
}

/// Replacing one chain by one with the same name and its own
/// well-formedness keeps the store's invariant.
proof fn lemma_wf_chain_update(pre: Store, post: Store, i: int)
    requires
        pre.wf(),
        0 <= i < pre.chains@.len(),
        post.chains@ == pre.chains@.update(i, post.chains@[i]),
        post.chains@[i].name@ == pre.chains@[i].name@,
        chain_wf(post.chains@[i]),
        post.invoices@ == pre.invoices@,
        post.payments@ == pre.payments@,
        post.webhooks@ == pre.webhooks@,
    ensures
        post.wf(),
{
    assert forall|a: int, b: int| 0 <= a < b < post.chains@.len() implies post.chains@[a].name@
        != post.chains@[b].name@ by {
        assert(pre.chains@[a].name@ != pre.chains@[b].name@);
    }
    assert forall|a: int| 0 <= a < post.chains@.len() implies chain_wf(
        #[trigger] post.chains@[a],
    ) by {
        if a != i {
            assert(post.chains@[a] == pre.chains@[a]);
        }
    }
}

/// Equal fields, with vector fields compared by contents.
pub open spec fn chain_eqv(a: ChainConfig, b: ChainConfig) -> bool {
    &&& a.name == b.name
    &&& a.rpc_url == b.rpc_url
    &&& a.chain_type == b.chain_type
    &&& a.xpub == b.xpub
    &&& a.native_symbol == b.native_symbol
    &&& a.decimals == b.decimals
    &&& a.last_processed_block == b.last_processed_block
    &&& a.block_lag == b.block_lag
    &&& a.required_confirmations == b.required_confirmations
    &&& a.watch_addresses@ == b.watch_addresses@
    &&& a.tokens@ == b.tokens@
}

/// `chain_index` picks the index that `find_chain` found: names are unique.
pub proof fn lemma_chain_index_agrees(s: Store, i: int, name: Seq<char>)
    requires
        chain_names_unique(s.chains@),
        0 <= i < s.chains@.len(),
        s.chains@[i].name@ == name,
    ensures
        s.chain_index(name) == i,
{
    assert(s.has_chain(name));
    let j = s.chain_index(name);
    assert(0 <= j < s.chains@.len() && s.chains@[j].name@ == name);
    if i < j {
        assert(s.chains@[i].name@ != s.chains@[j].name@);
    } else if j < i {
        assert(s.chains@[j].name@ != s.chains@[i].name@);
    }
}

/// Filtering chains and invoices preserves every part of the invariant.
proof fn lemma_filter_preserves_store_wf(pre: Store, post: Store, name: Seq<char>)
    requires
        pre.wf(),
        post.chains@ == pre.chains@.filter(keep_chains_not_named(name)),
        post.invoices@ == pre.invoices@.filter(keep_invoices_not_on(name)),
        post.payments@ == pre.payments@,
        post.webhooks@ == pre.webhooks@,
    ensures
        post.wf(),
{
    let cpred = keep_chains_not_named(name);
    let ipred = keep_invoices_not_on(name);
    let capart = |a: ChainConfig, b: ChainConfig| a.name@ != b.name@;
    let iapart = |a: Invoice, b: Invoice| a.id@ != b.id@ && !(a.status == InvoiceStatus::Pending
        && b.status == InvoiceStatus::Pending && a.network@ == b.network@ && a.address@
        == b.address@);
    lemma_filter_pairwise(pre.chains@, cpred, capart);
    lemma_filter_pairwise(pre.invoices@, ipred, iapart);
    assert forall|i: int, j: int| 0 <= i < j < post.chains@.len() implies post.chains@[i].name@
        != post.chains@[j].name@ by {
        assert(capart(post.chains@[i], post.chains@[j]));
    }
    assert forall|i: int, j: int| 0 <= i < j < post.invoices@.len() implies iapart(
        post.invoices@[i],
        post.invoices@[j],
    ) by {
        assert(iapart(post.invoices@[i], post.invoices@[j]));
    }
    assert(invoice_ids_unique(post.invoices@));
    assert(pending_addresses_unique(post.invoices@));
    assert forall|i: int| 0 <= i < post.invoices@.len() implies normalized(
        #[trigger] post.invoices@[i].address@,
    ) == post.invoices@[i].address@ by {
        assert(pre.invoices@.contains(post.invoices@[i]));
    }
    assert forall|i: int| 0 <= i < post.chains@.len() implies chain_wf(
        #[trigger] post.chains@[i],
    ) by {
        assert(pre.chains@.contains(post.chains@[i]));
    }
    assert forall|i: int| 0 <= i < post.invoices@.len() implies #[trigger] post.invoices@[
        i
    ].paid_raw.as_nat() == sum_confirmed(post.payments@, post.invoices@[i].id@) by {
        assert(pre.invoices@.contains(post.invoices@[i]));
        let a = choose|a: int|
            0 <= a < pre.invoices@.len() && pre.invoices@[a] == post.invoices@[i];
        assert(pre.invoices@[a].paid_raw.as_nat() == sum_confirmed(
            pre.payments@,
            pre.invoices@[a].id@,
        ));
    }
}

/// Filtering keeps any pairwise property of the sequence's elements, and
/// keeps only elements of the sequence it filtered.
proof fn lemma_filter_pairwise<A>(
    s: Seq<A>,
    pred: spec_fn(A) -> bool,
    apart: spec_fn(A, A) -> bool,
)
    requires
        forall|i: int, j: int| 0 <= i < j < s.len() ==> #[trigger] apart(s[i], s[j]),
    ensures
        forall|i: int, j: int|
            0 <= i < j < s.filter(pred).len() ==> #[trigger] apart(
                s.filter(pred)[i],
                s.filter(pred)[j],
            ),
        forall|i: int| 0 <= i < s.filter(pred).len() ==> s.contains(#[trigger] s.filter(pred)[i]),
    decreases s.len(),
{
    reveal(Seq::filter);
    if s.len() > 0 {
        let d = s.drop_last();
        lemma_filter_pairwise(d, pred, apart);
        let f = s.filter(pred);
        let fd = d.filter(pred);
        assert forall|i: int| 0 <= i < fd.len() implies s.contains(#[trigger] fd[i]) by {
            assert(d.contains(fd[i]));
            let a = choose|a: int| 0 <= a < d.len() && d[a] == fd[i];
            assert(s[a] == fd[i]);
        }
        if pred(s.last()) {
            assert(f == fd.push(s.last()));
            assert(s.contains(s.last())) by {
                assert(s[s.len() - 1] == s.last());
            }
            assert forall|i: int, j: int| 0 <= i < j < f.len() implies #[trigger] apart(
                f[i],
                f[j],
            ) by {
                if j < fd.len() {
                    assert(apart(fd[i], fd[j]));
                } else {
                    assert(f[j] == s.last());
                    assert(d.contains(fd[i]));
                    let a = choose|a: int| 0 <= a < d.len() && d[a] == fd[i];
                    assert(apart(s[a], s[s.len() - 1]));
                }
            }
        } else {
            assert(f == fd);
        }
    }
}

/// All entries pairwise different and already in canonical form.
fn watch_list_wf(v: &Vec<String>) -> (r: bool)
    ensures
        r <==> ((forall|i: int, j: int| 0 <= i < j < v@.len() ==> v@[i]@ != v@[j]@) && (forall|
            i: int,
        |
            0 <= i < v@.len() ==> normalized(#[trigger] v@[i]@) == v@[i]@)),
{
    let mut i: usize = 0;
    while i < v.len()
        invariant
            i <= v@.len(),
            forall|a: int, b: int| 0 <= a < b < i ==> v@[a]@ != v@[b]@,
            forall|a: int| 0 <= a < i ==> normalized(#[trigger] v@[a]@) == v@[a]@,
        decreases v@.len() - i,
    {
        let low = to_lowercase_ascii(v[i].as_str());
        if !str_eq(low.as_str(), v[i].as_str()) {
            return false;
        }
        let mut j: usize = 0;
        while j < i
            invariant
                i < v@.len(),
                j <= i,
                forall|b: int| 0 <= b < j ==> v@[b]@ != v@[i as int]@,
            decreases i - j,
        {
            if str_eq(v[j].as_str(), v[i].as_str()) {
                return false;
            }
            j += 1;
        }
        i += 1;
    }
    true
}

/// All token symbols pairwise different and all contracts pairwise
/// different.
fn tokens_unique(v: &Vec<TokenConfig>) -> (r: bool)
    ensures
        r <==> (forall|i: int, j: int|
            0 <= i < j < v@.len() ==> v@[i].symbol@ != v@[j].symbol@ && v@[i].contract@
                != v@[j].contract@),
{
    let mut i: usize = 0;
    while i < v.len()
        invariant
            i <= v@.len(),
            forall|a: int, b: int|
                0 <= a < b < i ==> v@[a].symbol@ != v@[b].symbol@ && v@[a].contract@
                    != v@[b].contract@,
        decreases v@.len() - i,
    {
        let mut j: usize = 0;
        while j < i
            invariant
                i < v@.len(),
                j <= i,
                forall|b: int|
                    0 <= b < j ==> v@[b].symbol@ != v@[i as int].symbol@ && v@[b].contract@
                        != v@[i as int].contract@,
            decreases i - j,
        {
            if str_eq(v[j].symbol.as_str(), v[i].symbol.as_str()) || str_eq(
                v[j].contract.as_str(),
                v[i].contract.as_str(),
            ) {
                return false;
            }
            j += 1;
        }
        i += 1;
    }
    true
}

impl Store {
    /// Index of the invoice with id `id`, if any.
    fn find_invoice(&self, id: &str) -> (r: Option<usize>)
        ensures
            match r {
                Some(i) => i < self.invoices@.len() && self.invoices@[i as int].id@ == id@,
                None => !self.has_invoice(id@),
            },
    {
        let mut i: usize = 0;
        while i < self.invoices.len()
            invariant
                i <= self.invoices@.len(),
                forall|j: int| 0 <= j < i ==> self.invoices@[j].id@ != id@,
            decreases self.invoices@.len() - i,
        {
            if str_eq(self.invoices[i].id.as_str(), id) {
                return Some(i);
            }
            i += 1;
        }
        None
    }

    /// True when some payment row references invoice `id`.
    fn has_payment_for(&self, id: &str) -> (r: bool)
        ensures
            r <==> (exists|i: int|
                0 <= i < self.payments@.len() && (#[trigger] self.payments@[i].invoice_id@)
                    == id@),
    {
        let mut i: usize = 0;
        while i < self.payments.len()
            invariant
                i <= self.payments@.len(),
                forall|j: int| 0 <= j < i ==> (#[trigger] self.payments@[j].invoice_id@) != id@,
            decreases self.payments@.len() - i,
        {
            if str_eq(self.payments[i].invoice_id.as_str(), id) {
                return true;
            }
            i += 1;
        }
        false
    }

    pub open spec fn has_pending_at(self, chain: Seq<char>, addr: Seq<char>) -> bool {
        exists|i: int|
            0 <= i < self.invoices@.len() && (#[trigger] self.invoices@[i]).status
                == InvoiceStatus::Pending && self.invoices@[i].network@ == chain
                && self.invoices@[i].address@ == addr
    }

    pub open spec fn pending_index_at(self, chain: Seq<char>, addr: Seq<char>) -> int {
        choose|i: int|
            0 <= i < self.invoices@.len() && (#[trigger] self.invoices@[i]).status
                == InvoiceStatus::Pending && self.invoices@[i].network@ == chain
                && self.invoices@[i].address@ == addr
    }

    /// Records a new invoice. Rejects a reused id with `DuplicateId`; an
    /// address not in canonical form, an opening `paid_raw` other than
    /// zero, or a second Pending invoice for the same `(chain, address)`
    /// with `BadInput`.
    pub fn add_invoice(&mut self, invoice: Invoice) -> (r: Result<(), Error>)
        requires
            old(self).wf(),
        ensures
            final(self).wf(),
            final(self).chains@ == old(self).chains@,
            final(self).payments@ == old(self).payments@,
            final(self).webhooks@ == old(self).webhooks@,
            match r {
                Ok(()) => !old(self).has_invoice(invoice.id@) && !(exists|i: int|
                    0 <= i < old(self).payments@.len() && (#[trigger] old(
                        self,
                    ).payments@[i].invoice_id@) == invoice.id@) && normalized(invoice.address@)
                    == invoice.address@ && invoice.paid_raw.as_nat() == 0 && (invoice.status
                    == InvoiceStatus::Pending ==> !old(self).has_pending_at(
                    invoice.network@,
                    invoice.address@,
                )) && final(self).invoices@ == old(self).invoices@.push(invoice),
                Err(Error::DuplicateId) => (old(self).has_invoice(invoice.id@) || (exists|i: int|
                    0 <= i < old(self).payments@.len() && (#[trigger] old(
                        self,
                    ).payments@[i].invoice_id@) == invoice.id@)) && final(self).invoices@ == old(
                    self,
                ).invoices@,
                Err(Error::BadInput) => !old(self).has_invoice(invoice.id@) && !(exists|i: int|
                    0 <= i < old(self).payments@.len() && (#[trigger] old(
                        self,
                    ).payments@[i].invoice_id@) == invoice.id@) && (normalized(invoice.address@)
                    != invoice.address@ || invoice.paid_raw.as_nat() != 0 || (invoice.status
                    == InvoiceStatus::Pending && old(self).has_pending_at(
                    invoice.network@,
                    invoice.address@,
                ))) && final(self).invoices@ == old(self).invoices@,
                Err(_) => false,
            },
    {
        if self.find_invoice(invoice.id.as_str()).is_some() || self.has_payment_for(
            invoice.id.as_str(),
        ) {
            return Err(Error::DuplicateId);
        }
        let low = to_lowercase_ascii(invoice.address.as_str());
        if !str_eq(low.as_str(), invoice.address.as_str()) {
            return Err(Error::BadInput);
        }
        if !invoice.paid_raw.is_zero() {
            return Err(Error::BadInput);
        }
        if matches!(invoice.status, InvoiceStatus::Pending) {
            let mut i: usize = 0;
            while i < self.invoices.len()
                invariant
                    self == old(self),
                    old(self).wf(),
                    invoice.status == InvoiceStatus::Pending,
                    !old(self).has_invoice(invoice.id@),
                    !(exists|j: int|
                        0 <= j < old(self).payments@.len() && (#[trigger] old(
                            self,
                        ).payments@[j].invoice_id@) == invoice.id@),
                    i <= self.invoices@.len(),
                    forall|j: int|
                        0 <= j < i ==> !((#[trigger] self.invoices@[j]).status
                            == InvoiceStatus::Pending && self.invoices@[j].network@
                            == invoice.network@ && self.invoices@[j].address@
                            == invoice.address@),
                decreases self.invoices@.len() - i,
            {
                if matches!(self.invoices[i].status, InvoiceStatus::Pending) && str_eq(
                    self.invoices[i].network.as_str(),
                    invoice.network.as_str(),
                ) && str_eq(self.invoices[i].address.as_str(), invoice.address.as_str()) {
                    return Err(Error::BadInput);
                }
                i += 1;
            }
        }
        proof {
            lemma_sum_confirmed_absent(self.payments@, invoice.id@);
            assert forall|i: int|
                0 <= i < old(self).invoices@.push(invoice).len() implies #[trigger] old(
                self,
            ).invoices@.push(invoice)[i].paid_raw.as_nat() == sum_confirmed(
                self.payments@,
                old(self).invoices@.push(invoice)[i].id@,
            ) by {
                if i < old(self).invoices@.len() {
                    assert(old(self).invoices@.push(invoice)[i] == old(self).invoices@[i]);
                }
            }
        }
        self.invoices.push(invoice);
        Ok(())
    }

    /// A copy of the invoice with id `uuid`.
    pub fn get_invoice(&self, uuid: &str) -> (r: Option<Invoice>)
        requires
            self.wf(),
        ensures
            match r {
                Some(inv) => self.has_invoice(uuid@) && inv == self.invoices@[self.invoice_index(
                    uuid@,
                )],
                None => !self.has_invoice(uuid@),
            },
    {
        match self.find_invoice(uuid) {
            Some(i) => {
                proof {
                    lemma_invoice_index_agrees(*self, i as int, uuid@);
                }
                Some(self.invoices[i].clone())
            },
            None => None,
        }
    }

    /// The address indexes of the Pending invoices on `chain_name`.
    pub fn get_busy_indexes(&self, chain_name: &str) -> (r: Vec<u32>)
        ensures
            r@ == busy_indexes(self.invoices@, chain_name@),
    {
        let mut out: Vec<u32> = Vec::new();
        let mut i: usize = 0;
        proof {
            assert(self.invoices@.subrange(0, 0) =~= Seq::<Invoice>::empty());
        }
        while i < self.invoices.len()
            invariant
                i <= self.invoices@.len(),
                out@ == busy_indexes(self.invoices@.subrange(0, i as int), chain_name@),
            decreases self.invoices@.len() - i,
        {
            proof {
                assert(self.invoices@.subrange(0, i + 1).drop_last() =~= self.invoices@.subrange(
                    0,
                    i as int,
                ));
            }
            if matches!(self.invoices[i].status, InvoiceStatus::Pending) && str_eq(
                self.invoices[i].network.as_str(),
                chain_name,
            ) {
                out.push(self.invoices[i].address_index);
            }
            i += 1;
        }
        proof {
            assert(self.invoices@.subrange(0, self.invoices@.len() as int) =~= self.invoices@);
        }
        out
    }

    /// The smallest derivation index not held by any Pending invoice on
    /// the chain.
    pub fn get_free_slot(&self, chain_name: &str) -> (r: Option<u32>)
        ensures
            match r {
                Some(v) => !busy_indexes(self.invoices@, chain_name@).contains(v) && (forall|
                    k: u32,
                |
                    k < v ==> busy_indexes(self.invoices@, chain_name@).contains(k)),
                None => forall|k: u32| busy_indexes(self.invoices@, chain_name@).contains(k),
            },
    {
        let busy = self.get_busy_indexes(chain_name);
        crate::min_free_index(&busy)
    }

    /// Moves the invoice to `status`. Only the identity transition and
    /// those out of Pending are accepted: status never moves backwards.
    pub fn set_invoice_status(&mut self, uuid: &str, status: InvoiceStatus) -> (r: Result<
        (),
        Error,
    >)
        requires
            old(self).wf(),
        ensures
            final(self).wf(),
            final(self).chains@ == old(self).chains@,
            final(self).payments@ == old(self).payments@,
            final(self).webhooks@ == old(self).webhooks@,
            match r {
                Ok(()) => {
                    let idx = old(self).invoice_index(uuid@);
                    &&& old(self).has_invoice(uuid@)
                    &&& status_transition_allowed(old(self).invoices@[idx].status, status)
                    &&& final(self).invoices@ == old(self).invoices@.update(
                        idx,
                        Invoice { status, ..old(self).invoices@[idx] },
                    )
                },
                Err(Error::NotFound) => !old(self).has_invoice(uuid@) && final(self).invoices@
                    == old(self).invoices@,
                Err(Error::BadInput) => {
                    let idx = old(self).invoice_index(uuid@);
                    &&& old(self).has_invoice(uuid@)
                    &&& !status_transition_allowed(old(self).invoices@[idx].status, status)
                    &&& final(self).invoices@ == old(self).invoices@
                },
                Err(_) => false,
            },
    {
        let i = match self.find_invoice(uuid) {
            Some(i) => i,
            None => {
                return Err(Error::NotFound);
            },
        };
        proof {
            lemma_invoice_index_agrees(*old(self), i as int, uuid@);
        }
        let cur = self.invoices[i].status;
        let allowed = match (cur, status) {
            (InvoiceStatus::Pending, _) => true,
            (InvoiceStatus::Paid, InvoiceStatus::Paid) => true,
            (InvoiceStatus::Expired, InvoiceStatus::Expired) => true,
            _ => false,
        };
        if !allowed {
            return Err(Error::BadInput);
        }
        self.invoices[i].status = status;
        proof {
            lemma_wf_invoice_status_update(*old(self), *self, i as int);
            assert(self.invoices@ =~= old(self).invoices@.update(
                i as int,
                Invoice { status, ..old(self).invoices@[i as int] },
            ));
        }
        Ok(())
    }

    /// The Pending invoice at `(chain_name, address)`, matching the
    /// address in canonical form.
    pub fn get_pending_invoice_by_address(&self, chain_name: &str, address: &str) -> (r: Option<
        Invoice,
    >)
        requires
            self.wf(),
        ensures
            match r {
                Some(inv) => self.has_pending_at(chain_name@, normalized(address@)) && inv
                    == self.invoices@[self.pending_index_at(chain_name@, normalized(address@))],
                None => !self.has_pending_at(chain_name@, normalized(address@)),
            },
    {
        let la = to_lowercase_ascii(address);
        let mut i: usize = 0;
        while i < self.invoices.len()
            invariant
                self.wf(),
                i <= self.invoices@.len(),
                la@ == normalized(address@),
                forall|j: int|
                    0 <= j < i ==> !((#[trigger] self.invoices@[j]).status
                        == InvoiceStatus::Pending && self.invoices@[j].network@ == chain_name@
                        && self.invoices@[j].address@ == la@),
            decreases self.invoices@.len() - i,
        {
            if matches!(self.invoices[i].status, InvoiceStatus::Pending) && str_eq(
                self.invoices[i].network.as_str(),
                chain_name,
            ) && str_eq(self.invoices[i].address.as_str(), la.as_str()) {
                proof {
                    lemma_pending_index_agrees(*self, i as int, chain_name@, la@);
                }
                return Some(self.invoices[i].clone());
            }
            i += 1;
        }
        None
    }

    /// True (when the invoice exists) exactly for the matching status.
    pub fn is_invoice_expired(&self, uuid: &str) -> (r: Option<bool>)
        requires
            self.wf(),
        ensures
            match r {
                Some(b) => self.has_invoice(uuid@) && (b <==> self.invoices@[self.invoice_index(
                    uuid@,
                )].status == InvoiceStatus::Expired),
                None => !self.has_invoice(uuid@),
            },
    {
        match self.find_invoice(uuid) {
            Some(i) => {
                proof {
                    lemma_invoice_index_agrees(*self, i as int, uuid@);
                }
                Some(matches!(self.invoices[i].status, InvoiceStatus::Expired))
            },
            None => None,
        }
    }

    /// True (when the invoice exists) exactly for the matching status.
    pub fn is_invoice_paid(&self, uuid: &str) -> (r: Option<bool>)
        requires
            self.wf(),
        ensures
            match r {
                Some(b) => self.has_invoice(uuid@) && (b <==> self.invoices@[self.invoice_index(
                    uuid@,
                )].status == InvoiceStatus::Paid),
                None => !self.has_invoice(uuid@),
            },
    {
        match self.find_invoice(uuid) {
            Some(i) => {
                proof {
                    lemma_invoice_index_agrees(*self, i as int, uuid@);
                }
                Some(matches!(self.invoices[i].status, InvoiceStatus::Paid))
            },
            None => None,
        }
    }

    /// True (when the invoice exists) exactly for the matching status.
    pub fn is_invoice_pending(&self, uuid: &str) -> (r: Option<bool>)
        requires
            self.wf(),
        ensures
            match r {
                Some(b) => self.has_invoice(uuid@) && (b <==> self.invoices@[self.invoice_index(
                    uuid@,
                )].status == InvoiceStatus::Pending),
                None => !self.has_invoice(uuid@),
            },
    {
        match self.find_invoice(uuid) {
            Some(i) => {
                proof {
                    lemma_invoice_index_agrees(*self, i as int, uuid@);
                }
                Some(matches!(self.invoices[i].status, InvoiceStatus::Pending))
            },
            None => None,
        }
    }

    /// Deletes the invoice with id `uuid`; deleting an unknown id changes
    /// nothing.
    pub fn remove_invoice(&mut self, uuid: &str) -> (r: Result<(), Error>)
        requires
            old(self).wf(),
        ensures
            final(self).wf(),
            r is Ok,
            final(self).chains@ == old(self).chains@,
            final(self).payments@ == old(self).payments@,
            final(self).webhooks@ == old(self).webhooks@,
            old(self).has_invoice(uuid@) ==> final(self).invoices@ == old(self).invoices@.remove(
                old(self).invoice_index(uuid@),
            ),
            !old(self).has_invoice(uuid@) ==> final(self).invoices@ == old(self).invoices@,
    {
        let i = match self.find_invoice(uuid) {
            Some(i) => i,
            None => {
                return Ok(());
            },
        };
        proof {
            lemma_invoice_index_agrees(*old(self), i as int, uuid@);
        }
        self.invoices.remove(i);
        proof {
            old(self).invoices@.remove_ensures(i as int);
            let pre = old(self).invoices@;
            let post = self.invoices@;
            assert forall|a: int, b: int| 0 <= a < b < post.len() implies (post[a].id@
                != post[b].id@ && !(post[a].status == InvoiceStatus::Pending && post[b].status
                == InvoiceStatus::Pending && post[a].network@ == post[b].network@
                && post[a].address@ == post[b].address@)) by {
                let oa = if a < i {
                    a
                } else {
                    a + 1
                };
                let ob = if b < i {
                    b
                } else {
                    b + 1
                };
                assert(post[a] == pre[oa]);
                assert(post[b] == pre[ob]);
            }
            assert forall|a: int| 0 <= a < post.len() implies (normalized(
                #[trigger] post[a].address@,
            ) == post[a].address@ && post[a].paid_raw.as_nat() == sum_confirmed(
                self.payments@,
                post[a].id@,
            )) by {
                let oa = if a < i {
                    a
                } else {
                    a + 1
                };
                assert(post[a] == pre[oa]);
            }
        }
        Ok(())
    }
}

/// The address indexes of the Pending invoices on `chain`, in store order.
pub open spec fn busy_indexes(is: Seq<Invoice>, chain: Seq<char>) -> Seq<u32>
    decreases is.len(),
{
    if is.len() == 0 {
        Seq::empty()
    } else {
        busy_indexes(is.drop_last(), chain) + if is.last().status == InvoiceStatus::Pending
            && is.last().network@ == chain {
            seq![is.last().address_index]
        } else {
            Seq::empty()
        }
    }
}

/// An invoice may stay as it is or leave Pending; nothing else.
pub open spec fn status_transition_allowed(a: InvoiceStatus, b: InvoiceStatus) -> bool {
    a == b || a == InvoiceStatus::Pending
}

/// An invoice id that no payment row carries contributes an empty sum.
proof fn lemma_sum_confirmed_absent(ps: Seq<Payment>, inv_id: Seq<char>)
    requires
        forall|i: int| 0 <= i < ps.len() ==> (#[trigger] ps[i].invoice_id@) != inv_id,
    ensures
        sum_confirmed(ps, inv_id) == 0,
    decreases ps.len(),
{
    if ps.len() > 0 {
        assert(ps.last() == ps[ps.len() - 1]);
        lemma_sum_confirmed_absent(ps.drop_last(), inv_id);
    }
}

/// `invoice_index` picks the index that the scan found: ids are unique.
pub proof fn lemma_invoice_index_agrees(s: Store, i: int, id: Seq<char>)
    requires
        invoice_ids_unique(s.invoices@),
        0 <= i < s.invoices@.len(),
        s.invoices@[i].id@ == id,
    ensures
        s.invoice_index(id) == i,
{
    assert(s.has_invoice(id));
    let j = s.invoice_index(id);
    if i < j {
        assert(s.invoices@[i].id@ != s.invoices@[j].id@);
    } else if j < i {
        assert(s.invoices@[j].id@ != s.invoices@[i].id@);
    }
}

/// `pending_index_at` picks the index that the scan found: at most one
/// invoice is Pending per `(chain, address)`.
proof fn lemma_pending_index_agrees(s: Store, i: int, chain: Seq<char>, addr: Seq<char>)
    requires
        pending_addresses_unique(s.invoices@),
        0 <= i < s.invoices@.len(),
        s.invoices@[i].status == InvoiceStatus::Pending,
        s.invoices@[i].network@ == chain,
        s.invoices@[i].address@ == addr,
    ensures
        s.pending_index_at(chain, addr) == i,
{
    assert(s.has_pending_at(chain, addr));
    let j = s.pending_index_at(chain, addr);
    if i < j {
        assert(!(s.invoices@[i].network@ == s.invoices@[j].network@ && s.invoices@[i].address@
            == s.invoices@[j].address@));
    } else if j < i {
        assert(!(s.invoices@[j].network@ == s.invoices@[i].network@ && s.invoices@[j].address@
            == s.invoices@[i].address@));
    }
}

/// A status change within the allowed transitions keeps the invariant.
proof fn lemma_wf_invoice_status_update(pre: Store, post: Store, i: int)
    requires
        pre.wf(),
        0 <= i < pre.invoices@.len(),
        post.invoices@ == pre.invoices@.update(i, post.invoices@[i]),
        post.invoices@[i] == (Invoice { status: post.invoices@[i].status, ..pre.invoices@[i] }),
        post.invoices@[i].status == InvoiceStatus::Pending ==> pre.invoices@[i].status
            == InvoiceStatus::Pending,
        post.chains@ == pre.chains@,
        post.payments@ == pre.payments@,
        post.webhooks@ == pre.webhooks@,
    ensures
        post.wf(),
{
    assert forall|a: int, b: int| 0 <= a < b < post.invoices@.len() implies (post.invoices@[a].id@
        != post.invoices@[b].id@ && !(post.invoices@[a].status == InvoiceStatus::Pending
        && post.invoices@[b].status == InvoiceStatus::Pending && post.invoices@[a].network@
        == post.invoices@[b].network@ && post.invoices@[a].address@
        == post.invoices@[b].address@)) by {
        assert(pre.invoices@[a].id@ != pre.invoices@[b].id@);
        if pre.invoices@[a].status == InvoiceStatus::Pending && pre.invoices@[b].status
            == InvoiceStatus::Pending {
            assert(!(pre.invoices@[a].network@ == pre.invoices@[b].network@
                && pre.invoices@[a].address@ == pre.invoices@[b].address@));
        }
    }
    assert forall|a: int| 0 <= a < post.invoices@.len() implies (normalized(
        #[trigger] post.invoices@[a].address@,
    ) == post.invoices@[a].address@ && post.invoices@[a].paid_raw.as_nat() == sum_confirmed(
        post.payments@,
        post.invoices@[a].id@,
    )) by {
        if a != i {
            assert(post.invoices@[a] == pre.invoices@[a]);
        }
    }
}

impl Store {
    /// Index of the payment with id `id`, if any.
    fn find_payment(&self, id: &str) -> (r: Option<usize>)
        ensures
            match r {
                Some(i) => i < self.payments@.len() && self.payments@[i as int].id@ == id@,
                None => !self.has_payment(id@),
            },
    {
        let mut i: usize = 0;
        while i < self.payments.len()
            invariant
                i <= self.payments@.len(),
                forall|j: int| 0 <= j < i ==> self.payments@[j].id@ != id@,
            decreases self.payments@.len() - i,
        {
            if str_eq(self.payments[i].id.as_str(), id) {
                return Some(i);
            }
            i += 1;
        }
        None
    }

    pub open spec fn has_payment(self, id: Seq<char>) -> bool {
        exists|i: int| 0 <= i < self.payments@.len() && self.payments@[i].id@ == id
    }

    pub open spec fn payment_index(self, id: Seq<char>) -> int {
        choose|i: int| 0 <= i < self.payments@.len() && self.payments@[i].id@ == id
    }

    pub open spec fn has_payment_key(
        self,
        inv: Seq<char>,
        tx: Seq<char>,
        li: Option<u64>,
    ) -> bool {
        exists|i: int|
            0 <= i < self.payments@.len() && (#[trigger] self.payments@[i]).invoice_id@ == inv
                && self.payments@[i].tx_hash@ == tx && self.payments@[i].log_index == li
    }

    pub open spec fn payment_key_index(self, inv: Seq<char>, tx: Seq<char>, li: Option<u64>) -> int {
        choose|i: int|
            0 <= i < self.payments@.len() && (#[trigger] self.payments@[i]).invoice_id@ == inv
                && self.payments@[i].tx_hash@ == tx && self.payments@[i].log_index == li
    }

    /// Records an observed transfer as a Confirming payment. Re-observing
    /// the same `(invoice_id, tx_hash, log_index)` refreshes only that
    /// payment's `block_number`; `Ok(true)` means a fresh row was inserted.
    pub fn add_payment_attempt(
        &mut self,
        payment_id: String,
        invoice_id: &str,
        from: &str,
        to: &str,
        tx_hash: &str,
        amount_raw: Amount,
        block_number: u64,
        network: &str,
        log_index: Option<u64>,
        created_at: i64,
    ) -> (r: Result<bool, Error>)
        requires
            old(self).wf(),
        ensures
            final(self).wf(),
            final(self).chains@ == old(self).chains@,
            final(self).invoices@ == old(self).invoices@,
            final(self).webhooks@ == old(self).webhooks@,
            match r {
                Ok(false) => {
                    let k = old(self).payment_key_index(invoice_id@, tx_hash@, log_index);
                    &&& old(self).has_payment_key(invoice_id@, tx_hash@, log_index)
                    &&& final(self).payments@ == old(self).payments@.update(
                        k,
                        Payment { block_number, ..old(self).payments@[k] },
                    )
                },
                Ok(true) => {
                    let np = final(self).payments@.last();
                    &&& !old(self).has_payment_key(invoice_id@, tx_hash@, log_index)
                    &&& old(self).has_invoice(invoice_id@)
                    &&& !old(self).has_payment(payment_id@)
                    &&& final(self).payments@.len() == old(self).payments@.len() + 1
                    &&& final(self).payments@.drop_last() == old(self).payments@
                    &&& np.id == payment_id
                    &&& np.invoice_id@ == invoice_id@
                    &&& np.from@ == from@
                    &&& np.to@ == to@
                    &&& np.network@ == network@
                    &&& np.tx_hash@ == tx_hash@
                    &&& np.log_index == log_index
                    &&& np.amount_raw == amount_raw
                    &&& np.block_number == block_number
                    &&& np.status == PaymentStatus::Confirming
                    &&& np.created_at == created_at
                },
                Err(Error::NotFound) => !old(self).has_payment_key(invoice_id@, tx_hash@, log_index)
                    && !old(self).has_invoice(invoice_id@) && final(self).payments@ == old(
                    self,
                ).payments@,
                Err(Error::DuplicateId) => !old(self).has_payment_key(
                    invoice_id@,
                    tx_hash@,
                    log_index,
                ) && old(self).has_invoice(invoice_id@) && old(self).has_payment(payment_id@)
                    && final(self).payments@ == old(self).payments@,
                Err(_) => false,
            },
    {
        let mut i: usize = 0;
        while i < self.payments.len()
            invariant
                self == old(self),
                old(self).wf(),
                i <= self.payments@.len(),
                forall|j: int|
                    0 <= j < i ==> !((#[trigger] self.payments@[j]).invoice_id@ == invoice_id@
                        && self.payments@[j].tx_hash@ == tx_hash@ && self.payments@[j].log_index
                        == log_index),
            decreases self.payments@.len() - i,
        {
            if str_eq(self.payments[i].invoice_id.as_str(), invoice_id) && str_eq(
                self.payments[i].tx_hash.as_str(),
                tx_hash,
            ) && self.payments[i].log_index == log_index {
                proof {
                    lemma_payment_key_index_agrees(
                        *old(self),
                        i as int,
                        invoice_id@,
                        tx_hash@,
                        log_index,
                    );
                }
                self.payments[i].block_number = block_number;
                proof {
                    lemma_wf_payment_update(*old(self), *self, i as int);
                }
                return Ok(false);
            }
            i += 1;
        }
        if self.find_invoice(invoice_id).is_none() {
            return Err(Error::NotFound);
        }
        if self.find_payment(payment_id.as_str()).is_some() {
            return Err(Error::DuplicateId);
        }
        let p = Payment {
            id: payment_id,
            invoice_id: invoice_id.to_owned(),
            from: from.to_owned(),
            to: to.to_owned(),
            network: network.to_owned(),
            tx_hash: tx_hash.to_owned(),
            log_index,
            amount_raw,
            block_number,
            status: PaymentStatus::Confirming,
            created_at,
        };
        proof {
            lemma_wf_payment_push(*old(self), p);
        }
        self.payments.push(p);
        Ok(true)
    }

    /// Copies of the payments still awaiting confirmation, in store order.
    pub fn get_confirming_payments(&self) -> (r: Vec<Payment>)
        ensures
            r@ == self.payments@.filter(confirming_payment()),
    {
        let ghost pred = confirming_payment();
        let mut out: Vec<Payment> = Vec::new();
        let mut i: usize = 0;
        proof {
            reveal(Seq::filter);
            assert(self.payments@.subrange(0, 0).filter(pred) =~= Seq::<Payment>::empty());
        }
        while i < self.payments.len()
            invariant
                i <= self.payments@.len(),
                pred == confirming_payment(),
                out@ == self.payments@.subrange(0, i as int).filter(pred),
            decreases self.payments@.len() - i,
        {
            proof {
                reveal(Seq::filter);
                assert(self.payments@.subrange(0, i + 1).drop_last() =~= self.payments@.subrange(
                    0,
                    i as int,
                ));
            }
            if matches!(self.payments[i].status, PaymentStatus::Confirming) {
                out.push(self.payments[i].clone());
            }
            i += 1;
        }
        proof {
            assert(self.payments@.subrange(0, self.payments@.len() as int) =~= self.payments@);
        }
        out
    }

    /// Overwrites the payment's `block_number` after a reorg moved it.
    pub fn update_payment_block(&mut self, payment_id: &str, block_num: u64) -> (r: Result<
        (),
        Error,
    >)
        requires
            old(self).wf(),
        ensures
            final(self).wf(),
            final(self).chains@ == old(self).chains@,
            final(self).invoices@ == old(self).invoices@,
            final(self).webhooks@ == old(self).webhooks@,
            match r {
                Ok(()) => {
                    let k = old(self).payment_index(payment_id@);
                    &&& old(self).has_payment(payment_id@)
                    &&& final(self).payments@ == old(self).payments@.update(
                        k,
                        Payment { block_number: block_num, ..old(self).payments@[k] },
                    )
                },
                Err(Error::NotFound) => !old(self).has_payment(payment_id@) && final(self).payments@
                    == old(self).payments@,
                Err(_) => false,
            },
    {
        match self.find_payment(payment_id) {
            Some(i) => {
                proof {
                    lemma_payment_index_agrees(*old(self), i as int, payment_id@);
                }
                self.payments[i].block_number = block_num;
                proof {
                    lemma_wf_payment_update(*old(self), *self, i as int);
                }
                Ok(())
            },
            None => Err(Error::NotFound),
        }
    }

    /// Atomically confirms a Confirming payment and credits its amount to
    /// the invoice; the invoice becomes Paid the moment the credited total
    /// reaches the requested amount. Returns whether the invoice is now
    /// fully paid.
    pub fn finalize_payment(&mut self, payment_id: &str) -> (r: Result<bool, Error>)
        requires
            old(self).wf(),
        ensures
            final(self).wf(),
            final(self).chains@ == old(self).chains@,
            final(self).webhooks@ == old(self).webhooks@,
            match r {
                Ok(fully) => {
                    let k = old(self).payment_index(payment_id@);
                    let p = old(self).payments@[k];
                    let ii = old(self).invoice_index(p.invoice_id@);
                    let inv = old(self).invoices@[ii];
                    let new_paid = inv.paid_raw.as_nat() + p.amount_raw.as_nat();
                    &&& old(self).has_payment(payment_id@)
                    &&& p.status == PaymentStatus::Confirming
                    &&& old(self).has_invoice(p.invoice_id@)
                    &&& new_paid
                        < 0x1_0000_0000_0000_0000_0000_0000_0000_0000_0000_0000_0000_0000_0000_0000_0000_0000
                    &&& final(self).payments@ == old(self).payments@.update(
                        k,
                        Payment { status: PaymentStatus::Confirmed, ..p },
                    )
                    &&& (fully <==> new_paid >= inv.amount_raw.as_nat())
                    &&& {
                        let ninv = final(self).invoices@[ii];
                        &&& final(self).invoices@ == old(self).invoices@.update(ii, ninv)
                        &&& ninv.paid_raw.as_nat() == new_paid
                        &&& ninv.paid@ == crate::amount::format_units_spec(
                            new_paid,
                            inv.decimals as nat,
                        )
                        &&& ninv.status == (if fully && inv.status == InvoiceStatus::Pending {
                            InvoiceStatus::Paid
                        } else {
                            inv.status
                        })
                        &&& ninv.id == inv.id
                        &&& ninv.address == inv.address
                        &&& ninv.address_index == inv.address_index
                        &&& ninv.amount == inv.amount
                        &&& ninv.amount_raw == inv.amount_raw
                        &&& ninv.token == inv.token
                        &&& ninv.network == inv.network
                        &&& ninv.decimals == inv.decimals
                        &&& ninv.webhook_url == inv.webhook_url
                        &&& ninv.webhook_secret == inv.webhook_secret
                        &&& ninv.created_at == inv.created_at
                        &&& ninv.expires_at == inv.expires_at
                    }
                },
                Err(Error::NotFound) => (!old(self).has_payment(payment_id@) || (old(
                    self,
                ).payments@[old(self).payment_index(payment_id@)].status
                    == PaymentStatus::Confirming && !old(self).has_invoice(
                    old(self).payments@[old(self).payment_index(payment_id@)].invoice_id@,
                ))) && final(self).unchanged(*old(self)),
                Err(Error::BadInput) => old(self).has_payment(payment_id@) && old(self).payments@[
                    old(self).payment_index(payment_id@)
                ].status == PaymentStatus::Confirmed && final(self).unchanged(*old(self)),
                Err(Error::Storage) => {
                    let k = old(self).payment_index(payment_id@);
                    let p = old(self).payments@[k];
                    &&& old(self).has_payment(payment_id@)
                    &&& p.status == PaymentStatus::Confirming
                    &&& old(self).has_invoice(p.invoice_id@)
                    &&& old(self).invoices@[old(self).invoice_index(p.invoice_id@)].paid_raw.as_nat()
                        + p.amount_raw.as_nat()
                        >= 0x1_0000_0000_0000_0000_0000_0000_0000_0000_0000_0000_0000_0000_0000_0000_0000_0000
                    &&& final(self).unchanged(*old(self))
                },
                Err(_) => false,
            },
    {
        let pi = match self.find_payment(payment_id) {
            Some(i) => i,
            None => {
                return Err(Error::NotFound);
            },
        };
        proof {
            lemma_payment_index_agrees(*old(self), pi as int, payment_id@);
        }
        if matches!(self.payments[pi].status, PaymentStatus::Confirmed) {
            return Err(Error::BadInput);
        }
        let ii = match self.find_invoice(self.payments[pi].invoice_id.as_str()) {
            Some(i) => i,
            None => {
                return Err(Error::NotFound);
            },
        };
        proof {
            lemma_invoice_index_agrees(*old(self), ii as int, self.payments@[pi as int].invoice_id@);
        }
        let amount = self.payments[pi].amount_raw;
        let new_paid = match self.invoices[ii].paid_raw.checked_add(&amount) {
            Some(v) => v,
            None => {
                return Err(Error::Storage);
            },
        };
        self.payments[pi].status = PaymentStatus::Confirmed;
        let decimals = self.invoices[ii].decimals;
        let paid_human = new_paid.format_units(decimals);
        self.invoices[ii].paid_raw = new_paid;
        self.invoices[ii].paid = paid_human;
        let fully = new_paid.ge(&self.invoices[ii].amount_raw);
        if fully && matches!(self.invoices[ii].status, InvoiceStatus::Pending) {
            self.invoices[ii].status = InvoiceStatus::Paid;
        }
        proof {
            let pre = *old(self);
            let post = *self;
            let p = pre.payments@[pi as int];
            let inv = pre.invoices@[ii as int];
            assert(post.payments@ =~= pre.payments@.update(
                pi as int,
                Payment { status: PaymentStatus::Confirmed, ..p },
            ));
            assert(post.invoices@ =~= pre.invoices@.update(
                ii as int,
                post.invoices@[ii as int],
            ));
            assert forall|a: int, b: int| 0 <= a < b < post.payments@.len() implies (
            post.payments@[a].id@ != post.payments@[b].id@ && !(post.payments@[a].invoice_id@
                == post.payments@[b].invoice_id@ && post.payments@[a].tx_hash@
                == post.payments@[b].tx_hash@ && post.payments@[a].log_index
                == post.payments@[b].log_index)) by {
                assert(pre.payments@[a].id@ != pre.payments@[b].id@);
                assert(!(pre.payments@[a].invoice_id@ == pre.payments@[b].invoice_id@
                    && pre.payments@[a].tx_hash@ == pre.payments@[b].tx_hash@
                    && pre.payments@[a].log_index == pre.payments@[b].log_index));
            }
            assert forall|a: int, b: int| 0 <= a < b < post.invoices@.len() implies (
            post.invoices@[a].id@ != post.invoices@[b].id@ && !(post.invoices@[a].status
                == InvoiceStatus::Pending && post.invoices@[b].status == InvoiceStatus::Pending
                && post.invoices@[a].network@ == post.invoices@[b].network@
                && post.invoices@[a].address@ == post.invoices@[b].address@)) by {
                assert(pre.invoices@[a].id@ != pre.invoices@[b].id@);
                if pre.invoices@[a].status == InvoiceStatus::Pending && pre.invoices@[b].status
                    == InvoiceStatus::Pending {
                    assert(!(pre.invoices@[a].network@ == pre.invoices@[b].network@
                        && pre.invoices@[a].address@ == pre.invoices@[b].address@));
                }
            }
            assert forall|a: int| 0 <= a < post.invoices@.len() implies normalized(
                #[trigger] post.invoices@[a].address@,
            ) == post.invoices@[a].address@ by {
                if a != ii {
                    assert(post.invoices@[a] == pre.invoices@[a]);
                }
            }
            assert forall|a: int| 0 <= a < post.invoices@.len() implies #[trigger] post.invoices@[
                a
            ].paid_raw.as_nat() == sum_confirmed(post.payments@, post.invoices@[a].id@) by {
                lemma_sum_confirmed_update(
                    pre.payments@,
                    pi as int,
                    Payment { status: PaymentStatus::Confirmed, ..p },
                    post.invoices@[a].id@,
                );
                if a != ii {
                    assert(post.invoices@[a] == pre.invoices@[a]);
                    assert(pre.invoices@[a].id@ != inv.id@);
                    assert(payment_contribution(p, post.invoices@[a].id@)
                        == payment_contribution(
                        Payment { status: PaymentStatus::Confirmed, ..p },
                        post.invoices@[a].id@,
                    ));
                } else {
                    assert(payment_contribution(p, inv.id@) == 0);
                    assert(payment_contribution(
                        Payment { status: PaymentStatus::Confirmed, ..p },
                        inv.id@,
                    ) == p.amount_raw.as_nat());
                }
            }
        }
        Ok(fully)
    }

    /// Atomically moves every Pending invoice past its deadline to
    /// Expired, returning `(id, network, address)` of each, in store
    /// order.
    pub fn expire_old_invoices(&mut self, now: i64) -> (r: Vec<(String, String, String)>)
        requires
            old(self).wf(),
        ensures
            final(self).wf(),
            final(self).chains@ == old(self).chains@,
            final(self).payments@ == old(self).payments@,
            final(self).webhooks@ == old(self).webhooks@,
            final(self).invoices@.len() == old(self).invoices@.len(),
            forall|i: int|
                0 <= i < old(self).invoices@.len() ==> final(self).invoices@[i] == (if should_expire(
                    old(self).invoices@[i],
                    now,
                ) {
                    Invoice { status: InvoiceStatus::Expired, ..old(self).invoices@[i] }
                } else {
                    old(self).invoices@[i]
                }),
            r@.len() == expiring(old(self).invoices@, now).len(),
            forall|k: int|
                0 <= k < r@.len() ==> (#[trigger] r@[k]).0 == expiring(
                    old(self).invoices@,
                    now,
                )[k].id && r@[k].1 == expiring(old(self).invoices@, now)[k].network && r@[k].2
                    == expiring(old(self).invoices@, now)[k].address,
    {
        let mut out: Vec<(String, String, String)> = Vec::new();
        let mut i: usize = 0;
        proof {
            assert(old(self).invoices@.subrange(0, 0) =~= Seq::<Invoice>::empty());
        }
        while i < self.invoices.len()
            invariant
                old(self).wf(),
                i <= self.invoices@.len(),
                self.chains@ == old(self).chains@,
                self.payments@ == old(self).payments@,
                self.webhooks@ == old(self).webhooks@,
                self.invoices@.len() == old(self).invoices@.len(),
                forall|j: int|
                    0 <= j < i ==> self.invoices@[j] == (if should_expire(
                        old(self).invoices@[j],
                        now,
                    ) {
                        Invoice { status: InvoiceStatus::Expired, ..old(self).invoices@[j] }
                    } else {
                        old(self).invoices@[j]
                    }),
                forall|j: int| i <= j < self.invoices@.len() ==> self.invoices@[j] == old(
                    self,
                ).invoices@[j],
                out@.len() == expiring(old(self).invoices@.subrange(0, i as int), now).len(),
                forall|k: int|
                    0 <= k < out@.len() ==> (#[trigger] out@[k]).0 == expiring(
                        old(self).invoices@.subrange(0, i as int),
                        now,
                    )[k].id && out@[k].1 == expiring(
                        old(self).invoices@.subrange(0, i as int),
                        now,
                    )[k].network && out@[k].2 == expiring(
                        old(self).invoices@.subrange(0, i as int),
                        now,
                    )[k].address,
            decreases self.invoices@.len() - i,
        {
            proof {
                assert(old(self).invoices@.subrange(0, i + 1).drop_last() =~= old(
                    self,
                ).invoices@.subrange(0, i as int));
            }
            if matches!(self.invoices[i].status, InvoiceStatus::Pending) && self.invoices[i].expires_at
                <= now {
                let id = self.invoices[i].id.clone();
                let network = self.invoices[i].network.clone();
                let address = self.invoices[i].address.clone();
                self.invoices[i].status = InvoiceStatus::Expired;
                out.push((id, network, address));
            }
            i += 1;
        }
        proof {
            assert(old(self).invoices@.subrange(0, old(self).invoices@.len() as int) =~= old(
                self,
            ).invoices@);
            let pre = *old(self);
            let post = *self;
            assert forall|a: int, b: int| 0 <= a < b < post.invoices@.len() implies (
            post.invoices@[a].id@ != post.invoices@[b].id@ && !(post.invoices@[a].status
                == InvoiceStatus::Pending && post.invoices@[b].status == InvoiceStatus::Pending
                && post.invoices@[a].network@ == post.invoices@[b].network@
                && post.invoices@[a].address@ == post.invoices@[b].address@)) by {
                assert(pre.invoices@[a].id@ != pre.invoices@[b].id@);
                if pre.invoices@[a].status == InvoiceStatus::Pending && pre.invoices@[b].status
                    == InvoiceStatus::Pending {
                    assert(!(pre.invoices@[a].network@ == pre.invoices@[b].network@
                        && pre.invoices@[a].address@ == pre.invoices@[b].address@));
                }
            }
            assert forall|a: int| 0 <= a < post.invoices@.len() implies (normalized(
                #[trigger] post.invoices@[a].address@,
            ) == post.invoices@[a].address@ && post.invoices@[a].paid_raw.as_nat()
                == sum_confirmed(post.payments@, post.invoices@[a].id@)) by {
                assert(pre.invoices@[a].paid_raw.as_nat() == sum_confirmed(
                    pre.payments@,
                    pre.invoices@[a].id@,
                ));
            }
        }
        out
    }
}

/// A Pending invoice whose deadline has passed.
pub open spec fn should_expire(inv: Invoice, now: i64) -> bool {
    inv.status == InvoiceStatus::Pending && inv.expires_at <= now
}

/// The invoices that a janitor pass at `now` expires, in store order.
pub open spec fn expiring(is: Seq<Invoice>, now: i64) -> Seq<Invoice>
    decreases is.len(),
{
    if is.len() == 0 {
        Seq::empty()
    } else {
        expiring(is.drop_last(), now) + if should_expire(is.last(), now) {
            seq![is.last()]
        } else {
            Seq::empty()
        }
    }
}

/// Every expiring entry is one of the invoices, and it is one that a pass
/// at `now` expires.
pub proof fn lemma_expiring_from(is: Seq<Invoice>, now: i64)
    ensures
        forall|k: int|
            0 <= k < expiring(is, now).len() ==> exists|i: int|
                0 <= i < is.len() && is[i] == #[trigger] expiring(is, now)[k] && should_expire(
                    is[i],
                    now,
                ),
    decreases is.len(),
{
    if is.len() > 0 {
        let d = is.drop_last();
        lemma_expiring_from(d, now);
        assert forall|k: int| 0 <= k < expiring(is, now).len() implies exists|i: int|
            0 <= i < is.len() && is[i] == #[trigger] expiring(is, now)[k] && should_expire(
                is[i],
                now,
            ) by {
            if k < expiring(d, now).len() {
                assert(expiring(is, now)[k] == expiring(d, now)[k]);
                let i = choose|i: int|
                    0 <= i < d.len() && d[i] == expiring(d, now)[k] && should_expire(d[i], now);
                assert(is[i] == d[i]);
            } else {
                assert(expiring(is, now)[k] == is.last());
                assert(is[is.len() - 1] == is.last());
            }
        }
    }
}

/// The payments awaiting confirmation.
pub open spec fn confirming_payment() -> spec_fn(Payment) -> bool {
    |p: Payment| p.status == PaymentStatus::Confirming
}

/// `payment_index` picks the index that the scan found: ids are unique.
proof fn lemma_payment_index_agrees(s: Store, i: int, id: Seq<char>)
    requires
        payments_unique(s.payments@),
        0 <= i < s.payments@.len(),
        s.payments@[i].id@ == id,
    ensures
        s.payment_index(id) == i,
{
    assert(s.has_payment(id));
    let j = s.payment_index(id);
    if i < j {
        assert(s.payments@[i].id@ != s.payments@[j].id@);
    } else if j < i {
        assert(s.payments@[j].id@ != s.payments@[i].id@);
    }
}

/// `payment_key_index` picks the index that the scan found: keys are
/// unique.
proof fn lemma_payment_key_index_agrees(
    s: Store,
    i: int,
    inv: Seq<char>,
    tx: Seq<char>,
    li: Option<u64>,
)
    requires
        payments_unique(s.payments@),
        0 <= i < s.payments@.len(),
        s.payments@[i].invoice_id@ == inv,
        s.payments@[i].tx_hash@ == tx,
        s.payments@[i].log_index == li,
    ensures
        s.payment_key_index(inv, tx, li) == i,
{
    assert(s.has_payment_key(inv, tx, li));
    let j = s.payment_key_index(inv, tx, li);
    if i < j {
        assert(!(s.payments@[i].invoice_id@ == s.payments@[j].invoice_id@
            && s.payments@[i].tx_hash@ == s.payments@[j].tx_hash@ && s.payments@[i].log_index
            == s.payments@[j].log_index));
    } else if j < i {
        assert(!(s.payments@[j].invoice_id@ == s.payments@[i].invoice_id@
            && s.payments@[j].tx_hash@ == s.payments@[i].tx_hash@ && s.payments@[j].log_index
            == s.payments@[i].log_index));
    }
}

/// Replacing one payment changes each invoice's confirmed sum by the
/// difference of the old and new contributions.
proof fn lemma_sum_confirmed_update(ps: Seq<Payment>, k: int, p: Payment, id: Seq<char>)
    requires
        0 <= k < ps.len(),
    ensures
        sum_confirmed(ps.update(k, p), id) + payment_contribution(ps[k], id) == sum_confirmed(
            ps,
            id,
        ) + payment_contribution(p, id),
    decreases ps.len(),
{
    if k == ps.len() - 1 {
        assert(ps.update(k, p).drop_last() =~= ps.drop_last());
        assert(ps.update(k, p).last() == p);
        assert(ps.last() == ps[k]);
    } else {
        assert(ps.update(k, p).drop_last() =~= ps.drop_last().update(k, p));
        assert(ps.update(k, p).last() == ps.last());
        assert(ps.drop_last()[k] == ps[k]);
        lemma_sum_confirmed_update(ps.drop_last(), k, p, id);
    }
}

/// A payment that differs only in `block_number` leaves the invariant
/// intact.
proof fn lemma_wf_payment_update(pre: Store, post: Store, i: int)
    requires
        pre.wf(),
        0 <= i < pre.payments@.len(),
        post.payments@ == pre.payments@.update(i, post.payments@[i]),
        post.payments@[i] == (Payment {
            block_number: post.payments@[i].block_number,
            ..pre.payments@[i]
        }),
        post.chains@ == pre.chains@,
        post.invoices@ == pre.invoices@,
        post.webhooks@ == pre.webhooks@,
    ensures
        post.wf(),
{
    assert forall|a: int, b: int| 0 <= a < b < post.payments@.len() implies (post.payments@[a].id@
        != post.payments@[b].id@ && !(post.payments@[a].invoice_id@
        == post.payments@[b].invoice_id@ && post.payments@[a].tx_hash@
        == post.payments@[b].tx_hash@ && post.payments@[a].log_index
        == post.payments@[b].log_index)) by {
        assert(pre.payments@[a].id@ != pre.payments@[b].id@);
        assert(!(pre.payments@[a].invoice_id@ == pre.payments@[b].invoice_id@
            && pre.payments@[a].tx_hash@ == pre.payments@[b].tx_hash@
            && pre.payments@[a].log_index == pre.payments@[b].log_index));
    }
    assert forall|a: int| 0 <= a < post.invoices@.len() implies #[trigger] post.invoices@[
        a
    ].paid_raw.as_nat() == sum_confirmed(post.payments@, post.invoices@[a].id@) by {
        lemma_sum_confirmed_update(
            pre.payments@,
            i,
            post.payments@[i],
            post.invoices@[a].id@,
        );
        assert(payment_contribution(pre.payments@[i], post.invoices@[a].id@)
            == payment_contribution(post.payments@[i], post.invoices@[a].id@));
        assert(pre.invoices@[a].paid_raw.as_nat() == sum_confirmed(
            pre.payments@,
            pre.invoices@[a].id@,
        ));
    }
}

/// Appending a Confirming payment with a fresh id and key keeps the
/// invariant.
proof fn lemma_wf_payment_push(pre: Store, p: Payment)
    requires
        pre.wf(),
        p.status == PaymentStatus::Confirming,
        forall|i: int| 0 <= i < pre.payments@.len() ==> (#[trigger] pre.payments@[i]).id@ != p.id@,
        forall|i: int|
            0 <= i < pre.payments@.len() ==> !((#[trigger] pre.payments@[i]).invoice_id@
                == p.invoice_id@ && pre.payments@[i].tx_hash@ == p.tx_hash@
                && pre.payments@[i].log_index == p.log_index),
    ensures
        payments_unique(pre.payments@.push(p)),
        paid_sums_consistent(pre.invoices@, pre.payments@.push(p)),
{
    assert forall|a: int, b: int| 0 <= a < b < pre.payments@.push(p).len() implies (
    pre.payments@.push(p)[a].id@ != pre.payments@.push(p)[b].id@ && !(pre.payments@.push(
        p,
    )[a].invoice_id@ == pre.payments@.push(p)[b].invoice_id@ && pre.payments@.push(p)[a].tx_hash@
        == pre.payments@.push(p)[b].tx_hash@ && pre.payments@.push(p)[a].log_index
        == pre.payments@.push(p)[b].log_index)) by {
        if b < pre.payments@.len() {
            assert(pre.payments@.push(p)[a] == pre.payments@[a]);
            assert(pre.payments@.push(p)[b] == pre.payments@[b]);
        } else {
            assert(pre.payments@.push(p)[a] == pre.payments@[a]);
            assert(pre.payments@.push(p)[b] == p);
        }
    }
    assert forall|a: int| 0 <= a < pre.invoices@.len() implies #[trigger] pre.invoices@[
        a
    ].paid_raw.as_nat() == sum_confirmed(pre.payments@.push(p), pre.invoices@[a].id@) by {
        assert(pre.payments@.push(p).drop_last() =~= pre.payments@);
        assert(pre.payments@.push(p).last() == p);
        assert(payment_contribution(p, pre.invoices@[a].id@) == 0);
    }
}

/// A job ready to lease: Pending and due.
pub open spec fn due_pending(w: WebhookRecord, now: i64) -> bool {
    w.status == WebhookStatus::Pending && w.next_retry <= now
}

/// Some invoice with id `inv_id` carries a signing secret.
pub open spec fn invoice_has_secret(is: Seq<Invoice>, inv_id: Seq<char>) -> bool {
    exists|i: int|
        0 <= i < is.len() && (#[trigger] is[i]).id@ == inv_id && is[i].webhook_secret is Some
}

/// A job the dispatcher can take: Pending, due, and its invoice still
/// holds the secret the delivery must be signed with.
pub open spec fn leasable(is: Seq<Invoice>, w: WebhookRecord, now: i64) -> bool {
    due_pending(w, now) && invoice_has_secret(is, w.invoice_id@)
}

/// The indexes of the first `cap` leasable jobs, in queue order.
pub open spec fn lease_indices(is: Seq<Invoice>, ws: Seq<WebhookRecord>, now: i64, cap: nat) -> Seq<
    int,
>
    decreases ws.len(),
{
    if ws.len() == 0 {
        Seq::empty()
    } else {
        let pre = lease_indices(is, ws.drop_last(), now, cap);
        if leasable(is, ws.last(), now) && pre.len() < cap {
            pre.push(ws.len() - 1)
        } else {
            pre
        }
    }
}

/// Lease indexes are valid positions of leasable jobs.
proof fn lemma_lease_indices_sound(is: Seq<Invoice>, ws: Seq<WebhookRecord>, now: i64, cap: nat)
    ensures
        lease_indices(is, ws, now, cap).len() <= ws.len(),
        forall|k: int|
            0 <= k < lease_indices(is, ws, now, cap).len() ==> 0 <= #[trigger] lease_indices(
                is,
                ws,
                now,
                cap,
            )[k] < ws.len() && leasable(is, ws[lease_indices(is, ws, now, cap)[k]], now),
    decreases ws.len(),
{
    if ws.len() > 0 {
        lemma_lease_indices_sound(is, ws.drop_last(), now, cap);
        let pre = lease_indices(is, ws.drop_last(), now, cap);
        assert forall|k: int| 0 <= k < pre.len() implies 0 <= pre[k] < ws.len() - 1 && leasable(
            is,
            ws[pre[k]],
            now,
        ) by {
            assert(ws.drop_last()[pre[k]] == ws[pre[k]]);
        }
    }
}

/// The addresses of the Pending invoices on `chain`, in store order.
pub open spec fn pending_addresses(is: Seq<Invoice>, chain: Seq<char>) -> Seq<String>
    decreases is.len(),
{
    if is.len() == 0 {
        Seq::empty()
    } else {
        pending_addresses(is.drop_last(), chain) + if is.last().status == InvoiceStatus::Pending
            && is.last().network@ == chain {
            seq![is.last().address]
        } else {
            Seq::empty()
        }
    }
}

/// The store positions of the Pending invoices on `chain`, in order.
pub open spec fn pending_idx(is: Seq<Invoice>, chain: Seq<char>) -> Seq<int>
    decreases is.len(),
{
    if is.len() == 0 {
        Seq::empty()
    } else {
        pending_idx(is.drop_last(), chain) + if is.last().status == InvoiceStatus::Pending
            && is.last().network@ == chain {
            seq![is.len() - 1]
        } else {
            Seq::empty()
        }
    }
}

/// `pending_addresses` reads off the invoices at `pending_idx`, whose
/// entries are strictly increasing positions of Pending invoices.
proof fn lemma_pending_addresses_wf(is: Seq<Invoice>, chain: Seq<char>)
    ensures
        pending_idx(is, chain).len() == pending_addresses(is, chain).len(),
        forall|k: int|
            0 <= k < pending_idx(is, chain).len() ==> 0 <= #[trigger] pending_idx(is, chain)[k]
                < is.len(),
        forall|k: int|
            0 <= k < pending_idx(is, chain).len() ==> is[#[trigger] pending_idx(is, chain)[k]].status
                == InvoiceStatus::Pending && is[pending_idx(is, chain)[k]].network@ == chain && is[
                pending_idx(is, chain)[k]
            ].address == pending_addresses(is, chain)[k],
        forall|a: int, b: int|
            0 <= a < b < pending_idx(is, chain).len() ==> #[trigger] pending_idx(is, chain)[a]
                < #[trigger] pending_idx(is, chain)[b],
    decreases is.len(),
{
    if is.len() > 0 {
        let d = is.drop_last();
        lemma_pending_addresses_wf(d, chain);
        assert forall|k: int| 0 <= k < pending_idx(d, chain).len() implies is[
            #[trigger] pending_idx(d, chain)[k]
        ].status == InvoiceStatus::Pending && is[pending_idx(d, chain)[k]].network@ == chain && is[
            pending_idx(d, chain)[k]
        ].address == pending_addresses(d, chain)[k] by {
            assert(d[pending_idx(d, chain)[k]] == is[pending_idx(d, chain)[k]]);
        }
    }
}

impl Store {
    /// Index of the webhook job with id `id`, if any.
    fn find_webhook(&self, id: &str) -> (r: Option<usize>)
        ensures
            match r {
                Some(i) => i < self.webhooks@.len() && self.webhooks@[i as int].id@ == id@,
                None => !self.has_webhook(id@),
            },
    {
        let mut i: usize = 0;
        while i < self.webhooks.len()
            invariant
                i <= self.webhooks@.len(),
                forall|j: int| 0 <= j < i ==> self.webhooks@[j].id@ != id@,
            decreases self.webhooks@.len() - i,
        {
            if str_eq(self.webhooks[i].id.as_str(), id) {
                return Some(i);
            }
            i += 1;
        }
        None
    }

    pub open spec fn has_webhook(self, id: Seq<char>) -> bool {
        exists|i: int| 0 <= i < self.webhooks@.len() && self.webhooks@[i].id@ == id
    }

    pub open spec fn webhook_index(self, id: Seq<char>) -> int {
        choose|i: int| 0 <= i < self.webhooks@.len() && self.webhooks@[i].id@ == id
    }

    /// Queues a delivery of `event` for the invoice, due at once; an
    /// invoice without a `webhook_url` silently gets no job.
    pub fn add_webhook_job(
        &mut self,
        job_id: String,
        invoice_id: &str,
        event: &WebhookEvent,
        now: i64,
    ) -> (r: Result<(), Error>)
        requires
            old(self).wf(),
        ensures
            final(self).wf(),
            final(self).chains@ == old(self).chains@,
            final(self).invoices@ == old(self).invoices@,
            final(self).payments@ == old(self).payments@,
            match r {
                Ok(()) => {
                    let inv = old(self).invoices@[old(self).invoice_index(invoice_id@)];
                    &&& old(self).has_invoice(invoice_id@)
                    &&& (inv.webhook_url is None ==> final(self).webhooks@ == old(self).webhooks@)
                    &&& (inv.webhook_url is Some ==> {
                        let nw = final(self).webhooks@.last();
                        &&& !old(self).has_webhook(job_id@)
                        &&& final(self).webhooks@.len() == old(self).webhooks@.len() + 1
                        &&& final(self).webhooks@.drop_last() == old(self).webhooks@
                        &&& nw.id == job_id
                        &&& nw.invoice_id@ == invoice_id@
                        &&& nw.event_type@ == event.spec_event_type()
                        &&& nw.url == inv.webhook_url->Some_0
                        &&& nw.payload == *event
                        &&& nw.attempts == 0
                        &&& nw.max_retries == 10
                        &&& nw.status == WebhookStatus::Pending
                        &&& nw.next_retry == now
                    })
                },
                Err(Error::NotFound) => !old(self).has_invoice(invoice_id@) && final(self).webhooks@
                    == old(self).webhooks@,
                Err(Error::DuplicateId) => old(self).has_invoice(invoice_id@) && old(
                    self,
                ).invoices@[old(self).invoice_index(invoice_id@)].webhook_url is Some && old(
                    self,
                ).has_webhook(job_id@) && final(self).webhooks@ == old(self).webhooks@,
                Err(_) => false,
            },
    {
        let ii = match self.find_invoice(invoice_id) {
            Some(i) => i,
            None => {
                return Err(Error::NotFound);
            },
        };
        proof {
            lemma_invoice_index_agrees(*old(self), ii as int, invoice_id@);
        }
        let url = match &self.invoices[ii].webhook_url {
            Some(u) => u.clone(),
            None => {
                return Ok(());
            },
        };
        if self.find_webhook(job_id.as_str()).is_some() {
            return Err(Error::DuplicateId);
        }
        let record = WebhookRecord {
            id: job_id,
            invoice_id: invoice_id.to_owned(),
            event_type: event.event_type_str(),
            url,
            payload: event.clone(),
            attempts: 0,
            max_retries: 10,
            status: WebhookStatus::Pending,
            next_retry: now,
        };
        proof {
            let ws = self.webhooks@.push(record);
            assert forall|a: int, b: int| 0 <= a < b < ws.len() implies ws[a].id@ != ws[b].id@ by {
                if b < self.webhooks@.len() {
                    assert(ws[a] == self.webhooks@[a] && ws[b] == self.webhooks@[b]);
                } else {
                    assert(ws[a] == self.webhooks@[a] && ws[b] == record);
                }
            }
        }
        self.webhooks.push(record);
        Ok(())
    }

    /// Atomically leases up to fifty due Pending jobs: each is marked
    /// Processing and returned with the invoice's signing secret. A job
    /// whose invoice is gone or carries no secret cannot be signed as the
    /// merchant expects, so it is passed over and stays Pending.
    pub fn select_webhooks_job(&mut self, now: i64) -> (r: Vec<WebhookJob>)
        requires
            old(self).wf(),
        ensures
            final(self).wf(),
            final(self).chains@ == old(self).chains@,
            final(self).invoices@ == old(self).invoices@,
            final(self).payments@ == old(self).payments@,
            final(self).webhooks@.len() == old(self).webhooks@.len(),
            forall|j: int|
                0 <= j < old(self).webhooks@.len() ==> final(self).webhooks@[j] == (
                if lease_indices(old(self).invoices@, old(self).webhooks@, now, 50).contains(j) {
                    WebhookRecord { status: WebhookStatus::Processing, ..old(self).webhooks@[j] }
                } else {
                    old(self).webhooks@[j]
                }),
            r@.len() == lease_indices(old(self).invoices@, old(self).webhooks@, now, 50).len(),
            forall|k: int|
                0 <= k < r@.len() ==> {
                    let w = old(self).webhooks@[lease_indices(
                        old(self).invoices@,
                        old(self).webhooks@,
                        now,
                        50,
                    )[k]];
                    &&& (#[trigger] r@[k]).id == w.id
                    &&& r@[k].url == w.url
                    &&& r@[k].payload == w.payload
                    &&& r@[k].attempts == w.attempts
                    &&& r@[k].max_retries == w.max_retries
                    &&& r@[k].secret_key == old(self).invoices@[old(self).invoice_index(
                        w.invoice_id@,
                    )].webhook_secret->Some_0
                },
    {
        let ghost orig = *old(self);
        let mut out: Vec<WebhookJob> = Vec::new();
        let mut taken: usize = 0;
        let mut j: usize = 0;
        proof {
            assert(orig.webhooks@.subrange(0, 0) =~= Seq::<WebhookRecord>::empty());
        }
        while j < self.webhooks.len()
            invariant
                orig.wf(),
                orig == *old(self),
                j <= self.webhooks@.len(),
                self.chains@ == orig.chains@,
                self.invoices@ == orig.invoices@,
                self.payments@ == orig.payments@,
                self.webhooks@.len() == orig.webhooks@.len(),
                taken == lease_indices(
                    orig.invoices@,
                    orig.webhooks@.subrange(0, j as int),
                    now,
                    50,
                ).len(),
                taken <= 50,
                out@.len() == taken,
                forall|b: int|
                    0 <= b < orig.webhooks@.len() ==> self.webhooks@[b] == (if lease_indices(
                        orig.invoices@,
                        orig.webhooks@.subrange(0, j as int),
                        now,
                        50,
                    ).contains(b) {
                        WebhookRecord { status: WebhookStatus::Processing, ..orig.webhooks@[b] }
                    } else {
                        orig.webhooks@[b]
                    }),
                forall|k: int|
                    0 <= k < out@.len() ==> {
                        let w = orig.webhooks@[lease_indices(
                            orig.invoices@,
                            orig.webhooks@.subrange(0, j as int),
                            now,
                            50,
                        )[k]];
                        &&& (#[trigger] out@[k]).id == w.id
                        &&& out@[k].url == w.url
                        &&& out@[k].payload == w.payload
                        &&& out@[k].attempts == w.attempts
                        &&& out@[k].max_retries == w.max_retries
                        &&& out@[k].secret_key == orig.invoices@[orig.invoice_index(
                            w.invoice_id@,
                        )].webhook_secret->Some_0
                    },
            decreases self.webhooks@.len() - j,
        {
            let ghost pre_lease = lease_indices(
                orig.invoices@,
                orig.webhooks@.subrange(0, j as int),
                now,
                50,
            );
            proof {
                assert(orig.webhooks@.subrange(0, j + 1).drop_last() =~= orig.webhooks@.subrange(
                    0,
                    j as int,
                ));
                assert(orig.webhooks@.subrange(0, j + 1).last() == orig.webhooks@[j as int]);
                lemma_lease_indices_sound(
                    orig.invoices@,
                    orig.webhooks@.subrange(0, j as int),
                    now,
                    50,
                );
            }
            let is_due = matches!(self.webhooks[j].status, WebhookStatus::Pending)
                && self.webhooks[j].next_retry <= now;
            proof {
                assert(!pre_lease.contains(j as int));
                assert(self.webhooks@[j as int] == orig.webhooks@[j as int]);
            }
            if is_due && taken < 50 {
                let ghost wid = orig.webhooks@[j as int].invoice_id@;
                let mut secret_opt: Option<String> = None;
                match self.find_invoice(self.webhooks[j].invoice_id.as_str()) {
                    Some(ii) => {
                        proof {
                            lemma_invoice_index_agrees(orig, ii as int, wid);
                        }
                        match &self.invoices[ii].webhook_secret {
                            Some(s) => {
                                secret_opt = Some(s.clone());
                                proof {
                                    assert(invoice_has_secret(orig.invoices@, wid)) by {
                                        assert((#[trigger] orig.invoices@[ii as int]).id@ == wid);
                                    }
                                }
                            },
                            None => {
                                proof {
                                    assert(!invoice_has_secret(orig.invoices@, wid)) by {
                                        if invoice_has_secret(orig.invoices@, wid) {
                                            let i = choose|i: int|
                                                0 <= i < orig.invoices@.len() && (
                                                #[trigger] orig.invoices@[i]).id@ == wid
                                                    && orig.invoices@[i].webhook_secret is Some;
                                            assert(i != ii);
                                            if i < ii {
                                                assert(orig.invoices@[i].id@ != orig.invoices@[
                                                    ii as int
                                                ].id@);
                                            } else {
                                                assert(orig.invoices@[ii as int].id@
                                                    != orig.invoices@[i].id@);
                                            }
                                        }
                                    }
                                }
                            },
                        }
                    },
                    None => {
                        proof {
                            assert(!invoice_has_secret(orig.invoices@, wid)) by {
                                if invoice_has_secret(orig.invoices@, wid) {
                                    let i = choose|i: int|
                                        0 <= i < orig.invoices@.len() && (
                                        #[trigger] orig.invoices@[i]).id@ == wid
                                            && orig.invoices@[i].webhook_secret is Some;
                                    assert(orig.has_invoice(wid));
                                }
                            }
                        }
                    },
                }
                if secret_opt.is_none() {
                    proof {
                        assert(!leasable(orig.invoices@, orig.webhooks@[j as int], now));
                        assert(lease_indices(
                            orig.invoices@,
                            orig.webhooks@.subrange(0, j + 1),
                            now,
                            50,
                        ) == pre_lease);
                    }
                    j += 1;
                    continue ;
                }
                let secret = secret_opt.unwrap();
                let job = WebhookJob {
                    id: self.webhooks[j].id.clone(),
                    url: self.webhooks[j].url.clone(),
                    secret_key: secret,
                    payload: self.webhooks[j].payload.clone(),
                    attempts: self.webhooks[j].attempts,
                    max_retries: self.webhooks[j].max_retries,
                };
                out.push(job);
                self.webhooks[j].status = WebhookStatus::Processing;
                taken += 1;
                proof {
                    let new_lease = lease_indices(
                        orig.invoices@,
                        orig.webhooks@.subrange(0, j + 1),
                        now,
                        50,
                    );
                    assert(new_lease == pre_lease.push(j as int));
                    assert forall|b: int| 0 <= b < orig.webhooks@.len() implies self.webhooks@[b]
                        == (if new_lease.contains(b) {
                        WebhookRecord { status: WebhookStatus::Processing, ..orig.webhooks@[b] }
                    } else {
                        orig.webhooks@[b]
                    }) by {
                        if b == j {
                            assert(new_lease.contains(j as int)) by {
                                assert(new_lease[new_lease.len() - 1] == j as int);
                            }
                        } else {
                            assert(new_lease.contains(b) <==> pre_lease.contains(b)) by {
                                if pre_lease.contains(b) {
                                    let x = choose|x: int|
                                        0 <= x < pre_lease.len() && pre_lease[x] == b;
                                    assert(new_lease[x] == b);
                                }
                                if new_lease.contains(b) {
                                    let x = choose|x: int|
                                        0 <= x < new_lease.len() && new_lease[x] == b;
                                    assert(x < pre_lease.len());
                                    assert(pre_lease[x] == b);
                                }
                            }
                        }
                    }
                }
            } else {
                proof {
                    assert(lease_indices(
                        orig.invoices@,
                        orig.webhooks@.subrange(0, j + 1),
                        now,
                        50,
                    ) == pre_lease);
                }
            }
            j += 1;
        }
        proof {
            assert(orig.webhooks@.subrange(0, orig.webhooks@.len() as int) =~= orig.webhooks@);
            assert forall|a: int, b: int| 0 <= a < b < self.webhooks@.len() implies self.webhooks@[
                a
            ].id@ != self.webhooks@[b].id@ by {
                assert(orig.webhooks@[a].id@ != orig.webhooks@[b].id@);
            }
        }
        out
    }

    /// Overwrites the job's delivery status.
    pub fn set_webhook_status(&mut self, id: &str, status: WebhookStatus) -> (r: Result<(), Error>)
        requires
            old(self).wf(),
        ensures
            final(self).wf(),
            final(self).chains@ == old(self).chains@,
            final(self).invoices@ == old(self).invoices@,
            final(self).payments@ == old(self).payments@,
            match r {
                Ok(()) => {
                    let k = old(self).webhook_index(id@);
                    &&& old(self).has_webhook(id@)
                    &&& final(self).webhooks@ == old(self).webhooks@.update(
                        k,
                        WebhookRecord { status, ..old(self).webhooks@[k] },
                    )
                },
                Err(Error::NotFound) => !old(self).has_webhook(id@) && final(self).webhooks@ == old(
                    self,
                ).webhooks@,
                Err(_) => false,
            },
    {
        match self.find_webhook(id) {
            Some(i) => {
                proof {
                    lemma_webhook_index_agrees(*old(self), i as int, id@);
                }
                self.webhooks[i].status = status;
                proof {
                    assert forall|a: int, b: int|
                        0 <= a < b < self.webhooks@.len() implies self.webhooks@[a].id@
                        != self.webhooks@[b].id@ by {
                        assert(old(self).webhooks@[a].id@ != old(self).webhooks@[b].id@);
                    }
                }
                Ok(())
            },
            None => Err(Error::NotFound),
        }
    }

    /// Puts a failed job back in the queue: status Pending, the given
    /// attempt count, and a next try `next_retry_in_secs` from `now`
    /// (saturating at the far end of time).
    pub fn schedule_webhook_retry(
        &mut self,
        id: &str,
        attempts: i32,
        next_retry_in_secs: u64,
        now: i64,
    ) -> (r: Result<(), Error>)
        requires
            old(self).wf(),
        ensures
            final(self).wf(),
            final(self).chains@ == old(self).chains@,
            final(self).invoices@ == old(self).invoices@,
            final(self).payments@ == old(self).payments@,
            match r {
                Ok(()) => {
                    let k = old(self).webhook_index(id@);
                    &&& old(self).has_webhook(id@)
                    &&& final(self).webhooks@ == old(self).webhooks@.update(
                        k,
                        WebhookRecord {
                            status: WebhookStatus::Pending,
                            attempts,
                            next_retry: add_saturating(now, next_retry_in_secs),
                            ..old(self).webhooks@[k]
                        },
                    )
                },
                Err(Error::NotFound) => !old(self).has_webhook(id@) && final(self).webhooks@ == old(
                    self,
                ).webhooks@,
                Err(_) => false,
            },
    {
        match self.find_webhook(id) {
            Some(i) => {
                proof {
                    lemma_webhook_index_agrees(*old(self), i as int, id@);
                }
                let wide: i128 = now as i128 + next_retry_in_secs as i128;
                let next_retry: i64 = if wide > i64::MAX as i128 {
                    i64::MAX
                } else {
                    wide as i64
                };
                self.webhooks[i].status = WebhookStatus::Pending;
                self.webhooks[i].attempts = attempts;
                self.webhooks[i].next_retry = next_retry;
                proof {
                    assert(self.webhooks@ =~= old(self).webhooks@.update(
                        i as int,
                        WebhookRecord {
                            status: WebhookStatus::Pending,
                            attempts,
                            next_retry: add_saturating(now, next_retry_in_secs),
                            ..old(self).webhooks@[i as int]
                        },
                    ));
                    assert forall|a: int, b: int|
                        0 <= a < b < self.webhooks@.len() implies self.webhooks@[a].id@
                        != self.webhooks@[b].id@ by {
                        assert(old(self).webhooks@[a].id@ != old(self).webhooks@[b].id@);
                    }
                }
                Ok(())
            },
            None => Err(Error::NotFound),
        }
    }

    /// Startup recovery: every chain's watch-set is rebuilt from the
    /// addresses of its Pending invoices, and every job a crashed
    /// dispatcher left in Processing returns to Pending.
    pub fn recover(&mut self)
        requires
            old(self).wf(),
        ensures
            final(self).wf(),
            final(self).invoices@ == old(self).invoices@,
            final(self).payments@ == old(self).payments@,
            final(self).chains@.len() == old(self).chains@.len(),
            forall|c: int|
                0 <= c < old(self).chains@.len() ==> chain_same_but_watch(
                    #[trigger] final(self).chains@[c],
                    old(self).chains@[c],
                ) && final(self).chains@[c].watch_addresses@ == pending_addresses(
                    old(self).invoices@,
                    old(self).chains@[c].name@,
                ),
            final(self).webhooks@.len() == old(self).webhooks@.len(),
            forall|j: int|
                0 <= j < old(self).webhooks@.len() ==> final(self).webhooks@[j] == (if old(
                    self,
                ).webhooks@[j].status == WebhookStatus::Processing {
                    WebhookRecord { status: WebhookStatus::Pending, ..old(self).webhooks@[j] }
                } else {
                    old(self).webhooks@[j]
                }),
    {
        let ghost orig = *old(self);
        let mut c: usize = 0;
        while c < self.chains.len()
            invariant
                orig.wf(),
                orig == *old(self),
                c <= self.chains@.len(),
                self.invoices@ == orig.invoices@,
                self.payments@ == orig.payments@,
                self.webhooks@ == orig.webhooks@,
                self.chains@.len() == orig.chains@.len(),
                forall|b: int|
                    0 <= b < c ==> chain_same_but_watch(
                        #[trigger] self.chains@[b],
                        orig.chains@[b],
                    ) && self.chains@[b].watch_addresses@ == pending_addresses(
                        orig.invoices@,
                        orig.chains@[b].name@,
                    ) && chain_wf(self.chains@[b]) && self.chains@[b].name@ == orig.chains@[b].name@,
                forall|b: int| c <= b < self.chains@.len() ==> self.chains@[b] == orig.chains@[b],
            decreases self.chains@.len() - c,
        {
            let ghost cname = orig.chains@[c as int].name@;
            let mut fresh: Vec<String> = Vec::new();
            let mut i: usize = 0;
            proof {
                assert(orig.invoices@.subrange(0, 0) =~= Seq::<Invoice>::empty());
            }
            while i < self.invoices.len()
                invariant
                    c < self.chains@.len(),
                    i <= self.invoices@.len(),
                    self.invoices@ == orig.invoices@,
                    self.chains@[c as int] == orig.chains@[c as int],
                    cname == orig.chains@[c as int].name@,
                    fresh@ == pending_addresses(orig.invoices@.subrange(0, i as int), cname),
                decreases self.invoices@.len() - i,
            {
                proof {
                    assert(orig.invoices@.subrange(0, i + 1).drop_last() =~= orig.invoices@.subrange(
                        0,
                        i as int,
                    ));
                }
                if matches!(self.invoices[i].status, InvoiceStatus::Pending) && str_eq(
                    self.invoices[i].network.as_str(),
                    self.chains[c].name.as_str(),
                ) {
                    fresh.push(self.invoices[i].address.clone());
                    proof {
                        assert(fresh@ =~= pending_addresses(
                            orig.invoices@.subrange(0, i + 1),
                            cname,
                        ));
                    }
                }
                i += 1;
            }
            proof {
                assert(orig.invoices@.subrange(0, orig.invoices@.len() as int)
                    =~= orig.invoices@);
            }
            self.chains[c].watch_addresses = fresh;
            proof {
                lemma_pending_addresses_wf(orig.invoices@, cname);
                assert(chain_wf(self.chains@[c as int])) by {
                    let nc = self.chains@[c as int];
                    assert(chain_wf(orig.chains@[c as int]));
                    assert forall|a: int, b: int|
                        0 <= a < b < nc.watch_addresses@.len() implies nc.watch_addresses@[a]@
                        != nc.watch_addresses@[b]@ by {
                        let ia = pending_idx(orig.invoices@, cname)[a];
                        let ib = pending_idx(orig.invoices@, cname)[b];
                        assert(ia < ib);
                        assert(orig.invoices@[ia].address == nc.watch_addresses@[a]);
                        assert(orig.invoices@[ib].address == nc.watch_addresses@[b]);
                        assert(!(orig.invoices@[ia].network@ == orig.invoices@[ib].network@
                            && orig.invoices@[ia].address@ == orig.invoices@[ib].address@));
                    }
                    assert forall|a: int|
                        0 <= a < nc.watch_addresses@.len() implies normalized(
                        #[trigger] nc.watch_addresses@[a]@,
                    ) == nc.watch_addresses@[a]@ by {
                        let ia = pending_idx(orig.invoices@, cname)[a];
                        assert(orig.invoices@[ia].address == nc.watch_addresses@[a]);
                        assert(normalized(orig.invoices@[ia].address@)
                            == orig.invoices@[ia].address@);
                    }
                }
            }
            c += 1;
        }
        let mut j: usize = 0;
        while j < self.webhooks.len()
            invariant
                orig.wf(),
                orig == *old(self),
                j <= self.webhooks@.len(),
                self.invoices@ == orig.invoices@,
                self.payments@ == orig.payments@,
                self.chains@.len() == orig.chains@.len(),
                forall|b: int|
                    0 <= b < self.chains@.len() ==> chain_same_but_watch(
                        #[trigger] self.chains@[b],
                        orig.chains@[b],
                    ) && self.chains@[b].watch_addresses@ == pending_addresses(
                        orig.invoices@,
                        orig.chains@[b].name@,
                    ) && chain_wf(self.chains@[b]) && self.chains@[b].name@ == orig.chains@[b].name@,
                self.webhooks@.len() == orig.webhooks@.len(),
                forall|b: int|
                    0 <= b < j ==> self.webhooks@[b] == (if orig.webhooks@[b].status
                        == WebhookStatus::Processing {
                        WebhookRecord { status: WebhookStatus::Pending, ..orig.webhooks@[b] }
                    } else {
                        orig.webhooks@[b]
                    }),
                forall|b: int| j <= b < self.webhooks@.len() ==> self.webhooks@[b]
                    == orig.webhooks@[b],
            decreases self.webhooks@.len() - j,
        {
            if matches!(self.webhooks[j].status, WebhookStatus::Processing) {
                self.webhooks[j].status = WebhookStatus::Pending;
            }
            j += 1;
        }
        proof {
            let post = *self;
            assert forall|a: int, b: int| 0 <= a < b < post.chains@.len() implies post.chains@[
                a
            ].name@ != post.chains@[b].name@ by {
                assert(orig.chains@[a].name@ != orig.chains@[b].name@);
            }
            assert forall|a: int, b: int| 0 <= a < b < post.webhooks@.len() implies post.webhooks@[
                a
            ].id@ != post.webhooks@[b].id@ by {
                assert(orig.webhooks@[a].id@ != orig.webhooks@[b].id@);
            }
        }
    }
}

/// `now + secs`, held at the top of the `i64` range.
pub open spec fn add_saturating(now: i64, secs: u64) -> i64 {
    if now + secs > i64::MAX {
        i64::MAX
    } else {
        (now + secs) as i64
    }
}

/// `webhook_index` picks the index that the scan found: ids are unique.
proof fn lemma_webhook_index_agrees(s: Store, i: int, id: Seq<char>)
    requires
        webhook_ids_unique(s.webhooks@),
        0 <= i < s.webhooks@.len(),
        s.webhooks@[i].id@ == id,
    ensures
        s.webhook_index(id) == i,
{
    assert(s.has_webhook(id));
    let j = s.webhook_index(id);
    if i < j {
        assert(s.webhooks@[i].id@ != s.webhooks@[j].id@);
    } else if j < i {
        assert(s.webhooks@[j].id@ != s.webhooks@[i].id@);
    }
}

/// The chain's token with the given symbol.
pub open spec fn has_token(c: ChainConfig, symbol: Seq<char>) -> bool {
    exists|i: int| 0 <= i < c.tokens@.len() && c.tokens@[i].symbol@ == symbol
}

pub open spec fn token_index(c: ChainConfig, symbol: Seq<char>) -> int {
    choose|i: int| 0 <= i < c.tokens@.len() && c.tokens@[i].symbol@ == symbol
}

/// The chain's token at the given contract address.
pub open spec fn has_token_contract(c: ChainConfig, contract: Seq<char>) -> bool {
    exists|i: int| 0 <= i < c.tokens@.len() && c.tokens@[i].contract@ == contract
}

pub open spec fn token_contract_index(c: ChainConfig, contract: Seq<char>) -> int {
    choose|i: int| 0 <= i < c.tokens@.len() && c.tokens@[i].contract@ == contract
}

/// `token_index` picks the index that the scan found: symbols are unique.
proof fn lemma_token_index_agrees(c: ChainConfig, i: int, symbol: Seq<char>)
    requires
        chain_wf(c),
        0 <= i < c.tokens@.len(),
        c.tokens@[i].symbol@ == symbol,
    ensures
        token_index(c, symbol) == i,
{
    assert(has_token(c, symbol));
    let j = token_index(c, symbol);
    if i < j {
        assert(c.tokens@[i].symbol@ != c.tokens@[j].symbol@);
    } else if j < i {
        assert(c.tokens@[j].symbol@ != c.tokens@[i].symbol@);
    }
}

/// `token_contract_index` picks the index that the scan found: contracts
/// are unique.
proof fn lemma_token_contract_index_agrees(c: ChainConfig, i: int, contract: Seq<char>)
    requires
        chain_wf(c),
        0 <= i < c.tokens@.len(),
        c.tokens@[i].contract@ == contract,
    ensures
        token_contract_index(c, contract) == i,
{
    assert(has_token_contract(c, contract));
    let j = token_contract_index(c, contract);
    if i < j {
        assert(c.tokens@[i].contract@ != c.tokens@[j].contract@);
    } else if j < i {
        assert(c.tokens@[j].contract@ != c.tokens@[i].contract@);
    }
}

impl Store {
    /// Adds a token to the chain; a symbol or contract already present on
    /// that chain is rejected with `DuplicateId`.
    pub fn add_token(&mut self, chain_name: &str, token_config: TokenConfig) -> (r: Result<
        (),
        Error,
    >)
        requires
            old(self).wf(),
        ensures
            final(self).wf(),
            final(self).same_but_chains(*old(self)),
            match r {
                Ok(()) => {
                    let idx = old(self).chain_index(chain_name@);
                    let oc = old(self).chains@[idx];
                    let nc = final(self).chains@[idx];
                    &&& old(self).has_chain(chain_name@)
                    &&& !has_token(oc, token_config.symbol@)
                    &&& !has_token_contract(oc, token_config.contract@)
                    &&& final(self).chains@ == old(self).chains@.update(idx, nc)
                    &&& chain_same_but_tokens(nc, oc)
                    &&& nc.tokens@ == oc.tokens@.push(token_config)
                },
                Err(Error::NotFound) => !old(self).has_chain(chain_name@) && final(self).chains@
                    == old(self).chains@,
                Err(Error::DuplicateId) => {
                    let idx = old(self).chain_index(chain_name@);
                    let oc = old(self).chains@[idx];
                    &&& old(self).has_chain(chain_name@)
                    &&& (has_token(oc, token_config.symbol@) || has_token_contract(
                        oc,
                        token_config.contract@,
                    ))
                    &&& final(self).chains@ == old(self).chains@
                },
                Err(_) => false,
            },
    {
        let i = match self.find_chain(chain_name) {
            Some(i) => i,
            None => {
                return Err(Error::NotFound);
            },
        };
        proof {
            lemma_chain_index_agrees(*old(self), i as int, chain_name@);
        }
        let mut j: usize = 0;
        let n = self.chains[i].tokens.len();
        while j < n
            invariant
                self == old(self),
                old(self).wf(),
                i < self.chains@.len(),
                old(self).has_chain(chain_name@),
                old(self).chain_index(chain_name@) == i as int,
                n == self.chains@[i as int].tokens@.len(),
                j <= n,
                forall|b: int|
                    0 <= b < j ==> (#[trigger] self.chains@[i as int].tokens@[b]).symbol@
                        != token_config.symbol@ && self.chains@[i as int].tokens@[b].contract@
                        != token_config.contract@,
            decreases n - j,
        {
            if str_eq(self.chains[i].tokens[j].symbol.as_str(), token_config.symbol.as_str())
                || str_eq(
                self.chains[i].tokens[j].contract.as_str(),
                token_config.contract.as_str(),
            ) {
                return Err(Error::DuplicateId);
            }
            j += 1;
        }
        self.chains[i].tokens.push(token_config);
        proof {
            lemma_wf_chain_update(*old(self), *self, i as int);
        }
        Ok(())
    }

    /// Removes the chain's token with the given symbol; removing an
    /// unknown symbol changes nothing.
    pub fn remove_token(&mut self, chain_name: &str, token_symbol: &str) -> (r: Result<(), Error>)
        requires
            old(self).wf(),
        ensures
            final(self).wf(),
            final(self).same_but_chains(*old(self)),
            match r {
                Ok(()) => {
                    let idx = old(self).chain_index(chain_name@);
                    let oc = old(self).chains@[idx];
                    let nc = final(self).chains@[idx];
                    &&& old(self).has_chain(chain_name@)
                    &&& final(self).chains@ == old(self).chains@.update(idx, nc)
                    &&& chain_same_but_tokens(nc, oc)
                    &&& !has_token(nc, token_symbol@)
                    &&& (!has_token(oc, token_symbol@) ==> nc.tokens@ == oc.tokens@)
                    &&& (has_token(oc, token_symbol@) ==> nc.tokens@ == oc.tokens@.remove(
                        token_index(oc, token_symbol@),
                    ))
                },
                Err(Error::NotFound) => !old(self).has_chain(chain_name@) && final(self).chains@
                    == old(self).chains@,
                Err(_) => false,
            },
    {
        let i = match self.find_chain(chain_name) {
            Some(i) => i,
            None => {
                return Err(Error::NotFound);
            },
        };
        proof {
            lemma_chain_index_agrees(*old(self), i as int, chain_name@);
        }
        let mut j: usize = 0;
        let n = self.chains[i].tokens.len();
        while j < n
            invariant
                self == old(self),
                old(self).wf(),
                i < self.chains@.len(),
                old(self).has_chain(chain_name@),
                old(self).chain_index(chain_name@) == i as int,
                n == self.chains@[i as int].tokens@.len(),
                j <= n,
                forall|b: int|
                    0 <= b < j ==> (#[trigger] self.chains@[i as int].tokens@[b]).symbol@
                        != token_symbol@,
            decreases n - j,
        {
            if str_eq(self.chains[i].tokens[j].symbol.as_str(), token_symbol) {
                let ghost oc = old(self).chains@[i as int];
                proof {
                    assert(chain_wf(oc));
                    lemma_token_index_agrees(oc, j as int, token_symbol@);
                }
                self.chains[i].tokens.remove(j);
                proof {
                    let nc = self.chains@[i as int];
                    oc.tokens@.remove_ensures(j as int);
                    assert forall|b: int|
                        0 <= b < nc.tokens@.len() implies (#[trigger] nc.tokens@[b]).symbol@
                        != token_symbol@ by {
                        if b < j {
                            assert(nc.tokens@[b] == oc.tokens@[b]);
                        } else {
                            assert(nc.tokens@[b] == oc.tokens@[b + 1]);
                            assert(oc.tokens@[j as int].symbol@ != oc.tokens@[b + 1].symbol@);
                        }
                    }
                    assert(!has_token(nc, token_symbol@));
                    assert(chain_wf(nc)) by {
                        assert forall|a: int, b: int| 0 <= a < b < nc.tokens@.len() implies (
                        nc.tokens@[a].symbol@ != nc.tokens@[b].symbol@ && nc.tokens@[a].contract@
                            != nc.tokens@[b].contract@) by {
                            let oa = if a < j {
                                a
                            } else {
                                a + 1
                            };
                            let ob = if b < j {
                                b
                            } else {
                                b + 1
                            };
                            assert(nc.tokens@[a] == oc.tokens@[oa]);
                            assert(nc.tokens@[b] == oc.tokens@[ob]);
                            assert(oc.tokens@[oa].symbol@ != oc.tokens@[ob].symbol@
                                && oc.tokens@[oa].contract@ != oc.tokens@[ob].contract@);
                        }
                    }
                    lemma_wf_chain_update(*old(self), *self, i as int);
                }
                return Ok(());
            }
            j += 1;
        }
        proof {
            assert(self.chains@ =~= old(self).chains@.update(i as int, self.chains@[i as int]));
            assert(!has_token(old(self).chains@[i as int], token_symbol@));
        }
        Ok(())
    }

    /// Copies of the chain's tokens.
    pub fn get_tokens(&self, chain_name: &str) -> (r: Option<Vec<TokenConfig>>)
        requires
            self.wf(),
        ensures
            match r {
                Some(v) => self.has_chain(chain_name@) && v@ == self.chains@[self.chain_index(
                    chain_name@,
                )].tokens@,
                None => !self.has_chain(chain_name@),
            },
    {
        match self.find_chain(chain_name) {
            Some(i) => {
                proof {
                    lemma_chain_index_agrees(*self, i as int, chain_name@);
                }
                let v = self.chains[i].tokens.clone();
                proof {
                    assert(v@ =~= self.chains@[i as int].tokens@);
                }
                Some(v)
            },
            None => None,
        }
    }

    /// The contract addresses of the chain's tokens, in token order.
    pub fn get_token_contracts(&self, chain_name: &str) -> (r: Option<Vec<String>>)
        requires
            self.wf(),
        ensures
            match r {
                Some(v) => {
                    let ts = self.chains@[self.chain_index(chain_name@)].tokens@;
                    &&& self.has_chain(chain_name@)
                    &&& v@.len() == ts.len()
                    &&& forall|k: int| 0 <= k < v@.len() ==> #[trigger] v@[k] == ts[k].contract
                },
                None => !self.has_chain(chain_name@),
            },
    {
        match self.find_chain(chain_name) {
            Some(i) => {
                proof {
                    lemma_chain_index_agrees(*self, i as int, chain_name@);
                }
                let mut out: Vec<String> = Vec::new();
                let mut j: usize = 0;
                while j < self.chains[i].tokens.len()
                    invariant
                        i < self.chains@.len(),
                        j <= self.chains@[i as int].tokens@.len(),
                        out@.len() == j,
                        forall|k: int|
                            0 <= k < j ==> #[trigger] out@[k] == self.chains@[i as int].tokens@[
                                k
                            ].contract,
                    decreases self.chains@[i as int].tokens@.len() - j,
                {
                    out.push(self.chains[i].tokens[j].contract.clone());
                    j += 1;
                }
                Some(out)
            },
            None => None,
        }
    }

    /// A copy of the chain's token with the given symbol.
    pub fn get_token(&self, chain_name: &str, token_symbol: &str) -> (r: Option<TokenConfig>)
        requires
            self.wf(),
        ensures
            match r {
                Some(tc) => {
                    let c = self.chains@[self.chain_index(chain_name@)];
                    &&& self.has_chain(chain_name@)
                    &&& has_token(c, token_symbol@)
                    &&& tc == c.tokens@[token_index(c, token_symbol@)]
                },
                None => !self.has_chain(chain_name@) || !has_token(
                    self.chains@[self.chain_index(chain_name@)],
                    token_symbol@,
                ),
            },
    {
        let i = match self.find_chain(chain_name) {
            Some(i) => i,
            None => {
                return None;
            },
        };
        proof {
            lemma_chain_index_agrees(*self, i as int, chain_name@);
        }
        let mut j: usize = 0;
        let n = self.chains[i].tokens.len();
        while j < n
            invariant
                self.wf(),
                i < self.chains@.len(),
                self.chain_index(chain_name@) == i as int,
                self.has_chain(chain_name@),
                n == self.chains@[i as int].tokens@.len(),
                j <= n,
                forall|b: int|
                    0 <= b < j ==> (#[trigger] self.chains@[i as int].tokens@[b]).symbol@
                        != token_symbol@,
            decreases n - j,
        {
            if str_eq(self.chains[i].tokens[j].symbol.as_str(), token_symbol) {
                proof {
                    assert(chain_wf(self.chains@[i as int]));
                    lemma_token_index_agrees(self.chains@[i as int], j as int, token_symbol@);
                }
                return Some(self.chains[i].tokens[j].clone());
            }
            j += 1;
        }
        None
    }

    /// A copy of the chain's token at the given contract address.
    pub fn get_token_by_contract(&self, chain_name: &str, contract_address: &str) -> (r: Option<
        TokenConfig,
    >)
        requires
            self.wf(),
        ensures
            match r {
                Some(tc) => {
                    let c = self.chains@[self.chain_index(chain_name@)];
                    &&& self.has_chain(chain_name@)
                    &&& has_token_contract(c, contract_address@)
                    &&& tc == c.tokens@[token_contract_index(c, contract_address@)]
                },
                None => !self.has_chain(chain_name@) || !has_token_contract(
                    self.chains@[self.chain_index(chain_name@)],
                    contract_address@,
                ),
            },
    {
        let i = match self.find_chain(chain_name) {
            Some(i) => i,
            None => {
                return None;
            },
        };
        proof {
            lemma_chain_index_agrees(*self, i as int, chain_name@);
        }
        let mut j: usize = 0;
        let n = self.chains[i].tokens.len();
        while j < n
            invariant
                self.wf(),
                i < self.chains@.len(),
                self.chain_index(chain_name@) == i as int,
                self.has_chain(chain_name@),
                n == self.chains@[i as int].tokens@.len(),
                j <= n,
                forall|b: int|
                    0 <= b < j ==> (#[trigger] self.chains@[i as int].tokens@[b]).contract@
                        != contract_address@,
            decreases n - j,
        {
            if str_eq(self.chains[i].tokens[j].contract.as_str(), contract_address) {
                proof {
                    assert(chain_wf(self.chains@[i as int]));
                    lemma_token_contract_index_agrees(
                        self.chains@[i as int],
                        j as int,
                        contract_address@,
                    );
                }
                return Some(self.chains[i].tokens[j].clone());
            }
            j += 1;
        }
        None
    }

    /// The decimals of the given symbol on the chain: the chain's own
    /// decimals for its native symbol, the token's decimals otherwise.
    pub fn get_token_decimals(&self, chain_name: &str, token_symbol: &str) -> (r: Option<u8>)
        requires
            self.wf(),
        ensures
            match r {
                Some(d) => {
                    let c = self.chains@[self.chain_index(chain_name@)];
                    &&& self.has_chain(chain_name@)
                    &&& (if c.native_symbol@ == token_symbol@ {
                        d == c.decimals
                    } else {
                        has_token(c, token_symbol@) && d == c.tokens@[token_index(
                            c,
                            token_symbol@,
                        )].decimals
                    })
                },
                None => !self.has_chain(chain_name@) || (self.chains@[self.chain_index(
                    chain_name@,
                )].native_symbol@ != token_symbol@ && !has_token(
                    self.chains@[self.chain_index(chain_name@)],
                    token_symbol@,
                )),
            },
    {
        let i = match self.find_chain(chain_name) {
            Some(i) => i,
            None => {
                return None;
            },
        };
        proof {
            lemma_chain_index_agrees(*self, i as int, chain_name@);
        }
        if str_eq(self.chains[i].native_symbol.as_str(), token_symbol) {
            return Some(self.chains[i].decimals);
        }
        match self.get_token(chain_name, token_symbol) {
            Some(tc) => Some(tc.decimals),
            None => None,
        }
    }
}

/// Equal fields apart from the token set.
pub open spec fn chain_same_but_tokens(a: ChainConfig, b: ChainConfig) -> bool {
    &&& a.name == b.name
    &&& a.rpc_url == b.rpc_url
    &&& a.chain_type == b.chain_type
    &&& a.xpub == b.xpub
    &&& a.native_symbol == b.native_symbol
    &&& a.decimals == b.decimals
    &&& a.last_processed_block == b.last_processed_block
    &&& a.block_lag == b.block_lag
    &&& a.required_confirmations == b.required_confirmations
    &&& a.watch_addresses@ == b.watch_addresses@
}

/// Whatever `remove_watch_address` did, no chain gained a watch address.
pub proof fn lemma_watch_shrinks(pre: Store, post: Store, c: int)
    requires
        0 <= c < pre.chains@.len(),
        post.chains@.len() == pre.chains@.len(),
        post.chains@ == pre.chains@ || (exists|i: int|
            0 <= i < pre.chains@.len() && post.chains@ == pre.chains@.update(
                i,
                post.chains@[i],
            ) && (post.chains@[i].watch_addresses@ == pre.chains@[i].watch_addresses@ || (exists|
                iw: int,
            |
                0 <= iw < pre.chains@[i].watch_addresses@.len() && post.chains@[
                    i
                ].watch_addresses@ == pre.chains@[i].watch_addresses@.remove(iw)))),
    ensures
        forall|x: Seq<char>|
            watch_contains(#[trigger] post.chains@[c], x) ==> watch_contains(pre.chains@[c], x),
{
    assert forall|x: Seq<char>| watch_contains(#[trigger] post.chains@[c], x) implies
        watch_contains(pre.chains@[c], x) by {
        if post.chains@ != pre.chains@ {
            let i = choose|i: int|
                0 <= i < pre.chains@.len() && post.chains@ == pre.chains@.update(
                    i,
                    post.chains@[i],
                ) && (post.chains@[i].watch_addresses@ == pre.chains@[i].watch_addresses@ || (
                exists|iw: int|
                    0 <= iw < pre.chains@[i].watch_addresses@.len() && post.chains@[
                        i
                    ].watch_addresses@ == pre.chains@[i].watch_addresses@.remove(iw)));
            if c == i {
                if post.chains@[i].watch_addresses@ == pre.chains@[i].watch_addresses@ {
                    assert(watch_contains(pre.chains@[c], x));
                } else {
                    let iw = choose|iw: int|
                        0 <= iw < pre.chains@[i].watch_addresses@.len() && post.chains@[
                            i
                        ].watch_addresses@ == pre.chains@[i].watch_addresses@.remove(iw);
                    let idx = choose|j: int|
                        0 <= j < post.chains@[c].watch_addresses@.len() && post.chains@[
                            c
                        ].watch_addresses@[j]@ == x;
                    pre.chains@[i].watch_addresses@.remove_ensures(iw);
                    if idx < iw {
                        assert(pre.chains@[c].watch_addresses@[idx]@ == x);
                    } else {
                        assert(pre.chains@[c].watch_addresses@[idx + 1]@ == x);
                    }
                }
            } else {
                assert(post.chains@[c] == pre.chains@[c]);
            }
        }
    }
}


/// A single watch removal touches no other address: membership of any
/// other view is exactly preserved.
pub proof fn lemma_watch_remove_same_others(oc: ChainConfig, nc: ChainConfig, la: Seq<char>, x: Seq<char>)
    requires
        x != la,
        nc.watch_addresses@ == oc.watch_addresses@ || (exists|iw: int|
            0 <= iw < oc.watch_addresses@.len() && (#[trigger] oc.watch_addresses@[iw])@ == la
                && nc.watch_addresses@ == oc.watch_addresses@.remove(iw)),
    ensures
        watch_contains(nc, x) <==> watch_contains(oc, x),
{
    if nc.watch_addresses@ != oc.watch_addresses@ {
        let iw = choose|iw: int|
            0 <= iw < oc.watch_addresses@.len() && (#[trigger] oc.watch_addresses@[iw])@ == la
                && nc.watch_addresses@ == oc.watch_addresses@.remove(iw);
        oc.watch_addresses@.remove_ensures(iw);
        if watch_contains(nc, x) {
            let j = choose|j: int|
                0 <= j < nc.watch_addresses@.len() && nc.watch_addresses@[j]@ == x;
            if j < iw {
                assert(oc.watch_addresses@[j]@ == x);
            } else {
                assert(oc.watch_addresses@[j + 1]@ == x);
            }
        }
        if watch_contains(oc, x) {
            let j = choose|j: int|
                0 <= j < oc.watch_addresses@.len() && oc.watch_addresses@[j]@ == x;
            assert(j != iw);
            if j < iw {
                assert(nc.watch_addresses@[j]@ == x);
            } else {
                assert(nc.watch_addresses@[j - 1]@ == x);
            }
        }
    }
}

impl Store {
    /// Removes every address of `addresses` (matched in canonical form)
    /// from the chain's watch-set.
    pub fn remove_watch_addresses_bulk(&mut self, chain_name: &str, addresses: &Vec<String>) -> (r:
        Result<(), Error>)
        requires
            old(self).wf(),
        ensures
            final(self).wf(),
            final(self).same_but_chains(*old(self)),
            final(self).chains@.len() == old(self).chains@.len(),
            forall|c: int|
                0 <= c < old(self).chains@.len() ==> chain_same_but_watch(
                    #[trigger] final(self).chains@[c],
                    old(self).chains@[c],
                ),
            match r {
                Ok(()) => {
                    let ow = old(self).chains@[old(self).chain_index(
                        chain_name@,
                    )].watch_addresses@;
                    &&& old(self).has_chain(chain_name@)
                    &&& (forall|k: int, c: int|
                        0 <= k < addresses@.len() && 0 <= c < final(self).chains@.len() && (
                        #[trigger] final(self).chains@[c]).name@ == chain_name@
                            ==> !watch_contains(
                            final(self).chains@[c],
                            normalized((#[trigger] addresses@[k])@),
                        ))
                    &&& (forall|j: int, c: int|
                        #![trigger ow[j], final(self).chains@[c]]
                        0 <= j < ow.len() && (forall|kk: int|
                            0 <= kk < addresses@.len() ==> ow[j]@ != normalized(
                                (#[trigger] addresses@[kk])@,
                            )) && 0 <= c < final(self).chains@.len() && final(self).chains@[
                            c
                        ].name@ == chain_name@ ==> watch_contains(final(self).chains@[c], ow[j]@))
                },
                Err(Error::NotFound) => !old(self).has_chain(chain_name@) && final(self).chains@
                    == old(self).chains@,
                Err(_) => false,
            },
    {
        if self.find_chain(chain_name).is_none() {
            return Err(Error::NotFound);
        }
        let mut k: usize = 0;
        let ghost orig = *old(self);
        proof {
            let wi = orig.chain_index(chain_name@);
            assert forall|j: int, c: int|
                0 <= j < orig.chains@[wi].watch_addresses@.len() && 0 <= c < self.chains@.len()
                    && (#[trigger] self.chains@[c]).name@ == chain_name@ implies watch_contains(
                self.chains@[c],
                (#[trigger] orig.chains@[wi].watch_addresses@[j])@,
            ) by {
                lemma_chain_index_agrees(orig, c, chain_name@);
                assert(c == wi);
            }
        }
        while k < addresses.len()
            invariant
                self.wf(),
                orig == *old(self),
                orig.has_chain(chain_name@),
                k <= addresses@.len(),
                self.same_but_chains(orig),
                self.chains@.len() == orig.chains@.len(),
                forall|c: int|
                    0 <= c < orig.chains@.len() ==> chain_same_but_watch(
                        #[trigger] self.chains@[c],
                        orig.chains@[c],
                    ),
                forall|kk: int, c: int|
                    0 <= kk < k && 0 <= c < self.chains@.len() && (#[trigger] self.chains@[
                        c
                    ]).name@ == chain_name@ ==> !watch_contains(
                        self.chains@[c],
                        normalized((#[trigger] addresses@[kk])@),
                    ),
                forall|j: int, c: int|
                    #![trigger orig.chains@[orig.chain_index(chain_name@)].watch_addresses@[j], self.chains@[c]]
                    0 <= j < orig.chains@[orig.chain_index(chain_name@)].watch_addresses@.len()
                        && (forall|kk: int|
                        0 <= kk < k ==> orig.chains@[orig.chain_index(
                            chain_name@,
                        )].watch_addresses@[j]@ != normalized((#[trigger] addresses@[kk])@))
                        && 0 <= c < self.chains@.len() && self.chains@[c].name@ == chain_name@
                        ==> watch_contains(
                        self.chains@[c],
                        orig.chains@[orig.chain_index(chain_name@)].watch_addresses@[j]@,
                    ),
            decreases addresses@.len() - k,
        {
            let ghost pre_remove = *self;
            proof {
                let wi = choose|i: int|
                    0 <= i < orig.chains@.len() && orig.chains@[i].name@ == chain_name@;
                assert(chain_same_but_watch(self.chains@[wi], orig.chains@[wi]));
                assert(self.has_chain(chain_name@));
            }
            let removal = self.remove_watch_address(chain_name, addresses[k].as_str());
            proof {
                assert(removal is Ok);
                let wi = orig.chain_index(chain_name@);
                let la = normalized(addresses@[k as int]@);
                let idx = pre_remove.chain_index(chain_name@);
                assert forall|j: int, c: int|
                    #![trigger orig.chains@[wi].watch_addresses@[j], self.chains@[c]]
                    0 <= j < orig.chains@[wi].watch_addresses@.len() && (forall|kk: int|
                        0 <= kk < k + 1 ==> orig.chains@[wi].watch_addresses@[j]@ != normalized(
                            (#[trigger] addresses@[kk])@,
                        )) && 0 <= c < self.chains@.len() && self.chains@[c].name@ == chain_name@
                    implies watch_contains(
                    self.chains@[c],
                    orig.chains@[wi].watch_addresses@[j]@,
                ) by {
                    let x = orig.chains@[wi].watch_addresses@[j]@;
                    assert(x != la) by {
                        assert(x != normalized(addresses@[k as int]@));
                    }
                    assert(watch_contains(pre_remove.chains@[c], x));
                    if c == idx {
                        lemma_watch_remove_same_others(
                            pre_remove.chains@[idx],
                            self.chains@[idx],
                            la,
                            x,
                        );
                    } else {
                        assert(self.chains@[c] == pre_remove.chains@[c]);
                    }
                }
                assert forall|kk: int, c: int|
                    0 <= kk < k + 1 && 0 <= c < self.chains@.len() && (#[trigger] self.chains@[
                        c
                    ]).name@ == chain_name@ implies !watch_contains(
                    self.chains@[c],
                    normalized((#[trigger] addresses@[kk])@),
                ) by {
                    if kk < k {
                        assert(!watch_contains(
                            pre_remove.chains@[c],
                            normalized(addresses@[kk]@),
                        ));
                        lemma_watch_shrinks(pre_remove, *self, c);
                    } else {
                        let idx = pre_remove.chain_index(chain_name@);
                        assert(!watch_contains(self.chains@[idx], normalized(addresses@[kk]@)));
                        if c != idx {
                            assert(self.chains@[c] == pre_remove.chains@[c]);
                            if c < idx {
                                assert(pre_remove.chains@[c].name@
                                    != pre_remove.chains@[idx].name@);
                            } else {
                                assert(pre_remove.chains@[idx].name@
                                    != pre_remove.chains@[c].name@);
                            }
                        }
                    }
                }
            }
            k += 1;
        }
        Ok(())
    }
}

/// The invoices on chain `name`.
pub open spec fn invoices_on_chain(name: Seq<char>) -> spec_fn(Invoice) -> bool {
    |inv: Invoice| inv.network@ == name
}

/// The invoices denominated in token `sym`.
pub open spec fn invoices_with_token(sym: Seq<char>) -> spec_fn(Invoice) -> bool {
    |inv: Invoice| inv.token@ == sym
}

/// The invoices payable at `addr`.
pub open spec fn invoices_at_address(addr: Seq<char>) -> spec_fn(Invoice) -> bool {
    |inv: Invoice| inv.address@ == addr
}

/// The invoices in status `status`.
pub open spec fn invoices_with_status(status: InvoiceStatus) -> spec_fn(Invoice) -> bool {
    |inv: Invoice| inv.status == status
}

/// The invoices on chain `name` in status `status`.
pub open spec fn invoices_on_chain_with_status(
    name: Seq<char>,
    status: InvoiceStatus,
) -> spec_fn(Invoice) -> bool {
    |inv: Invoice| inv.network@ == name && inv.status == status
}

/// The invoices payable at `addr` in status `status`.
pub open spec fn invoices_at_address_with_status(
    addr: Seq<char>,
    status: InvoiceStatus,
) -> spec_fn(Invoice) -> bool {
    |inv: Invoice| inv.address@ == addr && inv.status == status
}

/// The chains that list symbol `sym`, natively or as a token.
pub open spec fn chain_has_symbol(c: ChainConfig, sym: Seq<char>) -> bool {
    c.native_symbol@ == sym || has_token(c, sym)
}

impl Store {

    /// Copies of all invoices, in store order.
    pub fn get_invoices(&self) -> (r: Vec<Invoice>)
        ensures
            r@ == self.invoices@,
    {
        let mut out: Vec<Invoice> = Vec::new();
        let mut i: usize = 0;
        while i < self.invoices.len()
            invariant
                i <= self.invoices@.len(),
                out@ == self.invoices@.subrange(0, i as int),
            decreases self.invoices@.len() - i,
        {
            out.push(self.invoices[i].clone());
            proof {
                assert(out@ =~= self.invoices@.subrange(0, i + 1));
            }
            i += 1;
        }
        proof {
            assert(self.invoices@.subrange(0, self.invoices@.len() as int) =~= self.invoices@);
        }
        out
    }

    /// Copies of the matching invoices, in store order.
    pub fn get_invoices_by_chain(&self, chain_name: &str) -> (r: Vec<Invoice>)
        ensures
            r@ == self.invoices@.filter(invoices_on_chain(chain_name@)),
    {
        let ghost pred = invoices_on_chain(chain_name@);
        let mut out: Vec<Invoice> = Vec::new();
        let mut i: usize = 0;
        proof {
            reveal(Seq::filter);
            assert(self.invoices@.subrange(0, 0).filter(pred) =~= Seq::<Invoice>::empty());
        }
        while i < self.invoices.len()
            invariant
                i <= self.invoices@.len(),
                pred == invoices_on_chain(chain_name@),
                out@ == self.invoices@.subrange(0, i as int).filter(pred),
            decreases self.invoices@.len() - i,
        {
            proof {
                reveal(Seq::filter);
                assert(self.invoices@.subrange(0, i + 1).drop_last() =~= self.invoices@.subrange(
                    0,
                    i as int,
                ));
            }
            if str_eq(self.invoices[i].network.as_str(), chain_name) {
                out.push(self.invoices[i].clone());
            }
            i += 1;
        }
        proof {
            assert(self.invoices@.subrange(0, self.invoices@.len() as int) =~= self.invoices@);
        }
        out
    }

    /// Copies of the matching invoices, in store order.
    pub fn get_invoices_by_token(&self, token_symbol: &str) -> (r: Vec<Invoice>)
        ensures
            r@ == self.invoices@.filter(invoices_with_token(token_symbol@)),
    {
        let ghost pred = invoices_with_token(token_symbol@);
        let mut out: Vec<Invoice> = Vec::new();
        let mut i: usize = 0;
        proof {
            reveal(Seq::filter);
            assert(self.invoices@.subrange(0, 0).filter(pred) =~= Seq::<Invoice>::empty());
        }
        while i < self.invoices.len()
            invariant
                i <= self.invoices@.len(),
                pred == invoices_with_token(token_symbol@),
                out@ == self.invoices@.subrange(0, i as int).filter(pred),
            decreases self.invoices@.len() - i,
        {
            proof {
                reveal(Seq::filter);
                assert(self.invoices@.subrange(0, i + 1).drop_last() =~= self.invoices@.subrange(
                    0,
                    i as int,
                ));
            }
            if str_eq(self.invoices[i].token.as_str(), token_symbol) {
                out.push(self.invoices[i].clone());
            }
            i += 1;
        }
        proof {
            assert(self.invoices@.subrange(0, self.invoices@.len() as int) =~= self.invoices@);
        }
        out
    }

    /// Copies of the matching invoices, in store order.
    pub fn get_invoices_by_address(&self, address: &str) -> (r: Vec<Invoice>)
        ensures
            r@ == self.invoices@.filter(invoices_at_address(address@)),
    {
        let ghost pred = invoices_at_address(address@);
        let mut out: Vec<Invoice> = Vec::new();
        let mut i: usize = 0;
        proof {
            reveal(Seq::filter);
            assert(self.invoices@.subrange(0, 0).filter(pred) =~= Seq::<Invoice>::empty());
        }
        while i < self.invoices.len()
            invariant
                i <= self.invoices@.len(),
                pred == invoices_at_address(address@),
                out@ == self.invoices@.subrange(0, i as int).filter(pred),
            decreases self.invoices@.len() - i,
        {
            proof {
                reveal(Seq::filter);
                assert(self.invoices@.subrange(0, i + 1).drop_last() =~= self.invoices@.subrange(
                    0,
                    i as int,
                ));
            }
            if str_eq(self.invoices[i].address.as_str(), address) {
                out.push(self.invoices[i].clone());
            }
            i += 1;
        }
        proof {
            assert(self.invoices@.subrange(0, self.invoices@.len() as int) =~= self.invoices@);
        }
        out
    }

    /// Copies of the matching invoices, in store order.
    pub fn get_invoices_by_status(&self, status: InvoiceStatus) -> (r: Vec<Invoice>)
        ensures
            r@ == self.invoices@.filter(invoices_with_status(status)),
    {
        let ghost pred = invoices_with_status(status);
        let mut out: Vec<Invoice> = Vec::new();
        let mut i: usize = 0;
        proof {
            reveal(Seq::filter);
            assert(self.invoices@.subrange(0, 0).filter(pred) =~= Seq::<Invoice>::empty());
        }
        while i < self.invoices.len()
            invariant
                i <= self.invoices@.len(),
                pred == invoices_with_status(status),
                out@ == self.invoices@.subrange(0, i as int).filter(pred),
            decreases self.invoices@.len() - i,
        {
            proof {
                reveal(Seq::filter);
                assert(self.invoices@.subrange(0, i + 1).drop_last() =~= self.invoices@.subrange(
                    0,
                    i as int,
                ));
            }
            if self.invoices[i].status == status {
                out.push(self.invoices[i].clone());
            }
            i += 1;
        }
        proof {
            assert(self.invoices@.subrange(0, self.invoices@.len() as int) =~= self.invoices@);
        }
        out
    }

    /// Copies of the matching invoices, in store order.
    pub fn get_invoices_by_chain_and_status(&self, chain_name: &str, status: InvoiceStatus) -> (r: Vec<Invoice>)
        ensures
            r@ == self.invoices@.filter(invoices_on_chain_with_status(chain_name@, status)),
    {
        let ghost pred = invoices_on_chain_with_status(chain_name@, status);
        let mut out: Vec<Invoice> = Vec::new();
        let mut i: usize = 0;
        proof {
            reveal(Seq::filter);
            assert(self.invoices@.subrange(0, 0).filter(pred) =~= Seq::<Invoice>::empty());
        }
        while i < self.invoices.len()
            invariant
                i <= self.invoices@.len(),
                pred == invoices_on_chain_with_status(chain_name@, status),
                out@ == self.invoices@.subrange(0, i as int).filter(pred),
            decreases self.invoices@.len() - i,
        {
            proof {
                reveal(Seq::filter);
                assert(self.invoices@.subrange(0, i + 1).drop_last() =~= self.invoices@.subrange(
                    0,
                    i as int,
                ));
            }
            if str_eq(self.invoices[i].network.as_str(), chain_name) && self.invoices[i].status == status {
                out.push(self.invoices[i].clone());
            }
            i += 1;
        }
        proof {
            assert(self.invoices@.subrange(0, self.invoices@.len() as int) =~= self.invoices@);
        }
        out
    }

    /// Copies of the matching invoices, in store order.
    pub fn get_invoices_by_address_and_status(&self, address: &str, status: InvoiceStatus) -> (r: Vec<Invoice>)
        ensures
            r@ == self.invoices@.filter(invoices_at_address_with_status(address@, status)),
    {
        let ghost pred = invoices_at_address_with_status(address@, status);
        let mut out: Vec<Invoice> = Vec::new();
        let mut i: usize = 0;
        proof {
            reveal(Seq::filter);
            assert(self.invoices@.subrange(0, 0).filter(pred) =~= Seq::<Invoice>::empty());
        }
        while i < self.invoices.len()
            invariant
                i <= self.invoices@.len(),
                pred == invoices_at_address_with_status(address@, status),
                out@ == self.invoices@.subrange(0, i as int).filter(pred),
            decreases self.invoices@.len() - i,
        {
            proof {
                reveal(Seq::filter);
                assert(self.invoices@.subrange(0, i + 1).drop_last() =~= self.invoices@.subrange(
                    0,
                    i as int,
                ));
            }
            if str_eq(self.invoices[i].address.as_str(), address) && self.invoices[i].status == status {
                out.push(self.invoices[i].clone());
            }
            i += 1;
        }
        proof {
            assert(self.invoices@.subrange(0, self.invoices@.len() as int) =~= self.invoices@);
        }
        out
    }

    /// Whether the chain lists `token_symbol`, natively or as a token.
    fn chain_lists_symbol(&self, c: usize, token_symbol: &str) -> (r: bool)
        requires
            c < self.chains@.len(),
        ensures
            r == chain_has_symbol(self.chains@[c as int], token_symbol@),
    {
        if str_eq(self.chains[c].native_symbol.as_str(), token_symbol) {
            return true;
        }
        let mut j: usize = 0;
        let n = self.chains[c].tokens.len();
        while j < n
            invariant
                c < self.chains@.len(),
                n == self.chains@[c as int].tokens@.len(),
                j <= n,
                forall|b: int|
                    0 <= b < j ==> (#[trigger] self.chains@[c as int].tokens@[b]).symbol@
                        != token_symbol@,
            decreases n - j,
        {
            if str_eq(self.chains[c].tokens[j].symbol.as_str(), token_symbol) {
                return true;
            }
            j += 1;
        }
        proof {
            assert(!has_token(self.chains@[c as int], token_symbol@));
        }
        false
    }

    /// Copies of the chains that carry `token_symbol`, natively or as a
    /// token, in registration order.
    pub fn get_chains_with_token(&self, token_symbol: &str) -> (r: Vec<ChainConfig>)
        ensures
            r@.len() == chains_with_symbol(self.chains@, token_symbol@).len(),
            forall|k: int|
                0 <= k < r@.len() ==> chain_eqv(
                    #[trigger] r@[k],
                    chains_with_symbol(self.chains@, token_symbol@)[k],
                ),
    {
        let mut out: Vec<ChainConfig> = Vec::new();
        let mut c: usize = 0;
        proof {
            assert(self.chains@.subrange(0, 0) =~= Seq::<ChainConfig>::empty());
        }
        while c < self.chains.len()
            invariant
                c <= self.chains@.len(),
                out@.len() == chains_with_symbol(
                    self.chains@.subrange(0, c as int),
                    token_symbol@,
                ).len(),
                forall|k: int|
                    0 <= k < out@.len() ==> chain_eqv(
                        #[trigger] out@[k],
                        chains_with_symbol(self.chains@.subrange(0, c as int), token_symbol@)[k],
                    ),
            decreases self.chains@.len() - c,
        {
            proof {
                assert(self.chains@.subrange(0, c + 1).drop_last() =~= self.chains@.subrange(
                    0,
                    c as int,
                ));
                lemma_chains_with_symbol_len(
                    self.chains@.subrange(0, c as int),
                    token_symbol@,
                );
            }
            if self.chain_lists_symbol(c, token_symbol) {
                out.push(self.chains[c].clone());
            }
            c += 1;
        }
        proof {
            assert(self.chains@.subrange(0, self.chains@.len() as int) =~= self.chains@);
        }
        out
    }
}

/// The chains listing symbol `sym`, in registration order.
pub open spec fn chains_with_symbol(cs: Seq<ChainConfig>, sym: Seq<char>) -> Seq<ChainConfig>
    decreases cs.len(),
{
    if cs.len() == 0 {
        Seq::empty()
    } else {
        chains_with_symbol(cs.drop_last(), sym) + if chain_has_symbol(cs.last(), sym) {
            seq![cs.last()]
        } else {
            Seq::empty()
        }
    }
}

proof fn lemma_chains_with_symbol_len(cs: Seq<ChainConfig>, sym: Seq<char>)
    ensures
        chains_with_symbol(cs, sym).len() <= cs.len(),
    decreases cs.len(),
{
    if cs.len() > 0 {
        lemma_chains_with_symbol_len(cs.drop_last(), sym);
    }
}

} // verus!
