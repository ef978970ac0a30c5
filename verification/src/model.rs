//! The gateway's data model: chains, tokens, invoices, payments, webhook
//! jobs and events. Timestamps are unix seconds; amounts are exact 256-bit
//! integers in the token's smallest unit.

use vstd::prelude::*;

use crate::amount::Amount;

verus! {

/// A token watched on a chain. `(chain, symbol)` and `(chain, contract)`
/// are unique within that chain's token set.
#[derive(Debug)]
pub struct TokenConfig {
    pub symbol: String,
    pub contract: String,
    pub decimals: u8,
}

/// The chain family; only EVM-compatible chains are supported.
#[derive(Debug, Copy, Clone, PartialEq, Eq, Structural)]
pub enum ChainType {
    EVM,
}

/// A registered chain with its ingestion cursor, watch-set and token set.
#[derive(Debug)]
pub struct ChainConfig {
    pub name: String,
    pub rpc_url: String,
    pub chain_type: ChainType,
    pub xpub: String,
    pub native_symbol: String,
    pub decimals: u8,
    pub last_processed_block: u64,
    pub block_lag: u8,
    pub required_confirmations: u64,
    pub watch_addresses: Vec<String>,
    pub tokens: Vec<TokenConfig>,
}

#[derive(Debug, Clone, Copy, PartialEq, Eq, Structural)]
pub enum InvoiceStatus {
    Pending,
    Paid,
    Expired,
}

#[derive(Debug, Clone, Copy, PartialEq, Eq, Structural)]
pub enum PaymentStatus {
    Confirming,
    Confirmed,
}

#[derive(Debug, Clone, Copy, PartialEq, Eq, Structural)]
pub enum WebhookStatus {
    Pending,
    Processing,
    Sent,
    Failed,
}

/// An invoice: a requested amount on one chain, payable at one derived
/// address. `amount` and `paid` are the human-readable forms of the raw
/// values at this invoice's `decimals`.
#[derive(Debug)]
pub struct Invoice {
    pub id: String,
    pub address_index: u32,
    pub address: String,
    pub amount: String,
    pub amount_raw: Amount,
    pub paid: String,
    pub paid_raw: Amount,
    pub token: String,
    pub network: String,
    pub decimals: u8,
    pub webhook_url: Option<String>,
    pub webhook_secret: Option<String>,
    pub created_at: i64,
    pub expires_at: i64,
    pub status: InvoiceStatus,
}

/// An observed transfer credited to an invoice, unique per
/// `(invoice_id, tx_hash, log_index)`.
#[derive(Debug)]
pub struct Payment {
    pub id: String,
    pub invoice_id: String,
    pub from: String,
    pub to: String,
    pub network: String,
    pub tx_hash: String,
    pub log_index: Option<u64>,
    pub amount_raw: Amount,
    pub block_number: u64,
    pub status: PaymentStatus,
    pub created_at: i64,
}

/// A transfer seen on-chain, as it travels from an ingestor to the watcher.
#[derive(Debug)]
pub struct PaymentEvent {
    pub network: String,
    pub tx_hash: String,
    pub from: String,
    pub to: String,
    pub token: String,
    pub amount: String,
    pub amount_raw: Amount,
    pub decimals: u8,
    pub block_number: u64,
    pub log_index: Option<u64>,
}

/// A partial update of a chain row: only the fields that are `Some` change.
#[derive(Debug)]
pub struct PartialChainUpdate {
    pub rpc_url: Option<String>,
    pub last_processed_block: Option<u64>,
    pub xpub: Option<String>,
    pub block_lag: Option<u8>,
    pub required_confirmations: Option<u64>,
}

/// The body of a merchant notification.
#[derive(Debug, PartialEq)]
pub enum WebhookEvent {
    TxDetected { invoice_id: String, tx_hash: String, amount: String, currency: String },
    TxConfirmed { invoice_id: String, tx_hash: String, confirmations: u64 },
    InvoicePaid { invoice_id: String, paid_amount: String },
    InvoiceExpired { invoice_id: String },
}

/// A leased delivery job handed to the dispatcher.
#[derive(Debug)]
pub struct WebhookJob {
    pub id: String,
    pub url: String,
    pub secret_key: String,
    pub payload: WebhookEvent,
    pub attempts: i32,
    pub max_retries: i32,
}

/// A queued webhook row as the store keeps it.
#[derive(Debug)]
pub struct WebhookRecord {
    pub id: String,
    pub invoice_id: String,
    pub event_type: String,
    pub url: String,
    pub payload: WebhookEvent,
    pub attempts: i32,
    pub max_retries: i32,
    pub status: WebhookStatus,
    pub next_retry: i64,
}

/// The error kinds the core distinguishes.
#[derive(Debug, Clone, Copy, PartialEq, Eq, Structural)]
pub enum Error {
    NotFound,
    DuplicateId,
    BadInput,
    Storage,
    Rpc,
    Crypto,
    Network,
    Channel,
}

impl Clone for TokenConfig {
    fn clone(&self) -> (r: Self)
        ensures
            r == *self,
    {
        TokenConfig {
            symbol: self.symbol.clone(),
            contract: self.contract.clone(),
            decimals: self.decimals,
        }
    }
}

impl Clone for ChainConfig {
    fn clone(&self) -> (r: Self)
        ensures
            r.name == self.name,
            r.rpc_url == self.rpc_url,
            r.chain_type == self.chain_type,
            r.xpub == self.xpub,
            r.native_symbol == self.native_symbol,
            r.decimals == self.decimals,
            r.last_processed_block == self.last_processed_block,
            r.block_lag == self.block_lag,
            r.required_confirmations == self.required_confirmations,
            r.watch_addresses@ == self.watch_addresses@,
            r.tokens@ == self.tokens@,
    {
        let watch_addresses = self.watch_addresses.clone();
        let tokens = self.tokens.clone();
        proof {
            assert(watch_addresses@ =~= self.watch_addresses@);
            assert(tokens@ =~= self.tokens@);
        }
        ChainConfig {
            name: self.name.clone(),
            rpc_url: self.rpc_url.clone(),
            chain_type: self.chain_type,
            xpub: self.xpub.clone(),
            native_symbol: self.native_symbol.clone(),
            decimals: self.decimals,
            last_processed_block: self.last_processed_block,
            block_lag: self.block_lag,
            required_confirmations: self.required_confirmations,
            watch_addresses,
            tokens,
        }
    }
}

impl Clone for Invoice {
    fn clone(&self) -> (r: Self)
        ensures
            r == *self,
    {
        Invoice {
            id: self.id.clone(),
            address_index: self.address_index,
            address: self.address.clone(),
            amount: self.amount.clone(),
            amount_raw: self.amount_raw,
            paid: self.paid.clone(),
            paid_raw: self.paid_raw,
            token: self.token.clone(),
            network: self.network.clone(),
            decimals: self.decimals,
            webhook_url: self.webhook_url.clone(),
            webhook_secret: self.webhook_secret.clone(),
            created_at: self.created_at,
            expires_at: self.expires_at,
            status: self.status,
        }
    }
}

impl Clone for Payment {
    fn clone(&self) -> (r: Self)
        ensures
            r == *self,
    {
        Payment {
            id: self.id.clone(),
            invoice_id: self.invoice_id.clone(),
            from: self.from.clone(),
            to: self.to.clone(),
            network: self.network.clone(),
            tx_hash: self.tx_hash.clone(),
            log_index: self.log_index,
            amount_raw: self.amount_raw,
            block_number: self.block_number,
            status: self.status,
            created_at: self.created_at,
        }
    }
}

impl Clone for PaymentEvent {
    fn clone(&self) -> (r: Self)
        ensures
            r == *self,
    {
        PaymentEvent {
            network: self.network.clone(),
            tx_hash: self.tx_hash.clone(),
            from: self.from.clone(),
            to: self.to.clone(),
            token: self.token.clone(),
            amount: self.amount.clone(),
            amount_raw: self.amount_raw,
            decimals: self.decimals,
            block_number: self.block_number,
            log_index: self.log_index,
        }
    }
}

impl Clone for PartialChainUpdate {
    fn clone(&self) -> (r: Self)
        ensures
            r == *self,
    {
        PartialChainUpdate {
            rpc_url: self.rpc_url.clone(),
            last_processed_block: self.last_processed_block,
            xpub: self.xpub.clone(),
            block_lag: self.block_lag,
            required_confirmations: self.required_confirmations,
        }
    }
}

impl Clone for WebhookEvent {
    fn clone(&self) -> (r: Self)
        ensures
            r == *self,
    {
        match self {
            WebhookEvent::TxDetected { invoice_id, tx_hash, amount, currency } => (
            WebhookEvent::TxDetected {
                invoice_id: invoice_id.clone(),
                tx_hash: tx_hash.clone(),
                amount: amount.clone(),
                currency: currency.clone(),
            }),
            WebhookEvent::TxConfirmed { invoice_id, tx_hash, confirmations } => (
            WebhookEvent::TxConfirmed {
                invoice_id: invoice_id.clone(),
                tx_hash: tx_hash.clone(),
                confirmations: *confirmations,
            }),
            WebhookEvent::InvoicePaid { invoice_id, paid_amount } => (WebhookEvent::InvoicePaid {
                invoice_id: invoice_id.clone(),
                paid_amount: paid_amount.clone(),
            }),
            WebhookEvent::InvoiceExpired { invoice_id } => (WebhookEvent::InvoiceExpired {
                invoice_id: invoice_id.clone(),
            }),
        }
    }
}

impl Clone for WebhookJob {
    fn clone(&self) -> (r: Self)
        ensures
            r == *self,
    {
        WebhookJob {
            id: self.id.clone(),
            url: self.url.clone(),
            secret_key: self.secret_key.clone(),
            payload: self.payload.clone(),
            attempts: self.attempts,
            max_retries: self.max_retries,
        }
    }
}

impl Clone for WebhookRecord {
    fn clone(&self) -> (r: Self)
        ensures
            r == *self,
    {
        WebhookRecord {
            id: self.id.clone(),
            invoice_id: self.invoice_id.clone(),
            event_type: self.event_type.clone(),
            url: self.url.clone(),
            payload: self.payload.clone(),
            attempts: self.attempts,
            max_retries: self.max_retries,
            status: self.status,
            next_retry: self.next_retry,
        }
    }
}

impl WebhookEvent {
    pub open spec fn spec_invoice_id(self) -> Seq<char> {
        match self {
            WebhookEvent::TxDetected { invoice_id, .. } => invoice_id@,
            WebhookEvent::TxConfirmed { invoice_id, .. } => invoice_id@,
            WebhookEvent::InvoicePaid { invoice_id, .. } => invoice_id@,
            WebhookEvent::InvoiceExpired { invoice_id } => invoice_id@,
        }
    }

    /// The variant's name, as recorded in a job's `event_type` column.
    pub open spec fn spec_event_type(self) -> Seq<char> {
        match self {
            WebhookEvent::TxDetected { .. } => "TxDetected"@,
            WebhookEvent::TxConfirmed { .. } => "TxConfirmed"@,
            WebhookEvent::InvoicePaid { .. } => "InvoicePaid"@,
            WebhookEvent::InvoiceExpired { .. } => "InvoiceExpired"@,
        }
    }

    pub fn event_type_str(&self) -> (r: String)
        ensures
            r@ == self.spec_event_type(),
    {
        match self {
            WebhookEvent::TxDetected { .. } => "TxDetected".to_owned(),
            WebhookEvent::TxConfirmed { .. } => "TxConfirmed".to_owned(),
            WebhookEvent::InvoicePaid { .. } => "InvoicePaid".to_owned(),
            WebhookEvent::InvoiceExpired { .. } => "InvoiceExpired".to_owned(),
        }
    }
}

} // verus!
