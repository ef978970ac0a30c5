use paygate::amount::Amount;
use paygate::model::{
    ChainConfig, ChainType, Error, Invoice, InvoiceStatus, PartialChainUpdate, PaymentStatus,
    TokenConfig, WebhookEvent, WebhookStatus,
};
use paygate::store::Store;

fn test_chain(name: &str) -> ChainConfig {
    ChainConfig {
        name: name.to_owned(),
        rpc_url: "http://localhost:8545".to_owned(),
        chain_type: ChainType::EVM,
        xpub: "xpub-test".to_owned(),
        native_symbol: "ETH".to_owned(),
        decimals: 18,
        last_processed_block: 0,
        block_lag: 2,
        required_confirmations: 3,
        watch_addresses: Vec::new(),
        tokens: Vec::new(),
    }
}

fn test_invoice(id: &str, network: &str, address: &str, amount_raw: Amount) -> Invoice {
    Invoice {
        id: id.to_owned(),
        address_index: 0,
        address: address.to_owned(),
        amount: amount_raw.format_units(18),
        amount_raw,
        paid: "0".to_owned(),
        paid_raw: Amount::zero(),
        token: "ETH".to_owned(),
        network: network.to_owned(),
        decimals: 18,
        webhook_url: Some("http://merchant.example/hook".to_owned()),
        webhook_secret: Some("test_secret".to_owned()),
        created_at: 1_000,
        expires_at: 2_000,
        status: InvoiceStatus::Pending,
    }
}

#[test]
fn chain_crud_and_cursor() {
    let mut store = Store::new();
    assert!(store.add_chain(test_chain("eth-test")).is_ok());
    assert_eq!(store.add_chain(test_chain("eth-test")), Err(Error::DuplicateId));
    assert!(store.chain_exists("eth-test"));
    assert!(!store.chain_exists("nope"));
    assert!(store.update_chain_block("eth-test", 42).is_ok());
    assert_eq!(store.get_latest_block("eth-test"), Some(42));
    assert_eq!(store.update_chain_block("nope", 1), Err(Error::NotFound));
    let upd = PartialChainUpdate {
        rpc_url: None,
        last_processed_block: None,
        xpub: Some("xpub-new".to_owned()),
        block_lag: Some(5),
        required_confirmations: None,
    };
    assert!(store.update_chain_partial("eth-test", &upd).is_ok());
    assert_eq!(store.get_xpub("eth-test"), Some("xpub-new".to_owned()));
    assert_eq!(store.get_block_lag("eth-test"), Some(5));
    assert_eq!(store.get_latest_block("eth-test"), Some(42));
    assert!(store.remove_chain("eth-test").is_ok());
    assert!(!store.chain_exists("eth-test"));
}

#[test]
fn watch_addresses_are_canonical() {
    let mut store = Store::new();
    store.add_chain(test_chain("eth-test")).unwrap();
    store.add_watch_address("eth-test", "0xAbCd").unwrap();
    let watch = store.get_watch_addresses("eth-test").unwrap();
    assert_eq!(watch, vec!["0xabcd".to_owned()]);
    // Adding the same address in another case changes nothing.
    store.add_watch_address("eth-test", "0xABCD").unwrap();
    assert_eq!(store.get_watch_addresses("eth-test").unwrap().len(), 1);
    store.remove_watch_address("eth-test", "0xabCD").unwrap();
    assert!(store.get_watch_addresses("eth-test").unwrap().is_empty());
}

#[test]
fn bulk_watch_removal() {
    let mut store = Store::new();
    store.add_chain(test_chain("eth-test")).unwrap();
    store.add_watch_address("eth-test", "0xa1").unwrap();
    store.add_watch_address("eth-test", "0xa2").unwrap();
    store.add_watch_address("eth-test", "0xa3").unwrap();
    let gone = vec!["0xA1".to_owned(), "0xa3".to_owned()];
    store.remove_watch_addresses_bulk("eth-test", &gone).unwrap();
    assert_eq!(store.get_watch_addresses("eth-test").unwrap(), vec!["0xa2".to_owned()]);
}

#[test]
fn token_crud_and_decimals() {
    let mut store = Store::new();
    store.add_chain(test_chain("eth-test")).unwrap();
    let usd = TokenConfig { symbol: "USDT".to_owned(), contract: "0xc0ffee".to_owned(), decimals: 6 };
    store.add_token("eth-test", usd).unwrap();
    let dup_sym = TokenConfig { symbol: "USDT".to_owned(), contract: "0xother".to_owned(), decimals: 6 };
    assert_eq!(store.add_token("eth-test", dup_sym), Err(Error::DuplicateId));
    assert_eq!(store.get_token("eth-test", "USDT").unwrap().decimals, 6);
    assert_eq!(store.get_token_by_contract("eth-test", "0xc0ffee").unwrap().symbol, "USDT");
    assert_eq!(store.get_token_decimals("eth-test", "USDT"), Some(6));
    assert_eq!(store.get_token_decimals("eth-test", "ETH"), Some(18));
    assert_eq!(store.get_token_decimals("eth-test", "DOGE"), None);
    assert_eq!(store.get_token_contracts("eth-test").unwrap(), vec!["0xc0ffee".to_owned()]);
    store.remove_token("eth-test", "USDT").unwrap();
    assert!(store.get_token("eth-test", "USDT").is_none());
}

#[test]
fn invoice_lifecycle_and_address_uniqueness() {
    let mut store = Store::new();
    store.add_chain(test_chain("eth-test")).unwrap();
    let one = Amount::from_u64(1_000_000_000_000_000_000);
    store.add_invoice(test_invoice("inv-1", "eth-test", "0xaaaa", one)).unwrap();
    assert_eq!(
        store.add_invoice(test_invoice("inv-1", "eth-test", "0xbbbb", one)),
        Err(Error::DuplicateId)
    );
    // A second Pending invoice at the same (chain, address) is refused.
    assert_eq!(
        store.add_invoice(test_invoice("inv-2", "eth-test", "0xaaaa", one)),
        Err(Error::BadInput)
    );
    // An address that is not canonical lowercase is refused.
    assert_eq!(
        store.add_invoice(test_invoice("inv-3", "eth-test", "0xAAAA", one)),
        Err(Error::BadInput)
    );
    let found = store.get_pending_invoice_by_address("eth-test", "0xAaAa").unwrap();
    assert_eq!(found.id, "inv-1");
    assert!(store.get_pending_invoice_by_address("eth-test", "0xcccc").is_none());
    assert_eq!(store.is_invoice_pending("inv-1"), Some(true));
    assert_eq!(store.is_invoice_paid("inv-1"), Some(false));
    assert_eq!(store.is_invoice_expired("inv-1"), Some(false));
    assert_eq!(store.is_invoice_pending("ghost"), None);
    store.set_invoice_status("inv-1", InvoiceStatus::Paid).unwrap();
    // No reverse transition out of Paid.
    assert_eq!(
        store.set_invoice_status("inv-1", InvoiceStatus::Pending),
        Err(Error::BadInput)
    );
    store.remove_invoice("inv-1").unwrap();
    assert_eq!(store.is_invoice_pending("inv-1"), None);
}

#[test]
fn free_slot_is_smallest_unused_index() {
    let mut store = Store::new();
    store.add_chain(test_chain("eth-test")).unwrap();
    let one = Amount::from_u64(10);
    let mut inv0 = test_invoice("i0", "eth-test", "0xa0", one);
    inv0.address_index = 0;
    let mut inv1 = test_invoice("i1", "eth-test", "0xa1", one);
    inv1.address_index = 1;
    let mut inv3 = test_invoice("i3", "eth-test", "0xa3", one);
    inv3.address_index = 3;
    store.add_invoice(inv0).unwrap();
    store.add_invoice(inv1).unwrap();
    store.add_invoice(inv3).unwrap();
    assert_eq!(store.get_free_slot("eth-test"), Some(2));
    // An expired invoice frees its slot.
    store.set_invoice_status("i0", InvoiceStatus::Expired).unwrap();
    assert_eq!(store.get_free_slot("eth-test"), Some(0));
    assert_eq!(store.get_free_slot("other-chain"), Some(0));
}

#[test]
fn payment_attempt_is_idempotent() {
    let mut store = Store::new();
    store.add_chain(test_chain("eth-test")).unwrap();
    let one = Amount::from_u64(1_000_000);
    store.add_invoice(test_invoice("inv-1", "eth-test", "0xaaaa", one)).unwrap();
    let inserted = store
        .add_payment_attempt(
            "pay-1".to_owned(),
            "inv-1",
            "0xfrom",
            "0xaaaa",
            "0xhash1",
            one,
            100,
            "eth-test",
            Some(7),
            1_500,
        )
        .unwrap();
    assert!(inserted);
    // The same (invoice, tx, log index) again: only the block number moves.
    let again = store
        .add_payment_attempt(
            "pay-2".to_owned(),
            "inv-1",
            "0xfrom",
            "0xaaaa",
            "0xhash1",
            one,
            101,
            "eth-test",
            Some(7),
            1_600,
        )
        .unwrap();
    assert!(!again);
    let confirming = store.get_confirming_payments();
    assert_eq!(confirming.len(), 1);
    assert_eq!(confirming[0].block_number, 101);
    assert_eq!(confirming[0].id, "pay-1");
    // A different log index is a distinct transfer.
    let other = store
        .add_payment_attempt(
            "pay-3".to_owned(),
            "inv-1",
            "0xfrom",
            "0xaaaa",
            "0xhash1",
            one,
            101,
            "eth-test",
            Some(8),
            1_700,
        )
        .unwrap();
    assert!(other);
    assert_eq!(store.get_confirming_payments().len(), 2);
    assert_eq!(
        store.add_payment_attempt(
            "pay-9".to_owned(),
            "ghost",
            "0xfrom",
            "0xaaaa",
            "0xhash9",
            one,
            100,
            "eth-test",
            None,
            1_800,
        ),
        Err(Error::NotFound)
    );
}

#[test]
fn finalize_payment_credits_invoice() {
    let mut store = Store::new();
    store.add_chain(test_chain("eth-test")).unwrap();
    let amount = Amount::from_u64(1_000_000_000_000_000_000);
    store.add_invoice(test_invoice("inv-1", "eth-test", "0xaaaa", amount)).unwrap();
    store
        .add_payment_attempt(
            "pay-1".to_owned(),
            "inv-1",
            "0xfrom",
            "0xaaaa",
            "0xhash1",
            amount,
            100,
            "eth-test",
            None,
            1_500,
        )
        .unwrap();
    let fully = store.finalize_payment("pay-1").unwrap();
    assert!(fully);
    let inv = store.get_invoice("inv-1").unwrap();
    assert_eq!(inv.paid_raw, amount);
    assert_eq!(inv.paid, "1");
    assert_eq!(inv.status, InvoiceStatus::Paid);
    assert!(store.get_confirming_payments().is_empty());
    // Finalizing the same payment twice is refused: no double credit.
    assert_eq!(store.finalize_payment("pay-1"), Err(Error::BadInput));
    assert_eq!(store.finalize_payment("ghost"), Err(Error::NotFound));
}

#[test]
fn webhook_queue_lease_and_retry() {
    let mut store = Store::new();
    store.add_chain(test_chain("eth-test")).unwrap();
    let one = Amount::from_u64(5);
    store.add_invoice(test_invoice("inv-1", "eth-test", "0xaaaa", one)).unwrap();
    let event = WebhookEvent::InvoicePaid {
        invoice_id: "inv-1".to_owned(),
        paid_amount: "100.0".to_owned(),
    };
    store.add_webhook_job("job-1".to_owned(), "inv-1", &event, 1_000).unwrap();
    // Not due yet.
    assert!(store.select_webhooks_job(999).is_empty());
    let jobs = store.select_webhooks_job(1_000);
    assert_eq!(jobs.len(), 1);
    assert_eq!(jobs[0].id, "job-1");
    assert_eq!(jobs[0].secret_key, "test_secret");
    assert_eq!(jobs[0].url, "http://merchant.example/hook");
    assert_eq!(jobs[0].attempts, 0);
    assert_eq!(jobs[0].max_retries, 10);
    assert_eq!(jobs[0].payload, event);
    // Leased jobs are Processing: a second lease returns nothing.
    assert!(store.select_webhooks_job(1_000).is_empty());
    // Schedule a retry two seconds out.
    store.schedule_webhook_retry("job-1", 1, 2, 1_000).unwrap();
    assert!(store.select_webhooks_job(1_001).is_empty());
    let again = store.select_webhooks_job(1_002);
    assert_eq!(again.len(), 1);
    assert_eq!(again[0].attempts, 1);
    store.set_webhook_status("job-1", WebhookStatus::Sent).unwrap();
    assert!(store.select_webhooks_job(2_000).is_empty());
}

#[test]
fn jobs_without_a_secret_are_not_leased() {
    let mut store = Store::new();
    store.add_chain(test_chain("eth-test")).unwrap();
    let one = Amount::from_u64(5);
    let mut inv = test_invoice("inv-1", "eth-test", "0xaaaa", one);
    inv.webhook_secret = None;
    store.add_invoice(inv).unwrap();
    let event = WebhookEvent::InvoiceExpired { invoice_id: "inv-1".to_owned() };
    store.add_webhook_job("job-1".to_owned(), "inv-1", &event, 1_000).unwrap();
    // The job exists but cannot be signed: it is passed over.
    assert!(store.select_webhooks_job(1_000).is_empty());
}

#[test]
fn webhook_job_skipped_without_url() {
    let mut store = Store::new();
    store.add_chain(test_chain("eth-test")).unwrap();
    let one = Amount::from_u64(5);
    let mut inv = test_invoice("inv-1", "eth-test", "0xaaaa", one);
    inv.webhook_url = None;
    store.add_invoice(inv).unwrap();
    let event = WebhookEvent::InvoiceExpired { invoice_id: "inv-1".to_owned() };
    store.add_webhook_job("job-1".to_owned(), "inv-1", &event, 1_000).unwrap();
    assert!(store.select_webhooks_job(1_000).is_empty());
}

#[test]
fn recovery_rebuilds_watch_sets_and_unsticks_jobs() {
    let mut store = Store::new();
    store.add_chain(test_chain("eth-test")).unwrap();
    let one = Amount::from_u64(5);
    store.add_invoice(test_invoice("inv-1", "eth-test", "0xaaaa", one)).unwrap();
    let mut paid = test_invoice("inv-2", "eth-test", "0xbbbb", one);
    paid.status = InvoiceStatus::Paid;
    store.add_invoice(paid).unwrap();
    let event = WebhookEvent::InvoiceExpired { invoice_id: "inv-1".to_owned() };
    store.add_webhook_job("job-1".to_owned(), "inv-1", &event, 1_000).unwrap();
    // Lease the job, then crash: the lease must not survive recovery.
    assert_eq!(store.select_webhooks_job(1_000).len(), 1);
    store.recover();
    assert_eq!(store.get_watch_addresses("eth-test").unwrap(), vec!["0xaaaa".to_owned()]);
    assert_eq!(store.select_webhooks_job(1_000).len(), 1);
}

#[test]
fn payment_statuses_move_one_way() {
    let mut store = Store::new();
    store.add_chain(test_chain("eth-test")).unwrap();
    let amount = Amount::from_u64(10);
    let mut inv = test_invoice("inv-1", "eth-test", "0xaaaa", Amount::from_u64(100));
    inv.status = InvoiceStatus::Pending;
    store.add_invoice(inv).unwrap();
    store
        .add_payment_attempt(
            "pay-1".to_owned(),
            "inv-1",
            "0xfrom",
            "0xaaaa",
            "0xhash1",
            amount,
            100,
            "eth-test",
            None,
            1_500,
        )
        .unwrap();
    assert_eq!(store.get_confirming_payments()[0].status, PaymentStatus::Confirming);
    let fully = store.finalize_payment("pay-1").unwrap();
    assert!(!fully);
    let inv = store.get_invoice("inv-1").unwrap();
    assert_eq!(inv.status, InvoiceStatus::Pending);
    assert_eq!(inv.paid_raw, amount);
}

#[test]
fn finalize_overflow_is_storage_error() {
    let mut store = Store::new();
    store.add_chain(test_chain("eth-test")).unwrap();
    let max = Amount::from_limbs(u64::MAX, u64::MAX, u64::MAX, u64::MAX);
    let mut inv = test_invoice("inv-1", "eth-test", "0xaaaa", max);
    inv.amount = max.format_units(18);
    store.add_invoice(inv).unwrap();
    store
        .add_payment_attempt(
            "pay-1".to_owned(), "inv-1", "0xfrom", "0xaaaa", "0xh1", max, 100, "eth-test", None,
            1_500,
        )
        .unwrap();
    store
        .add_payment_attempt(
            "pay-2".to_owned(), "inv-1", "0xfrom", "0xaaaa", "0xh2", Amount::from_u64(1), 101,
            "eth-test", None, 1_501,
        )
        .unwrap();
    assert_eq!(store.finalize_payment("pay-1"), Ok(true));
    // Crediting one more unit cannot be represented: nothing changes.
    assert_eq!(store.finalize_payment("pay-2"), Err(Error::Storage));
    let inv = store.get_invoice("inv-1").unwrap();
    assert_eq!(inv.paid_raw, max);
}
