use paygate::amount::Amount;
use paygate::confirm::{apply_confirmation, confirmation_due, ConfirmOutcome};
use paygate::ingest::{
    block_range, native_transfer_events, parse_tx_value, should_retry_logs, suspicious_block,
    token_transfer_events, LogRecord, TxRecord,
};
use paygate::janitor::janitor_tick;
use paygate::model::{
    ChainConfig, ChainType, Invoice, InvoiceStatus, TokenConfig, WebhookEvent, WebhookStatus,
};
use paygate::store::Store;
use paygate::watcher::{process_payment_event, WatchOutcome};

const ONE_ETH: u64 = 1_000_000_000_000_000_000;

fn eth_chain() -> ChainConfig {
    ChainConfig {
        name: "eth-test".to_owned(),
        rpc_url: "http://localhost:8545".to_owned(),
        chain_type: ChainType::EVM,
        xpub: "xpub-test".to_owned(),
        native_symbol: "ETH".to_owned(),
        decimals: 18,
        last_processed_block: 0,
        block_lag: 0,
        required_confirmations: 3,
        watch_addresses: Vec::new(),
        tokens: Vec::new(),
    }
}

fn eth_invoice(id: &str, address: &str, amount_raw: Amount) -> Invoice {
    Invoice {
        id: id.to_owned(),
        address_index: 0,
        address: address.to_owned(),
        amount: amount_raw.format_units(18),
        amount_raw,
        paid: "0".to_owned(),
        paid_raw: Amount::zero(),
        token: "ETH".to_owned(),
        network: "eth-test".to_owned(),
        decimals: 18,
        webhook_url: Some("http://merchant.example/hook".to_owned()),
        webhook_secret: Some("test_secret".to_owned()),
        created_at: 1_000,
        expires_at: 100_000,
        status: InvoiceStatus::Pending,
    }
}

fn native_tx(hash: &str, to: &str, value_hex: &str) -> TxRecord {
    TxRecord {
        hash: hash.to_owned(),
        from: "0xf00d".to_owned(),
        to: to.to_owned(),
        value_hex: value_hex.to_owned(),
        input: "0x".to_owned(),
    }
}

#[test]
fn happy_path_native_payment() {
    let mut store = Store::new();
    store.add_chain(eth_chain()).unwrap();
    let addr = "0xaaaaaaaaaaaaaaaaaaaaaaaaaaaaaaaaaaaaaaaa";
    store.add_invoice(eth_invoice("inv-1", addr, Amount::from_u64(ONE_ETH))).unwrap();
    store.add_watch_address("eth-test", addr).unwrap();

    // Block N: a transaction of exactly 1 ETH to the derived address.
    let n = 100u64;
    let watch = store.get_watch_addresses("eth-test").unwrap();
    let txs = vec![
        native_tx("0xh1", addr, "0xde0b6b3a7640000"),
        native_tx("0xh2", "0xdeadbeef", "0xde0b6b3a7640000"),
    ];
    let events = native_transfer_events("eth-test", "ETH", 18, n, &txs, &watch);
    assert_eq!(events.len(), 1);
    assert_eq!(events[0].tx_hash, "0xh1");
    assert_eq!(events[0].amount, "1");
    assert_eq!(events[0].amount_raw, Amount::from_u64(ONE_ETH));

    let outcome = process_payment_event(&mut store, &events[0], "pay-1".to_owned(), "job-1".to_owned(), 1_500);
    assert_eq!(
        outcome,
        WatchOutcome::Recorded { invoice_id: "inv-1".to_owned(), inserted: true }
    );
    // A TxDetected webhook with amount "1" awaits delivery.
    let jobs = store.select_webhooks_job(1_500);
    assert_eq!(jobs.len(), 1);
    assert_eq!(
        jobs[0].payload,
        WebhookEvent::TxDetected {
            invoice_id: "inv-1".to_owned(),
            tx_hash: "0xh1".to_owned(),
            amount: "1".to_owned(),
            currency: "ETH".to_owned(),
        }
    );

    // Not confirmable until block N+3 is processed.
    store.update_chain_block("eth-test", n + 2).unwrap();
    let payment = store.get_confirming_payments().remove(0);
    assert_eq!(confirmation_due(&store, &payment), Ok(false));
    store.update_chain_block("eth-test", n + 3).unwrap();
    assert_eq!(confirmation_due(&store, &payment), Ok(true));

    // The receipt still reports block N: finalize.
    let outcome = apply_confirmation(&mut store, &payment, Some(n), "job-2".to_owned(), 1_600);
    assert_eq!(outcome, ConfirmOutcome::Confirmed { fully_paid: true });
    let inv = store.get_invoice("inv-1").unwrap();
    assert_eq!(inv.status, InvoiceStatus::Paid);
    assert_eq!(inv.paid, "1");
    assert!(store.get_watch_addresses("eth-test").unwrap().is_empty());
    let jobs = store.select_webhooks_job(1_600);
    assert_eq!(jobs.len(), 1);
    assert_eq!(
        jobs[0].payload,
        WebhookEvent::InvoicePaid { invoice_id: "inv-1".to_owned(), paid_amount: "1".to_owned() }
    );
}

#[test]
fn reorg_defers_finalization() {
    let mut store = Store::new();
    store.add_chain(eth_chain()).unwrap();
    let addr = "0xaaaa";
    store.add_invoice(eth_invoice("inv-1", addr, Amount::from_u64(ONE_ETH))).unwrap();
    let n = 100u64;
    store
        .add_payment_attempt(
            "pay-1".to_owned(),
            "inv-1",
            "0xf00d",
            addr,
            "0xh1",
            Amount::from_u64(ONE_ETH),
            n,
            "eth-test",
            None,
            1_500,
        )
        .unwrap();
    store.update_chain_block("eth-test", n + 3).unwrap();
    let payment = store.get_confirming_payments().remove(0);
    assert_eq!(confirmation_due(&store, &payment), Ok(true));
    // The receipt reports N+1: the row moves, nothing is finalized yet.
    let outcome = apply_confirmation(&mut store, &payment, Some(n + 1), "job-1".to_owned(), 1_600);
    assert_eq!(outcome, ConfirmOutcome::Reorged);
    let moved = store.get_confirming_payments().remove(0);
    assert_eq!(moved.block_number, n + 1);
    assert_eq!(store.get_invoice("inv-1").unwrap().status, InvoiceStatus::Pending);
    // Due again only once last_processed reaches N+1+3.
    assert_eq!(confirmation_due(&store, &moved), Ok(false));
    store.update_chain_block("eth-test", n + 4).unwrap();
    assert_eq!(confirmation_due(&store, &moved), Ok(true));
    // An unverifiable receipt leaves everything as it is.
    let outcome = apply_confirmation(&mut store, &moved, None, "job-2".to_owned(), 1_700);
    assert_eq!(outcome, ConfirmOutcome::TxUnverified);
    assert_eq!(store.get_confirming_payments().len(), 1);
}

#[test]
fn underpay_then_completion() {
    let mut store = Store::new();
    store.add_chain(eth_chain()).unwrap();
    let addr = "0xaaaa";
    store.add_invoice(eth_invoice("inv-1", addr, Amount::from_u64(ONE_ETH))).unwrap();
    let four_tenths = Amount::from_u64(400_000_000_000_000_000);
    let six_tenths = Amount::from_u64(600_000_000_000_000_000);
    store
        .add_payment_attempt(
            "pay-1".to_owned(), "inv-1", "0xf00d", addr, "0xh1", four_tenths, 100, "eth-test",
            None, 1_500,
        )
        .unwrap();
    store
        .add_payment_attempt(
            "pay-2".to_owned(), "inv-1", "0xf00d", addr, "0xh2", six_tenths, 101, "eth-test",
            None, 1_501,
        )
        .unwrap();
    assert_eq!(store.get_confirming_payments().len(), 2);
    assert_eq!(store.finalize_payment("pay-1"), Ok(false));
    let inv = store.get_invoice("inv-1").unwrap();
    assert_eq!(inv.paid, "0.4");
    assert_eq!(inv.status, InvoiceStatus::Pending);
    assert_eq!(store.finalize_payment("pay-2"), Ok(true));
    let inv = store.get_invoice("inv-1").unwrap();
    assert_eq!(inv.paid, "1");
    assert_eq!(inv.paid_raw, inv.amount_raw);
    assert_eq!(inv.status, InvoiceStatus::Paid);
}

#[test]
fn janitor_expires_and_cleans_up() {
    let mut store = Store::new();
    store.add_chain(eth_chain()).unwrap();
    let addr = "0xaaaa";
    let mut inv = eth_invoice("inv-1", addr, Amount::from_u64(ONE_ETH));
    inv.expires_at = 1_999;
    store.add_invoice(inv).unwrap();
    store.add_watch_address("eth-test", addr).unwrap();
    let mut fresh = eth_invoice("inv-2", "0xbbbb", Amount::from_u64(ONE_ETH));
    fresh.expires_at = 9_999;
    store.add_invoice(fresh).unwrap();
    store.add_watch_address("eth-test", "0xbbbb").unwrap();

    let job_ids = vec!["job-exp-1".to_owned(), "job-exp-2".to_owned()];
    let expired = janitor_tick(&mut store, 2_000, &job_ids);
    assert_eq!(expired.len(), 1);
    assert_eq!(expired[0].0, "inv-1");
    assert_eq!(expired[0].1, "eth-test");
    assert_eq!(expired[0].2, addr);
    assert_eq!(store.is_invoice_expired("inv-1"), Some(true));
    assert_eq!(store.is_invoice_pending("inv-2"), Some(true));
    assert_eq!(store.get_watch_addresses("eth-test").unwrap(), vec!["0xbbbb".to_owned()]);
    let jobs = store.select_webhooks_job(2_000);
    assert_eq!(jobs.len(), 1);
    assert_eq!(jobs[0].id, "job-exp-1");
    assert_eq!(
        jobs[0].payload,
        WebhookEvent::InvoiceExpired { invoice_id: "inv-1".to_owned() }
    );
    // A transfer landing on the expired invoice's address is an orphan.
    let event = paygate::model::PaymentEvent {
        network: "eth-test".to_owned(),
        tx_hash: "0xlate".to_owned(),
        from: "0xf00d".to_owned(),
        to: addr.to_owned(),
        token: "ETH".to_owned(),
        amount: "1".to_owned(),
        amount_raw: Amount::from_u64(ONE_ETH),
        decimals: 18,
        block_number: 200,
        log_index: None,
    };
    let outcome = process_payment_event(&mut store, &event, "pay-9".to_owned(), "job-9".to_owned(), 2_100);
    assert_eq!(outcome, WatchOutcome::NoPendingInvoice);
}

#[test]
fn missing_logs_retry_policy() {
    let usdt = TokenConfig {
        symbol: "USDT".to_owned(),
        contract: "0xc0ffee00000000000000000000000000000000cc".to_owned(),
        decimals: 6,
    };
    let contracts = vec![usdt.contract.clone()];
    // A transfer call to a known token contract makes the block suspicious.
    let tx = TxRecord {
        hash: "0xh1".to_owned(),
        from: "0xf00d".to_owned(),
        to: "0xC0FFEE00000000000000000000000000000000CC".to_owned(),
        value_hex: "0x0".to_owned(),
        input: "0xa9059cbb000000000000000000000000aaaa".to_owned(),
    };
    let txs = vec![tx];
    assert!(suspicious_block(&txs, &contracts));
    // Up to fifteen retries, one second apart; then the block advances.
    for attempt in 0..15u64 {
        assert!(should_retry_logs(true, attempt));
    }
    assert!(!should_retry_logs(true, 15));
    assert!(!should_retry_logs(false, 0));

    // An unrelated call is not suspicious.
    let plain = TxRecord {
        hash: "0xh2".to_owned(),
        from: "0xf00d".to_owned(),
        to: "0xc0ffee00000000000000000000000000000000cc".to_owned(),
        value_hex: "0x0".to_owned(),
        input: "0xdeadbeef".to_owned(),
    };
    assert!(!suspicious_block(&vec![plain], &contracts));

    // When the log finally appears, the transfer is emitted.
    let watch = vec!["0xaaaaaaaaaaaaaaaaaaaaaaaaaaaaaaaaaaaaaaaa".to_owned()];
    let log = LogRecord {
        address: usdt.contract.clone(),
        topics: vec![
            "0xddf252ad1be2c89b69c2b068fc378daa952ba7f163c4a11628f55a4df523b3ef".to_owned(),
            "0x000000000000000000000000f00d00000000000000000000000000000000f00d".to_owned(),
            "0x000000000000000000000000AAAAAAAAAAAAAAAAAAAAAAAAAAAAAAAAAAAAAAAA".to_owned(),
        ],
        data: "0x0000000000000000000000000000000000000000000000000000000000989680".to_owned(),
        tx_hash: "0xh1".to_owned(),
        block_number: 100,
        log_index: Some(3),
    };
    let events = token_transfer_events("eth-test", &vec![log], &watch, &vec![usdt]);
    assert_eq!(events.len(), 1);
    assert_eq!(events[0].token, "USDT");
    assert_eq!(events[0].amount_raw, Amount::from_u64(10_000_000));
    assert_eq!(events[0].amount, "10");
    assert_eq!(events[0].to, "0xaaaaaaaaaaaaaaaaaaaaaaaaaaaaaaaaaaaaaaaa");
    assert_eq!(events[0].log_index, Some(3));
    // An empty log reply yields no events and no failure.
    let none = token_transfer_events("eth-test", &Vec::new(), &watch, &Vec::new());
    assert!(none.is_empty());
}

#[test]
fn block_ranges_have_no_gaps() {
    assert_eq!(block_range(100, 110, 2), vec![101, 102, 103, 104, 105, 106, 107, 108]);
    assert!(block_range(108, 110, 2).is_empty());
    assert!(block_range(5, 3, 0).is_empty());
    assert!(block_range(0, 1, 2).is_empty());
    assert_eq!(parse_tx_value("0xde0b6b3a7640000"), Amount::from_u64(ONE_ETH));
    assert_eq!(parse_tx_value("0x0"), Amount::zero());
    assert_eq!(parse_tx_value("garbage"), Amount::zero());
}

#[test]
fn wrong_asset_is_dropped() {
    let mut store = Store::new();
    store.add_chain(eth_chain()).unwrap();
    let addr = "0xaaaa";
    store.add_invoice(eth_invoice("inv-1", addr, Amount::from_u64(ONE_ETH))).unwrap();
    let event = paygate::model::PaymentEvent {
        network: "eth-test".to_owned(),
        tx_hash: "0xh1".to_owned(),
        from: "0xf00d".to_owned(),
        to: addr.to_owned(),
        token: "USDT".to_owned(),
        amount: "10".to_owned(),
        amount_raw: Amount::from_u64(10_000_000),
        decimals: 6,
        block_number: 100,
        log_index: Some(1),
    };
    let outcome = process_payment_event(&mut store, &event, "pay-1".to_owned(), "job-1".to_owned(), 1_500);
    assert_eq!(outcome, WatchOutcome::AssetMismatch);
    assert!(store.get_confirming_payments().is_empty());
}

#[test]
fn native_events_precede_log_events() {
    let watch = vec!["0xaaaaaaaaaaaaaaaaaaaaaaaaaaaaaaaaaaaaaaaa".to_owned()];
    let usdt = TokenConfig {
        symbol: "USDT".to_owned(),
        contract: "0xc0ffee00000000000000000000000000000000cc".to_owned(),
        decimals: 6,
    };
    let txs = vec![native_tx("0xh1", "0xaaaaaaaaaaaaaaaaaaaaaaaaaaaaaaaaaaaaaaaa", "0x1")];
    let logs = vec![LogRecord {
        address: usdt.contract.clone(),
        topics: vec![
            "0xddf252ad1be2c89b69c2b068fc378daa952ba7f163c4a11628f55a4df523b3ef".to_owned(),
            "0x000000000000000000000000f00d00000000000000000000000000000000f00d".to_owned(),
            "0x000000000000000000000000aaaaaaaaaaaaaaaaaaaaaaaaaaaaaaaaaaaaaaaa".to_owned(),
        ],
        data: "0x01".to_owned(),
        tx_hash: "0xh2".to_owned(),
        block_number: 7,
        log_index: Some(0),
    }];
    let events = paygate::ingest::block_events("eth-test", "ETH", 18, 7, &txs, &logs, &watch, &vec![usdt]);
    assert_eq!(events.len(), 2);
    assert_eq!(events[0].tx_hash, "0xh1");
    assert_eq!(events[0].token, "ETH");
    assert_eq!(events[1].tx_hash, "0xh2");
    assert_eq!(events[1].token, "USDT");
}

#[test]
fn reused_payment_id_is_rejected() {
    let mut store = Store::new();
    store.add_chain(eth_chain()).unwrap();
    let addr = "0xaaaa";
    store.add_invoice(eth_invoice("inv-1", addr, Amount::from_u64(ONE_ETH))).unwrap();
    let event = paygate::model::PaymentEvent {
        network: "eth-test".to_owned(),
        tx_hash: "0xh1".to_owned(),
        from: "0xf00d".to_owned(),
        to: addr.to_owned(),
        token: "ETH".to_owned(),
        amount: "1".to_owned(),
        amount_raw: Amount::from_u64(ONE_ETH),
        decimals: 18,
        block_number: 100,
        log_index: None,
    };
    let first = process_payment_event(&mut store, &event, "pay-1".to_owned(), "job-1".to_owned(), 1_500);
    assert_eq!(first, WatchOutcome::Recorded { invoice_id: "inv-1".to_owned(), inserted: true });
    // A different transfer, but the caller reuses the payment id: refused.
    let mut second_event = event;
    second_event.tx_hash = "0xh2".to_owned();
    let second = process_payment_event(&mut store, &second_event, "pay-1".to_owned(), "job-2".to_owned(), 1_501);
    assert_eq!(second, WatchOutcome::Rejected { reason: paygate::model::Error::DuplicateId });
    assert_eq!(store.get_confirming_payments().len(), 1);
}
