use paygate::amount::Amount;
use paygate::model::{ChainConfig, ChainType, InvoiceStatus, TokenConfig, WebhookEvent};
use paygate::store::Store;

fn chain(name: &str) -> ChainConfig {
    ChainConfig {
        name: name.to_owned(),
        rpc_url: "http://localhost:8545".to_owned(),
        chain_type: ChainType::EVM,
        xpub: "xpub-test".to_owned(),
        native_symbol: "ETH".to_owned(),
        decimals: 18,
        last_processed_block: 0,
        block_lag: 2,
        required_confirmations: 3,
        watch_addresses: Vec::new(),
        tokens: Vec::new(),
    }
}

fn invoice(id: &str, network: &str, address: &str, token: &str) -> paygate::model::Invoice {
    paygate::model::Invoice {
        id: id.to_owned(),
        address_index: 0,
        address: address.to_owned(),
        amount: "1".to_owned(),
        amount_raw: Amount::from_u64(10),
        paid: "0".to_owned(),
        paid_raw: Amount::zero(),
        token: token.to_owned(),
        network: network.to_owned(),
        decimals: 18,
        webhook_url: None,
        webhook_secret: None,
        created_at: 1_000,
        expires_at: 2_000,
        status: InvoiceStatus::Pending,
    }
}

#[test]
fn invoice_queries_filter_in_order() {
    let mut store = Store::new();
    store.add_chain(chain("eth-test")).unwrap();
    store.add_chain(chain("base-test")).unwrap();
    store.add_invoice(invoice("i1", "eth-test", "0xa1", "ETH")).unwrap();
    store.add_invoice(invoice("i2", "base-test", "0xa2", "ETH")).unwrap();
    store.add_invoice(invoice("i3", "eth-test", "0xa3", "USDT")).unwrap();
    store.set_invoice_status("i3", InvoiceStatus::Expired).unwrap();

    assert_eq!(store.get_invoices().len(), 3);
    let on_eth = store.get_invoices_by_chain("eth-test");
    assert_eq!(on_eth.len(), 2);
    assert_eq!(on_eth[0].id, "i1");
    assert_eq!(on_eth[1].id, "i3");
    assert_eq!(store.get_invoices_by_token("USDT").len(), 1);
    assert_eq!(store.get_invoices_by_address("0xa2")[0].id, "i2");
    assert_eq!(store.get_invoices_by_status(InvoiceStatus::Pending).len(), 2);
    assert_eq!(
        store.get_invoices_by_chain_and_status("eth-test", InvoiceStatus::Pending)[0].id,
        "i1"
    );
    assert_eq!(
        store
            .get_invoices_by_address_and_status("0xa3", InvoiceStatus::Expired)
            .len(),
        1
    );
}

#[test]
fn chains_with_token_queries() {
    let mut store = Store::new();
    store.add_chain(chain("eth-test")).unwrap();
    let mut other = chain("base-test");
    other.native_symbol = "BASE".to_owned();
    store.add_chain(other).unwrap();
    let usdt = TokenConfig {
        symbol: "USDT".to_owned(),
        contract: "0xc0ffee".to_owned(),
        decimals: 6,
    };
    store.add_token("base-test", usdt).unwrap();
    let eth_chains = store.get_chains_with_token("ETH");
    assert_eq!(eth_chains.len(), 1);
    assert_eq!(eth_chains[0].name, "eth-test");
    let usdt_chains = store.get_chains_with_token("USDT");
    assert_eq!(usdt_chains.len(), 1);
    assert_eq!(usdt_chains[0].name, "base-test");
    assert!(store.get_chains_with_token("DOGE").is_empty());
    assert_eq!(store.get_chains().len(), 2);
}

#[test]
fn chain_removal_cascades_to_invoices() {
    let mut store = Store::new();
    store.add_chain(chain("eth-test")).unwrap();
    store.add_chain(chain("base-test")).unwrap();
    store.add_invoice(invoice("i1", "eth-test", "0xa1", "ETH")).unwrap();
    store.add_invoice(invoice("i2", "base-test", "0xa2", "ETH")).unwrap();
    store.remove_chain("eth-test").unwrap();
    assert!(store.get_invoice("i1").is_none());
    assert!(store.get_invoice("i2").is_some());
    assert!(!store.chain_exists("eth-test"));
}

#[test]
fn event_type_names() {
    let e = WebhookEvent::TxDetected {
        invoice_id: "i".to_owned(),
        tx_hash: "h".to_owned(),
        amount: "1".to_owned(),
        currency: "ETH".to_owned(),
    };
    assert_eq!(e.event_type_str(), "TxDetected");
    let e = WebhookEvent::InvoiceExpired { invoice_id: "i".to_owned() };
    assert_eq!(e.event_type_str(), "InvoiceExpired");
}
