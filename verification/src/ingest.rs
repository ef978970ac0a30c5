//! Block ingestion: turning a block's transactions and its token-transfer
//! logs into payment events, without gaps and without inventing transfers.

use vstd::prelude::*;
use vstd::string::StringExecFns;
use vstd::string::StrSliceExecFns;

use crate::amount::{all_hex_digits, format_units_spec, hex_val, Amount};
use crate::encoding::{normalized, str_eq, to_lowercase_ascii};
use crate::model::{PaymentEvent, TokenConfig};

verus! {

/// A transaction as the node reports it inside a block.
#[derive(Debug)]
pub struct TxRecord {
    pub hash: String,
    pub from: String,
    pub to: String,
    pub value_hex: String,
    pub input: String,
}

/// A token-transfer log as the node reports it.
#[derive(Debug)]
pub struct LogRecord {
    pub address: String,
    pub topics: Vec<String>,
    pub data: String,
    pub tx_hash: String,
    pub block_number: u64,
    pub log_index: Option<u64>,
}

/// The node's tip minus the chain's tip buffer, floored at zero.
pub open spec fn target_block(tip: u64, block_lag: u8) -> int {
    if tip >= block_lag {
        tip - block_lag
    } else {
        0
    }
}

/// The blocks to process next: `(last_processed, target]`, in strictly
/// ascending order with no gaps.
pub fn block_range(last_processed: u64, tip: u64, block_lag: u8) -> (r: Vec<u64>)
    ensures
        target_block(tip, block_lag) <= last_processed ==> r@.len() == 0,
        target_block(tip, block_lag) > last_processed ==> r@.len() == target_block(tip, block_lag)
            - last_processed,
        forall|k: int| 0 <= k < r@.len() ==> r@[k] == last_processed + 1 + k,
{
    let target: u64 = if tip >= block_lag as u64 {
        tip - block_lag as u64
    } else {
        0
    };
    let mut out: Vec<u64> = Vec::new();
    if target <= last_processed {
        return out;
    }
    let mut b: u64 = last_processed;
    while b < target
        invariant
            last_processed <= b <= target,
            out@.len() == b - last_processed,
            forall|k: int| 0 <= k < out@.len() ==> out@[k] == last_processed + 1 + k,
        decreases target - b,
    {
        b += 1;
        out.push(b);
    }
    out
}

/// Whether the ingestor persists its cursor after this block: every tenth
/// block, and always at the target.
pub fn should_persist_block(block: u64, target: u64) -> (r: bool)
    ensures
        r <==> (block % 10 == 0 || block == target),
{
    block % 10 == 0 || block == target
}

/// The value of a `0x`-prefixed hex quantity; anything unparsable counts
/// as zero.
pub open spec fn parsed_tx_value(s: Seq<char>) -> nat {
    let t = if s.len() >= 2 && s[0] == '0' && s[1] == 'x' {
        s.subrange(2, s.len() as int)
    } else {
        s
    };
    if t.len() > 0 && all_hex_digits(t) && hex_val(t)
        < 0x1_0000_0000_0000_0000_0000_0000_0000_0000_0000_0000_0000_0000_0000_0000_0000_0000 {
        hex_val(t)
    } else {
        0
    }
}

/// Parses a `0x`-prefixed transfer value; an unparsable one is zero.
pub fn parse_tx_value(value_hex: &str) -> (r: Amount)
    ensures
        r.as_nat() == parsed_tx_value(value_hex@),
{
    let len = value_hex.unicode_len();
    let ghost spec_t = if value_hex@.len() >= 2 && value_hex@[0] == '0' && value_hex@[1] == 'x' {
        value_hex@.subrange(2, value_hex@.len() as int)
    } else {
        value_hex@
    };
    let digits: &str = if len >= 2 && value_hex.get_char(0) == '0' && value_hex.get_char(1)
        == 'x' {
        value_hex.substring_char(2, len)
    } else {
        proof {
            assert(value_hex@.subrange(0, value_hex@.len() as int) =~= value_hex@);
        }
        value_hex.substring_char(0, len)
    };
    proof {
        assert(digits@ == spec_t);
    }
    match Amount::from_hex_str(digits) {
        Some(a) => {
            proof {
                assert(parsed_tx_value(value_hex@) == hex_val(spec_t));
            }
            a
        },
        None => {
            proof {
                assert(parsed_tx_value(value_hex@) == 0);
            }
            Amount::zero()
        },
    }
}

/// The watch-set holds the canonical form of `addr`.
pub open spec fn watch_has(watch: Seq<String>, addr: Seq<char>) -> bool {
    exists|j: int| 0 <= j < watch.len() && (#[trigger] watch[j]@) == normalized(addr)
}

/// Scans the watch-set for the canonical form of `addr`.
pub fn watch_contains_addr(watch: &Vec<String>, addr: &str) -> (r: bool)
    ensures
        r == watch_has(watch@, addr@),
{
    let la = to_lowercase_ascii(addr);
    let mut j: usize = 0;
    while j < watch.len()
        invariant
            j <= watch@.len(),
            la@ == normalized(addr@),
            forall|b: int| 0 <= b < j ==> (#[trigger] watch@[b]@) != normalized(addr@),
        decreases watch@.len() - j,
    {
        if str_eq(watch[j].as_str(), la.as_str()) {
            return true;
        }
        j += 1;
    }
    false
}

/// A transaction the native scan reports: paid to a watched address, with
/// a positive value.
pub open spec fn native_match(tx: TxRecord, watch: Seq<String>) -> bool {
    watch_has(watch, tx.to@) && parsed_tx_value(tx.value_hex@) > 0
}

/// The positions of the matching transactions, in block order.
pub open spec fn native_idx(txs: Seq<TxRecord>, watch: Seq<String>) -> Seq<int>
    decreases txs.len(),
{
    if txs.len() == 0 {
        Seq::empty()
    } else {
        native_idx(txs.drop_last(), watch) + if native_match(txs.last(), watch) {
            seq![txs.len() - 1]
        } else {
            Seq::empty()
        }
    }
}

/// One payment event for each transaction in the block whose `to` is
/// watched and whose value is positive, in block order.
pub fn native_transfer_events(
    network: &str,
    native_symbol: &str,
    decimals: u8,
    block_num: u64,
    txs: &Vec<TxRecord>,
    watch: &Vec<String>,
) -> (r: Vec<PaymentEvent>)
    ensures
        r@.len() == native_idx(txs@, watch@).len(),
        forall|k: int|
            0 <= k < r@.len() ==> {
                let t = txs@[native_idx(txs@, watch@)[k]];
                &&& (#[trigger] r@[k]).network@ == network@
                &&& r@[k].tx_hash == t.hash
                &&& r@[k].from == t.from
                &&& r@[k].to == t.to
                &&& r@[k].token@ == native_symbol@
                &&& r@[k].amount_raw.as_nat() == parsed_tx_value(t.value_hex@)
                &&& r@[k].amount@ == format_units_spec(
                    parsed_tx_value(t.value_hex@),
                    decimals as nat,
                )
                &&& r@[k].decimals == decimals
                &&& r@[k].block_number == block_num
                &&& r@[k].log_index is None
            },
{
    let mut out: Vec<PaymentEvent> = Vec::new();
    let mut i: usize = 0;
    proof {
        assert(txs@.subrange(0, 0) =~= Seq::<TxRecord>::empty());
    }
    while i < txs.len()
        invariant
            i <= txs@.len(),
            out@.len() == native_idx(txs@.subrange(0, i as int), watch@).len(),
            forall|k: int|
                0 <= k < out@.len() ==> {
                    let t = txs@[native_idx(txs@.subrange(0, i as int), watch@)[k]];
                    &&& (#[trigger] out@[k]).network@ == network@
                    &&& out@[k].tx_hash == t.hash
                    &&& out@[k].from == t.from
                    &&& out@[k].to == t.to
                    &&& out@[k].token@ == native_symbol@
                    &&& out@[k].amount_raw.as_nat() == parsed_tx_value(t.value_hex@)
                    &&& out@[k].amount@ == format_units_spec(
                        parsed_tx_value(t.value_hex@),
                        decimals as nat,
                    )
                    &&& out@[k].decimals == decimals
                    &&& out@[k].block_number == block_num
                    &&& out@[k].log_index is None
                },
        decreases txs@.len() - i,
    {
        let ghost pre = txs@.subrange(0, i as int);
        proof {
            assert(txs@.subrange(0, i + 1).drop_last() =~= pre);
            assert(txs@.subrange(0, i + 1).last() == txs@[i as int]);
            lemma_native_idx_in_range(pre, watch@);
        }
        let value = parse_tx_value(txs[i].value_hex.as_str());
        if watch_contains_addr(watch, txs[i].to.as_str()) && !value.is_zero() {
            let amount_human = value.format_units(decimals);
            let event = PaymentEvent {
                network: network.to_owned(),
                tx_hash: txs[i].hash.clone(),
                from: txs[i].from.clone(),
                to: txs[i].to.clone(),
                token: native_symbol.to_owned(),
                amount: amount_human,
                amount_raw: value,
                decimals,
                block_number: block_num,
                log_index: None,
            };
            out.push(event);
            proof {
                assert(native_idx(txs@.subrange(0, i + 1), watch@) == native_idx(pre, watch@).push(
                    i as int,
                ));
            }
        } else {
            proof {
                assert(!native_match(txs@[i as int], watch@));
                assert(native_idx(txs@.subrange(0, i + 1), watch@) == native_idx(pre, watch@));
            }
        }
        i += 1;
    }
    proof {
        assert(txs@.subrange(0, txs@.len() as int) =~= txs@);
    }
    out
}

/// Matching positions point into the sequence.
proof fn lemma_native_idx_in_range(txs: Seq<TxRecord>, watch: Seq<String>)
    ensures
        forall|k: int|
            0 <= k < native_idx(txs, watch).len() ==> 0 <= #[trigger] native_idx(txs, watch)[k]
                < txs.len(),
    decreases txs.len(),
{
    if txs.len() > 0 {
        let d = txs.drop_last();
        lemma_native_idx_in_range(d, watch);
        assert forall|k: int| 0 <= k < native_idx(txs, watch).len() implies 0
            <= #[trigger] native_idx(txs, watch)[k] < txs.len() by {
            if k < native_idx(d, watch).len() {
                assert(native_idx(txs, watch)[k] == native_idx(d, watch)[k]);
            } else {
                assert(native_idx(txs, watch)[k] == txs.len() - 1);
            }
        }
    }
}

/// `p` is a prefix of `s`.
pub open spec fn starts_with(s: Seq<char>, p: Seq<char>) -> bool {
    s.len() >= p.len() && s.subrange(0, p.len() as int) == p
}

/// Character-for-character prefix test.
pub fn str_starts_with(s: &str, p: &str) -> (r: bool)
    ensures
        r == starts_with(s@, p@),
{
    let ls = s.unicode_len();
    let lp = p.unicode_len();
    if ls < lp {
        return false;
    }
    let mut i: usize = 0;
    while i < lp
        invariant
            lp <= ls,
            ls == s@.len(),
            lp == p@.len(),
            i <= lp,
            forall|j: int| 0 <= j < i ==> s@[j] == p@[j],
        decreases lp - i,
    {
        if s.get_char(i) != p.get_char(i) {
            proof {
                assert(s@.subrange(0, p@.len() as int)[i as int] != p@[i as int]);
            }
            return false;
        }
        i += 1;
    }
    proof {
        assert(s@.subrange(0, p@.len() as int) =~= p@);
    }
    true
}

/// A list of contract addresses holds `addr`, compared in canonical form.
pub open spec fn contracts_have(contracts: Seq<String>, addr: Seq<char>) -> bool {
    exists|j: int|
        0 <= j < contracts.len() && normalized(#[trigger] contracts[j]@) == normalized(addr)
}

fn contracts_contain(contracts: &Vec<String>, addr: &str) -> (r: bool)
    ensures
        r == contracts_have(contracts@, addr@),
{
    let la = to_lowercase_ascii(addr);
    let mut j: usize = 0;
    while j < contracts.len()
        invariant
            j <= contracts@.len(),
            la@ == normalized(addr@),
            forall|b: int| 0 <= b < j ==> normalized(#[trigger] contracts@[b]@) != normalized(addr@),
        decreases contracts@.len() - j,
    {
        let lc = to_lowercase_ascii(contracts[j].as_str());
        if str_eq(lc.as_str(), la.as_str()) {
            return true;
        }
        j += 1;
    }
    false
}

/// A call of `transfer` or `transferFrom` on a known token contract.
pub open spec fn suspicious_tx(tx: TxRecord, contracts: Seq<String>) -> bool {
    contracts_have(contracts, tx.to@) && (starts_with(tx.input@, "0xa9059cbb"@) || starts_with(
        tx.input@,
        "0x23b872dd"@,
    ))
}

/// True when the block holds a transaction that should have produced a
/// Transfer log: a call of `transfer` or `transferFrom` on a known token
/// contract. An empty log reply for such a block is retried.
pub fn suspicious_block(txs: &Vec<TxRecord>, token_contracts: &Vec<String>) -> (r: bool)
    ensures
        r <==> (exists|i: int|
            0 <= i < txs@.len() && suspicious_tx(#[trigger] txs@[i], token_contracts@)),
{
    let mut i: usize = 0;
    while i < txs.len()
        invariant
            i <= txs@.len(),
            forall|j: int| 0 <= j < i ==> !suspicious_tx(#[trigger] txs@[j], token_contracts@),
        decreases txs@.len() - i,
    {
        if contracts_contain(token_contracts, txs[i].to.as_str()) && (str_starts_with(
            txs[i].input.as_str(),
            "0xa9059cbb",
        ) || str_starts_with(txs[i].input.as_str(), "0x23b872dd")) {
            return true;
        }
        i += 1;
    }
    false
}

/// The hard cap on retries of an empty log reply for a suspicious block,
/// one second apart.
pub fn should_retry_logs(suspicious: bool, attempt: u64) -> (r: bool)
    ensures
        r <==> (suspicious && attempt < 15),
{
    suspicious && attempt < 15
}

/// The address packed in the low twenty bytes of a 32-byte log topic, in
/// canonical form.
pub open spec fn addr_of_topic(t: Seq<char>) -> Seq<char> {
    seq!['0', 'x'] + normalized(t.subrange(26, 66))
}

/// Extracts the address from a 32-byte topic word.
fn topic_address(t: &str) -> (r: String)
    requires
        t@.len() == 66,
    ensures
        r@ == addr_of_topic(t@),
{
    let len = t.unicode_len();
    let tail = t.substring_char(26, len);
    let low = to_lowercase_ascii(tail);
    let mut s = String::from_str("0x");
    s.append(low.as_str());
    proof {
        reveal_strlit("0x");
        assert(s@ =~= addr_of_topic(t@));
    }
    s
}

/// The chain's token at contract `addr`, matched in canonical form.
pub open spec fn token_for(tokens: Seq<TokenConfig>, addr: Seq<char>) -> bool {
    exists|j: int|
        0 <= j < tokens.len() && normalized(#[trigger] tokens[j].contract@) == normalized(addr)
}

/// The position of the first token whose contract matches `addr`.
pub open spec fn token_for_index(tokens: Seq<TokenConfig>, addr: Seq<char>) -> int
    decreases tokens.len(),
{
    if tokens.len() == 0 {
        0
    } else if normalized(tokens[0].contract@) == normalized(addr) {
        0
    } else {
        1 + token_for_index(tokens.drop_first(), addr)
    }
}

/// `token_for_index` is the scan's first hit.
proof fn lemma_token_first_index(tokens: Seq<TokenConfig>, addr: Seq<char>, j: int)
    requires
        0 <= j < tokens.len(),
        normalized(tokens[j].contract@) == normalized(addr),
        forall|b: int|
            0 <= b < j ==> normalized(#[trigger] tokens[b].contract@) != normalized(addr),
    ensures
        token_for_index(tokens, addr) == j,
    decreases j,
{
    if j == 0 {
    } else {
        let d = tokens.drop_first();
        assert forall|b: int| 0 <= b < j - 1 implies normalized(#[trigger] d[b].contract@)
            != normalized(addr) by {
            assert(d[b] == tokens[b + 1]);
        }
        assert(d[j - 1] == tokens[j]);
        lemma_token_first_index(d, addr, j - 1);
    }
}

/// A log the token scan turns into an event: a well-formed Transfer log of
/// a known token contract, paying a watched address.
pub open spec fn log_match(log: LogRecord, watch: Seq<String>, tokens: Seq<TokenConfig>) -> bool {
    &&& token_for(tokens, log.address@)
    &&& log.topics@.len() == 3
    &&& normalized(log.topics@[0]@)
        == "0xddf252ad1be2c89b69c2b068fc378daa952ba7f163c4a11628f55a4df523b3ef"@
    &&& log.topics@[1]@.len() == 66
    &&& log.topics@[2]@.len() == 66
    &&& watch_has(watch, addr_of_topic(log.topics@[2]@))
}

/// The positions of the matching logs, in log order.
pub open spec fn token_log_idx(
    logs: Seq<LogRecord>,
    watch: Seq<String>,
    tokens: Seq<TokenConfig>,
) -> Seq<int>
    decreases logs.len(),
{
    if logs.len() == 0 {
        Seq::empty()
    } else {
        token_log_idx(logs.drop_last(), watch, tokens) + if log_match(logs.last(), watch, tokens) {
            seq![logs.len() - 1]
        } else {
            Seq::empty()
        }
    }
}

/// One payment event for each well-formed Transfer log of a known token
/// whose receiver is watched, in log order.
pub fn token_transfer_events(
    network: &str,
    logs: &Vec<LogRecord>,
    watch: &Vec<String>,
    tokens: &Vec<TokenConfig>,
) -> (r: Vec<PaymentEvent>)
    ensures
        r@.len() == token_log_idx(logs@, watch@, tokens@).len(),
        forall|k: int|
            0 <= k < r@.len() ==> {
                let lg = logs@[token_log_idx(logs@, watch@, tokens@)[k]];
                let tc = tokens@[token_for_index(tokens@, lg.address@)];
                &&& (#[trigger] r@[k]).network@ == network@
                &&& r@[k].tx_hash == lg.tx_hash
                &&& r@[k].from@ == addr_of_topic(lg.topics@[1]@)
                &&& r@[k].to@ == addr_of_topic(lg.topics@[2]@)
                &&& r@[k].token == tc.symbol
                &&& r@[k].amount_raw.as_nat() == parsed_tx_value(lg.data@)
                &&& r@[k].amount@ == format_units_spec(
                    parsed_tx_value(lg.data@),
                    tc.decimals as nat,
                )
                &&& r@[k].decimals == tc.decimals
                &&& r@[k].block_number == lg.block_number
                &&& r@[k].log_index == lg.log_index
            },
{
    let mut out: Vec<PaymentEvent> = Vec::new();
    let mut i: usize = 0;
    proof {
        assert(logs@.subrange(0, 0) =~= Seq::<LogRecord>::empty());
    }
    while i < logs.len()
        invariant
            i <= logs@.len(),
            out@.len() == token_log_idx(logs@.subrange(0, i as int), watch@, tokens@).len(),
            forall|k: int|
                0 <= k < out@.len() ==> {
                    let lg = logs@[token_log_idx(logs@.subrange(0, i as int), watch@, tokens@)[k]];
                    let tc = tokens@[token_for_index(tokens@, lg.address@)];
                    &&& (#[trigger] out@[k]).network@ == network@
                    &&& out@[k].tx_hash == lg.tx_hash
                    &&& out@[k].from@ == addr_of_topic(lg.topics@[1]@)
                    &&& out@[k].to@ == addr_of_topic(lg.topics@[2]@)
                    &&& out@[k].token == tc.symbol
                    &&& out@[k].amount_raw.as_nat() == parsed_tx_value(lg.data@)
                    &&& out@[k].amount@ == format_units_spec(
                        parsed_tx_value(lg.data@),
                        tc.decimals as nat,
                    )
                    &&& out@[k].decimals == tc.decimals
                    &&& out@[k].block_number == lg.block_number
                    &&& out@[k].log_index == lg.log_index
                },
        decreases logs@.len() - i,
    {
        let ghost pre = logs@.subrange(0, i as int);
        proof {
            assert(logs@.subrange(0, i + 1).drop_last() =~= pre);
            assert(logs@.subrange(0, i + 1).last() == logs@[i as int]);
            lemma_token_log_idx_in_range(pre, watch@, tokens@);
        }
        let matched = match find_token_by_contract(tokens, logs[i].address.as_str()) {
            Some(ti) => {
                if logs[i].topics.len() == 3 {
                    let t0l = to_lowercase_ascii(logs[i].topics[0].as_str());
                    if str_eq(
                        t0l.as_str(),
                        "0xddf252ad1be2c89b69c2b068fc378daa952ba7f163c4a11628f55a4df523b3ef",
                    ) && logs[i].topics[1].as_str().unicode_len() == 66
                        && logs[i].topics[2].as_str().unicode_len() == 66 {
                        let to_addr = topic_address(logs[i].topics[2].as_str());
                        if watch_contains_addr(watch, to_addr.as_str()) {
                            Some(ti)
                        } else {
                            None
                        }
                    } else {
                        None
                    }
                } else {
                    None
                }
            },
            None => None,
        };
        proof {
            if matched is Some {
                assert(log_match(logs@[i as int], watch@, tokens@));
            } else {
                assert(!log_match(logs@[i as int], watch@, tokens@));
            }
        }
        match matched {
            Some(ti) => {
                let value = parse_tx_value(logs[i].data.as_str());
                let amount_human = value.format_units(tokens[ti].decimals);
                let event = PaymentEvent {
                    network: network.to_owned(),
                    tx_hash: logs[i].tx_hash.clone(),
                    from: topic_address(logs[i].topics[1].as_str()),
                    to: topic_address(logs[i].topics[2].as_str()),
                    token: tokens[ti].symbol.clone(),
                    amount: amount_human,
                    amount_raw: value,
                    decimals: tokens[ti].decimals,
                    block_number: logs[i].block_number,
                    log_index: logs[i].log_index,
                };
                out.push(event);
                proof {
                    assert(token_log_idx(logs@.subrange(0, i + 1), watch@, tokens@)
                        == token_log_idx(pre, watch@, tokens@).push(i as int));
                }
            },
            None => {
                proof {
                    assert(token_log_idx(logs@.subrange(0, i + 1), watch@, tokens@)
                        == token_log_idx(pre, watch@, tokens@));
                }
            },
        }
        i += 1;
    }
    proof {
        assert(logs@.subrange(0, logs@.len() as int) =~= logs@);
    }
    out
}

/// Index of the token at contract `addr`, matched in canonical form.
fn find_token_by_contract(tokens: &Vec<TokenConfig>, addr: &str) -> (r: Option<usize>)
    ensures
        match r {
            Some(j) => j < tokens@.len() && normalized(tokens@[j as int].contract@) == normalized(
                addr@,
            ) && token_for(tokens@, addr@) && token_for_index(tokens@, addr@) == j,
            None => !token_for(tokens@, addr@),
        },
{
    let la = to_lowercase_ascii(addr);
    let mut j: usize = 0;
    while j < tokens.len()
        invariant
            j <= tokens@.len(),
            la@ == normalized(addr@),
            forall|b: int|
                0 <= b < j ==> normalized(#[trigger] tokens@[b].contract@) != normalized(addr@),
        decreases tokens@.len() - j,
    {
        let lc = to_lowercase_ascii(tokens[j].contract.as_str());
        if str_eq(lc.as_str(), la.as_str()) {
            proof {
                assert(token_for(tokens@, addr@));
                lemma_token_first_index(tokens@, addr@, j as int);
            }
            return Some(j);
        }
        j += 1;
    }
    None
}

/// Matching positions point into the sequence.
proof fn lemma_token_log_idx_in_range(
    logs: Seq<LogRecord>,
    watch: Seq<String>,
    tokens: Seq<TokenConfig>,
)
    ensures
        forall|k: int|
            0 <= k < token_log_idx(logs, watch, tokens).len() ==> 0 <= #[trigger] token_log_idx(
                logs,
                watch,
                tokens,
            )[k] < logs.len(),
    decreases logs.len(),
{
    if logs.len() > 0 {
        let d = logs.drop_last();
        lemma_token_log_idx_in_range(d, watch, tokens);
        assert forall|k: int| 0 <= k < token_log_idx(logs, watch, tokens).len() implies 0
            <= #[trigger] token_log_idx(logs, watch, tokens)[k] < logs.len() by {
            if k < token_log_idx(d, watch, tokens).len() {
                assert(token_log_idx(logs, watch, tokens)[k] == token_log_idx(d, watch, tokens)[k]);
            } else {
                assert(token_log_idx(logs, watch, tokens)[k] == logs.len() - 1);
            }
        }
    }
}

/// No block is lost over a crash and restart: a block in `(last, target]`
/// that an interrupted pass did not get to (it lies past the persisted
/// cursor `mid`) is in the restarted pass's range. Re-processing the
/// blocks at or below `mid` again only duplicates events, which the
/// payment-attempt upsert absorbs.
pub proof fn lemma_restart_loses_no_block(last: u64, mid: u64, tip: u64, block_lag: u8, b: u64)
    requires
        last <= mid,
        last < b <= target_block(tip, block_lag),
        b > mid,
    ensures
        0 <= b - mid - 1 < target_block(tip, block_lag) - mid,
        mid + 1 + (b - mid - 1) == b,
{
}

/// All of one block's payment events, native transfers first and then the
/// token-transfer logs, each in block order.
pub fn block_events(
    network: &str,
    native_symbol: &str,
    native_decimals: u8,
    block_num: u64,
    txs: &Vec<TxRecord>,
    logs: &Vec<LogRecord>,
    watch: &Vec<String>,
    tokens: &Vec<TokenConfig>,
) -> (r: Vec<PaymentEvent>)
    ensures
        ({
            let n1 = native_idx(txs@, watch@).len() as int;
            &&& r@.len() == n1 + token_log_idx(logs@, watch@, tokens@).len()
            &&& forall|k: int|
                0 <= k < n1 ==> {
                    let t = txs@[native_idx(txs@, watch@)[k]];
                    &&& (#[trigger] r@[k]).network@ == network@
                    &&& r@[k].tx_hash == t.hash
                    &&& r@[k].from == t.from
                    &&& r@[k].to == t.to
                    &&& r@[k].token@ == native_symbol@
                    &&& r@[k].amount_raw.as_nat() == parsed_tx_value(t.value_hex@)
                    &&& r@[k].amount@ == format_units_spec(
                        parsed_tx_value(t.value_hex@),
                        native_decimals as nat,
                    )
                    &&& r@[k].decimals == native_decimals
                    &&& r@[k].block_number == block_num
                    &&& r@[k].log_index is None
                }
            &&& forall|k: int|
                n1 <= k < r@.len() ==> {
                    let lg = logs@[token_log_idx(logs@, watch@, tokens@)[k - n1]];
                    let tc = tokens@[token_for_index(tokens@, lg.address@)];
                    &&& (#[trigger] r@[k]).network@ == network@
                    &&& r@[k].tx_hash == lg.tx_hash
                    &&& r@[k].from@ == addr_of_topic(lg.topics@[1]@)
                    &&& r@[k].to@ == addr_of_topic(lg.topics@[2]@)
                    &&& r@[k].token == tc.symbol
                    &&& r@[k].amount_raw.as_nat() == parsed_tx_value(lg.data@)
                    &&& r@[k].amount@ == format_units_spec(
                        parsed_tx_value(lg.data@),
                        tc.decimals as nat,
                    )
                    &&& r@[k].decimals == tc.decimals
                    &&& r@[k].block_number == lg.block_number
                    &&& r@[k].log_index == lg.log_index
                }
        }),
{
    let mut out = native_transfer_events(
        network,
        native_symbol,
        native_decimals,
        block_num,
        txs,
        watch,
    );
    let mut from_logs = token_transfer_events(network, logs, watch, tokens);
    out.append(&mut from_logs);
    out
}

} // verus!
