use rpc_convert::convert::{
    BlockchainInfo, FeeResponse, FundedTx, ListUnspentResponse, MempoolMinFeeResponse,
    NewAddress, RawTx, SignedTx,
};
use rpc_convert::error::DecodeError;
use rpc_convert::json::Json;

fn num(t: &str) -> Json {
    Json::Number(t.to_string())
}

fn text(t: &str) -> Json {
    Json::Str(t.to_string())
}

fn obj(entries: Vec<(&str, Json)>) -> Json {
    Json::Object(entries.into_iter().map(|(k, v)| (k.to_string(), v)).collect())
}

fn err_of<T>(r: Result<T, DecodeError>) -> DecodeError {
    match r {
        Ok(_) => panic!("decode was expected to fail"),
        Err(e) => e,
    }
}

const BLOCK_800000: &str = "00000000000000000002a7c4c1e48d76c5a37902165a270156b7a8d72728a054";
const GENESIS_TXID: &str = "4a5e1e4baab89f3a32518a88c31bc87f618f76673e2cc77ab2127b7afdeda33b";
const BECH32_ADDRESS: &str = "bc1qw508d6qejxtdg4y5r3zarvary0c5xw7kv8f3t4";
const BASE58_ADDRESS: &str = "1A1zP1eP5QGefi2DMPTfTL5SLmv7DivfNa";

#[test]
fn funded_tx_without_change_keeps_fields() {
    let j = obj(vec![("changepos", num("-1")), ("hex", text("0200abCD"))]);
    let t = FundedTx::from_json(&j).unwrap();
    assert_eq!(t.changepos, -1);
    assert_eq!(t.hex, "0200abCD");
}

#[test]
fn funded_tx_with_change_output() {
    let j = obj(vec![("hex", text("00")), ("changepos", num("3"))]);
    let t = FundedTx::from_json(&j).unwrap();
    assert_eq!(t.changepos, 3);
    assert_eq!(t.hex, "00");
}

#[test]
fn funded_tx_errors() {
    let missing = obj(vec![("changepos", num("-1"))]);
    assert_eq!(err_of(FundedTx::from_json(&missing)), DecodeError::MissingField);
    let fractional = obj(vec![("changepos", num("1.5")), ("hex", text("00"))]);
    assert_eq!(err_of(FundedTx::from_json(&fractional)), DecodeError::TypeMismatch);
    let as_text = obj(vec![("changepos", text("1")), ("hex", text("00"))]);
    assert_eq!(err_of(FundedTx::from_json(&as_text)), DecodeError::TypeMismatch);
    let bad_hex = obj(vec![("changepos", num("0")), ("hex", text("0g"))]);
    assert_eq!(err_of(FundedTx::from_json(&bad_hex)), DecodeError::MalformedEncoding);
    let odd_hex = obj(vec![("changepos", num("0")), ("hex", text("abc"))]);
    assert_eq!(err_of(FundedTx::from_json(&odd_hex)), DecodeError::MalformedEncoding);
    let huge = obj(vec![("changepos", num("9223372036854775808")), ("hex", text("00"))]);
    assert_eq!(err_of(FundedTx::from_json(&huge)), DecodeError::OutOfRange);
    assert_eq!(err_of(FundedTx::from_json(&text("00"))), DecodeError::TypeMismatch);
}

#[test]
fn funded_tx_extreme_positions() {
    let low = obj(vec![("changepos", num("-9223372036854775808")), ("hex", text(""))]);
    assert_eq!(FundedTx::from_json(&low).unwrap().changepos, i64::MIN);
}

#[test]
fn raw_tx_is_the_whole_reply() {
    assert_eq!(RawTx::from_json(&text("deadBEEF")).unwrap().0, "deadBEEF");
    assert_eq!(err_of(RawTx::from_json(&num("12"))), DecodeError::TypeMismatch);
    assert_eq!(err_of(RawTx::from_json(&text(""))), DecodeError::MalformedEncoding);
    assert_eq!(err_of(RawTx::from_json(&text("xyz0"))), DecodeError::MalformedEncoding);
}

#[test]
fn signed_tx_complete_and_incomplete() {
    let done = obj(vec![("hex", text("0100")), ("complete", Json::Bool(true))]);
    let t = SignedTx::from_json(&done).unwrap();
    assert!(t.complete);
    assert_eq!(t.hex, "0100");
    let partial = obj(vec![("hex", text("01")), ("complete", Json::Bool(false))]);
    assert!(!SignedTx::from_json(&partial).unwrap().complete);
    let no_flag = obj(vec![("hex", text("01"))]);
    assert_eq!(err_of(SignedTx::from_json(&no_flag)), DecodeError::MissingField);
    let flag_text = obj(vec![("hex", text("01")), ("complete", text("true"))]);
    assert_eq!(err_of(SignedTx::from_json(&flag_text)), DecodeError::TypeMismatch);
}

#[test]
fn new_address_must_parse() {
    assert_eq!(NewAddress::from_json(&text(BECH32_ADDRESS)).unwrap().0, BECH32_ADDRESS);
    assert_eq!(NewAddress::from_json(&text(BASE58_ADDRESS)).unwrap().0, BASE58_ADDRESS);
    assert_eq!(
        err_of(NewAddress::from_json(&text("not an address"))),
        DecodeError::MalformedEncoding
    );
    assert_eq!(err_of(NewAddress::from_json(&Json::Null)), DecodeError::TypeMismatch);
}

#[test]
fn fee_rate_converts_to_sat_per_kw() {
    let j = obj(vec![("feerate", num("0.00001"))]);
    let f = FeeResponse::from_json(&j).unwrap();
    assert_eq!(f.feerate_sat_per_kw, Some(250));
    assert!(!f.errored);
    let j = obj(vec![("feerate", num("0.00001000"))]);
    assert_eq!(FeeResponse::from_json(&j).unwrap().feerate_sat_per_kw, Some(250));
    let j = obj(vec![("feerate", num("0.0002"))]);
    assert_eq!(FeeResponse::from_json(&j).unwrap().feerate_sat_per_kw, Some(5000));
    let j = obj(vec![("feerate", num("1"))]);
    assert_eq!(FeeResponse::from_json(&j).unwrap().feerate_sat_per_kw, Some(25_000_000));
}

#[test]
fn fee_rate_rounds_half_up() {
    let rate = |t: &str| FeeResponse::from_json(&obj(vec![("feerate", num(t))])).unwrap();
    assert_eq!(rate("0.00000001").feerate_sat_per_kw, Some(0));
    assert_eq!(rate("0.00000002").feerate_sat_per_kw, Some(1));
    assert_eq!(rate("0.00000006").feerate_sat_per_kw, Some(2));
    assert_eq!(rate("0.000000059999").feerate_sat_per_kw, Some(1));
    assert_eq!(rate("0").feerate_sat_per_kw, Some(0));
    assert_eq!(rate("0.30000000000000004").feerate_sat_per_kw, Some(7_500_000));
}

#[test]
fn fee_rate_range_edges() {
    let rate = |t: &str| FeeResponse::from_json(&obj(vec![("feerate", num(t))]));
    assert_eq!(rate("171.7986918").unwrap().feerate_sat_per_kw, Some(u32::MAX));
    assert_eq!(err_of(rate("171.79869182")), DecodeError::OutOfRange);
    assert_eq!(err_of(rate("42949.67295")), DecodeError::OutOfRange);
    assert_eq!(err_of(rate("123456789012345678901234567890")), DecodeError::OutOfRange);
    assert_eq!(err_of(rate("-0.0001")), DecodeError::OutOfRange);
    assert_eq!(err_of(rate("-0.000000001")), DecodeError::OutOfRange);
    assert_eq!(err_of(rate("1e-5")), DecodeError::MalformedEncoding);
    assert_eq!(err_of(rate("1.")), DecodeError::MalformedEncoding);
}

#[test]
fn fee_errors_without_rate() {
    let j = obj(vec![("errors", Json::Array(vec![text("Insufficient data")]))]);
    let f = FeeResponse::from_json(&j).unwrap();
    assert!(f.errored);
    assert_eq!(f.feerate_sat_per_kw, None);
}

#[test]
fn fee_fields_are_independent() {
    let j = obj(vec![("errors", Json::Null), ("feerate", num("0.0001"))]);
    let f = FeeResponse::from_json(&j).unwrap();
    assert!(!f.errored);
    assert_eq!(f.feerate_sat_per_kw, Some(2500));
    let j = obj(vec![("errors", text("e")), ("feerate", num("0.0001"))]);
    let f = FeeResponse::from_json(&j).unwrap();
    assert!(f.errored);
    assert_eq!(f.feerate_sat_per_kw, Some(2500));
    let j = obj(vec![("feerate", Json::Null)]);
    let f = FeeResponse::from_json(&j).unwrap();
    assert!(!f.errored);
    assert_eq!(f.feerate_sat_per_kw, None);
    let j = obj(vec![("feerate", text("0.1"))]);
    assert_eq!(err_of(FeeResponse::from_json(&j)), DecodeError::TypeMismatch);
    assert_eq!(err_of(FeeResponse::from_json(&num("1"))), DecodeError::TypeMismatch);
}

#[test]
fn mempool_min_fee_decodes_at_expected_capacity() {
    let j = obj(vec![("maxmempool", num("300000000")), ("mempoolminfee", num("0.00001"))]);
    let f = MempoolMinFeeResponse::from_json(&j).unwrap();
    assert_eq!(f.feerate_sat_per_kw, Some(250));
    assert!(!f.errored);
}

#[test]
fn mempool_capacity_mismatch_fails() {
    let j = obj(vec![("maxmempool", num("300000001")), ("mempoolminfee", num("0.00001"))]);
    assert_eq!(err_of(MempoolMinFeeResponse::from_json(&j)), DecodeError::InvariantViolation);
    let j = obj(vec![("maxmempool", num("500000000"))]);
    assert_eq!(err_of(MempoolMinFeeResponse::from_json(&j)), DecodeError::InvariantViolation);
    let j = obj(vec![("mempoolminfee", num("0.00001"))]);
    assert_eq!(err_of(MempoolMinFeeResponse::from_json(&j)), DecodeError::MissingField);
    let j = obj(vec![("maxmempool", num("-1"))]);
    assert_eq!(err_of(MempoolMinFeeResponse::from_json(&j)), DecodeError::OutOfRange);
}

#[test]
fn chain_tip_decodes_height_and_hash() {
    let j = obj(vec![
        ("chain", text("main")),
        ("blocks", num("800000")),
        ("bestblockhash", text(BLOCK_800000)),
    ]);
    let info = BlockchainInfo::from_json(&j).unwrap();
    assert_eq!(info.latest_height, 800000);
    assert_eq!(info.chain, "main");
    assert_eq!(info.latest_blockhash[0], 0x54);
    assert_eq!(info.latest_blockhash[1], 0xa0);
    assert_eq!(info.latest_blockhash[2], 0x28);
    assert_eq!(info.latest_blockhash[22], 0x02);
    assert_eq!(info.latest_blockhash[31], 0x00);
}

#[test]
fn chain_tip_rejects_bad_hash() {
    let short = obj(vec![
        ("blocks", num("1")),
        ("bestblockhash", text(&BLOCK_800000[1..])),
        ("chain", text("main")),
    ]);
    assert_eq!(err_of(BlockchainInfo::from_json(&short)), DecodeError::MalformedEncoding);
    let bad_digit = obj(vec![
        ("blocks", num("1")),
        ("bestblockhash", text(&BLOCK_800000.replace('a', "z"))),
        ("chain", text("main")),
    ]);
    assert_eq!(err_of(BlockchainInfo::from_json(&bad_digit)), DecodeError::MalformedEncoding);
    let negative = obj(vec![
        ("blocks", num("-1")),
        ("bestblockhash", text(BLOCK_800000)),
        ("chain", text("main")),
    ]);
    assert_eq!(err_of(BlockchainInfo::from_json(&negative)), DecodeError::OutOfRange);
}

fn utxo(txid: &str, vout: &str, amount: Json, address: &str) -> Json {
    obj(vec![
        ("txid", text(txid)),
        ("vout", num(vout)),
        ("amount", amount),
        ("address", text(address)),
    ])
}

#[test]
fn unspent_list_keeps_order() {
    let j = Json::Array(vec![
        utxo(GENESIS_TXID, "1", num("0.5"), BECH32_ADDRESS),
        utxo(BLOCK_800000, "0", num("21"), BASE58_ADDRESS),
    ]);
    let list = ListUnspentResponse::from_json(&j).unwrap().0;
    assert_eq!(list.len(), 2);
    assert_eq!(list[0].txid[0], 0x3b);
    assert_eq!(list[0].txid[31], 0x4a);
    assert_eq!(list[0].vout, 1);
    assert_eq!(list[0].amount, 50_000_000);
    assert_eq!(list[0].address, BECH32_ADDRESS);
    assert_eq!(list[1].txid[0], 0x54);
    assert_eq!(list[1].vout, 0);
    assert_eq!(list[1].amount, 2_100_000_000);
    assert_eq!(list[1].address, BASE58_ADDRESS);
}

#[test]
fn unspent_list_fails_on_one_bad_amount() {
    let j = Json::Array(vec![
        utxo(GENESIS_TXID, "1", num("0.5"), BECH32_ADDRESS),
        utxo(GENESIS_TXID, "2", text("lots"), BECH32_ADDRESS),
    ]);
    assert_eq!(err_of(ListUnspentResponse::from_json(&j)), DecodeError::TypeMismatch);
    let j = Json::Array(vec![utxo(GENESIS_TXID, "1", num("0.000000001"), BECH32_ADDRESS)]);
    assert_eq!(err_of(ListUnspentResponse::from_json(&j)), DecodeError::MalformedEncoding);
    let j = Json::Array(vec![utxo(GENESIS_TXID, "1", num("-0.1"), BECH32_ADDRESS)]);
    assert_eq!(err_of(ListUnspentResponse::from_json(&j)), DecodeError::MalformedEncoding);
}

#[test]
fn unspent_list_edges() {
    assert_eq!(ListUnspentResponse::from_json(&Json::Array(vec![])).unwrap().0.len(), 0);
    assert_eq!(err_of(ListUnspentResponse::from_json(&obj(vec![]))), DecodeError::TypeMismatch);
    let j = Json::Array(vec![utxo(GENESIS_TXID, "4294967296", num("1"), BECH32_ADDRESS)]);
    assert_eq!(err_of(ListUnspentResponse::from_json(&j)), DecodeError::OutOfRange);
    let j = Json::Array(vec![utxo(GENESIS_TXID, "0", num("1"), "bc1qnotvalid")]);
    assert_eq!(err_of(ListUnspentResponse::from_json(&j)), DecodeError::MalformedEncoding);
    let j = Json::Array(vec![utxo("00", "0", num("1"), BECH32_ADDRESS)]);
    assert_eq!(err_of(ListUnspentResponse::from_json(&j)), DecodeError::MalformedEncoding);
}

#[test]
fn decoding_twice_gives_equal_results() {
    let j = obj(vec![
        ("blocks", num("800000")),
        ("bestblockhash", text(BLOCK_800000)),
        ("chain", text("main")),
    ]);
    let a = BlockchainInfo::from_json(&j).unwrap();
    let b = BlockchainInfo::from_json(&j).unwrap();
    assert_eq!(a.latest_height, b.latest_height);
    assert_eq!(a.latest_blockhash, b.latest_blockhash);
    assert_eq!(a.chain, b.chain);
    let f = obj(vec![("feerate", num("0.00012345")), ("errors", Json::Null)]);
    let x = FeeResponse::from_json(&f).unwrap();
    let y = FeeResponse::from_json(&f).unwrap();
    assert_eq!(x.feerate_sat_per_kw, y.feerate_sat_per_kw);
    assert_eq!(x.errored, y.errored);
    assert_eq!(x.feerate_sat_per_kw, Some(3086));
}

#[test]
fn negative_zero_rate_is_zero() {
    let rate = |t: &str| FeeResponse::from_json(&obj(vec![("feerate", num(t))])).unwrap();
    assert_eq!(rate("-0").feerate_sat_per_kw, Some(0));
    assert_eq!(rate("-0.000").feerate_sat_per_kw, Some(0));
    let j = obj(vec![("maxmempool", num("300000000")), ("mempoolminfee", num("-0"))]);
    assert_eq!(MempoolMinFeeResponse::from_json(&j).unwrap().feerate_sat_per_kw, Some(0));
}

#[test]
fn amount_must_be_exact_satoshis() {
    let amount = |a: Json| {
        ListUnspentResponse::from_json(&Json::Array(vec![utxo(GENESIS_TXID, "0", a, BECH32_ADDRESS)]))
    };
    assert_eq!(amount(num("0.00000001")).unwrap().0[0].amount, 1);
    assert_eq!(amount(num("0.12345678")).unwrap().0[0].amount, 12_345_678);
    assert_eq!(err_of(amount(num("0.100000000"))), DecodeError::MalformedEncoding);
    assert_eq!(err_of(amount(num("-0"))), DecodeError::MalformedEncoding);
    assert_eq!(err_of(amount(num("92233720368.54775808"))), DecodeError::MalformedEncoding);
    assert_eq!(amount(num("92233720368.54775807")).unwrap().0[0].amount, i64::MAX as u64);
    let long = format!("{}1", "0".repeat(50));
    assert_eq!(err_of(amount(num(&long))), DecodeError::MalformedEncoding);
    assert_eq!(err_of(amount(num("1e-8"))), DecodeError::MalformedEncoding);
}

#[test]
fn unspent_decoded_twice_is_equal() {
    let j = Json::Array(vec![utxo(GENESIS_TXID, "7", num("0.25"), BASE58_ADDRESS)]);
    let a = ListUnspentResponse::from_json(&j).unwrap().0;
    let b = ListUnspentResponse::from_json(&j).unwrap().0;
    assert_eq!(a[0].txid, b[0].txid);
    assert_eq!(a[0].vout, b[0].vout);
    assert_eq!(a[0].amount, b[0].amount);
    assert_eq!(a[0].address, b[0].address);
}
