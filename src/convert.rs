//! One decoder per reply shape: from the reply's JSON value to a typed value.
use crate::chain::{
    address_is_valid, block_hash_from_hex, exact_sats, hash_bytes, is_address_text,
    is_hash_text, is_hex, is_hex_text, sats_from_btc_text, txid_from_str,
};
use crate::error::DecodeError;
use crate::number::{decimal_shape, is_decimal_text};
use crate::json::{
    bool_field, entry_of, integer_field, is_set, rate_field, text_field, text_of, Json,
};
use vstd::prelude::*;

verus! {

/// The mempool capacity, in bytes, that the node must report; fee policy downstream
/// assumes this sizing.
pub const EXPECTED_MAX_MEMPOOL: u64 = 300_000_000;

/// Maps the value of a successful decode through `f`, keeping the error.
pub open spec fn map_ok<T, U>(r: Result<T, DecodeError>, f: spec_fn(T) -> U) -> Result<U, DecodeError> {
    match r {
        Ok(t) => Ok(f(t)),
        Err(e) => Err(e),
    }
}

pub open spec fn rate_model(o: Option<u32>) -> Option<int> {
    match o {
        Some(v) => Some(v as int),
        None => None,
    }
}

/// A transaction funded by the node's wallet.
pub struct FundedTx {
    /// Index of the change output; -1 when there is none.
    pub changepos: i64,
    pub hex: String,
}

pub open spec fn funded_tx_of(j: Json) -> Result<(int, Seq<char>), DecodeError> {
    match integer_field(j, "changepos"@, i64::MIN as int, i64::MAX as int) {
        Err(e) => Err(e),
        Ok(c) => match text_field(j, "hex"@) {
            Err(e) => Err(e),
            Ok(h) => if is_hex_text(h) {
                Ok((c, h))
            } else {
                Err(DecodeError::MalformedEncoding)
            },
        },
    }
}

impl FundedTx {
    pub open spec fn model(self) -> (int, Seq<char>) {
        (self.changepos as int, self.hex@)
    }

    /// Reads `changepos` (an integer) and `hex` (hex digits in pairs), both mandatory.
    pub fn from_json(j: &Json) -> (r: Result<FundedTx, DecodeError>)
        ensures
            map_ok(r, |t: FundedTx| t.model()) == funded_tx_of(*j),
    {
        let changepos = j.integer_field("changepos", i64::MIN as i128, i64::MAX as i128)?;
        let hex = j.text_field("hex")?;
        if !is_hex(hex.as_str()) {
            return Err(DecodeError::MalformedEncoding);
        }
        Ok(FundedTx { changepos: changepos as i64, hex })
    }
}

/// A raw transaction: the reply is the hex text itself.
pub struct RawTx(pub String);

pub open spec fn raw_tx_of(j: Json) -> Result<Seq<char>, DecodeError> {
    match text_of(j) {
        Err(e) => Err(e),
        Ok(h) => if h.len() > 0 && is_hex_text(h) {
            Ok(h)
        } else {
            Err(DecodeError::MalformedEncoding)
        },
    }
}

impl RawTx {
    /// Reads the reply as non-empty hex text.
    pub fn from_json(j: &Json) -> (r: Result<RawTx, DecodeError>)
        ensures
            map_ok(r, |t: RawTx| t.0@) == raw_tx_of(*j),
    {
        let hex = j.text()?;
        let empty = hex == String::new();
        proof {
            if hex@.len() == 0 {
                assert(hex@ =~= Seq::<char>::empty());
            }
        }
        if empty || !is_hex(hex.as_str()) {
            return Err(DecodeError::MalformedEncoding);
        }
        Ok(RawTx(hex))
    }
}

/// A transaction signed by the node's wallet, complete or not.
pub struct SignedTx {
    pub complete: bool,
    pub hex: String,
}

pub open spec fn signed_tx_of(j: Json) -> Result<(bool, Seq<char>), DecodeError> {
    match text_field(j, "hex"@) {
        Err(e) => Err(e),
        Ok(h) => if !is_hex_text(h) {
            Err(DecodeError::MalformedEncoding)
        } else {
            match bool_field(j, "complete"@) {
                Err(e) => Err(e),
                Ok(c) => Ok((c, h)),
            }
        },
    }
}

impl SignedTx {
    pub open spec fn model(self) -> (bool, Seq<char>) {
        (self.complete, self.hex@)
    }

    /// Reads `hex` (hex digits in pairs) and `complete` (a boolean), both mandatory.
    pub fn from_json(j: &Json) -> (r: Result<SignedTx, DecodeError>)
        ensures
            map_ok(r, |t: SignedTx| t.model()) == signed_tx_of(*j),
    {
        let hex = j.text_field("hex")?;
        if !is_hex(hex.as_str()) {
            return Err(DecodeError::MalformedEncoding);
        }
        let complete = j.bool_field("complete")?;
        Ok(SignedTx { complete, hex })
    }
}

/// A fresh address of the node's wallet: the reply is the address text itself.
pub struct NewAddress(pub String);

pub open spec fn new_address_of(j: Json) -> Result<Seq<char>, DecodeError> {
    match text_of(j) {
        Err(e) => Err(e),
        Ok(a) => if is_address_text(a) {
            Ok(a)
        } else {
            Err(DecodeError::MalformedEncoding)
        },
    }
}

impl NewAddress {
    /// Reads the reply as text that parses as an address.
    pub fn from_json(j: &Json) -> (r: Result<NewAddress, DecodeError>)
        ensures
            map_ok(r, |a: NewAddress| a.0@) == new_address_of(*j),
    {
        let text = j.text()?;
        if address_is_valid(text.as_str()) {
            Ok(NewAddress(text))
        } else {
            Err(DecodeError::MalformedEncoding)
        }
    }
}

/// A fee estimate in satoshis per kilo-weight-unit, and whether the node reported errors.
pub struct FeeResponse {
    pub feerate_sat_per_kw: Option<u32>,
    pub errored: bool,
}

/// The rate and the error flag are read independently: an absent or null `feerate`
/// gives no rate whatever `errors` holds.
pub open spec fn fee_response_of(j: Json) -> Result<(Option<int>, bool), DecodeError> {
    match rate_field(j, "feerate"@) {
        Err(e) => Err(e),
        Ok(rate) => Ok((rate, is_set(j, "errors"@))),
    }
}

impl FeeResponse {
    pub open spec fn model(self) -> (Option<int>, bool) {
        (rate_model(self.feerate_sat_per_kw), self.errored)
    }

    /// Reads `errors` (set when present and not null) and `feerate` (coins per
    /// kilo-virtual-byte, optional), converted to satoshis per kilo-weight-unit.
    pub fn from_json(j: &Json) -> (r: Result<FeeResponse, DecodeError>)
        ensures
            map_ok(r, |f: FeeResponse| f.model()) == fee_response_of(*j),
    {
        let errored = j.is_set("errors");
        let feerate_sat_per_kw = j.rate_field("feerate")?;
        Ok(FeeResponse { feerate_sat_per_kw, errored })
    }
}

/// The node's mempool minimum fee, shaped as a fee estimate.
pub struct MempoolMinFeeResponse {
    pub feerate_sat_per_kw: Option<u32>,
    pub errored: bool,
}

pub open spec fn mempool_min_fee_of(j: Json) -> Result<(Option<int>, bool), DecodeError> {
    match integer_field(j, "maxmempool"@, 0, u64::MAX as int) {
        Err(e) => Err(e),
        Ok(m) => if m != EXPECTED_MAX_MEMPOOL {
            Err(DecodeError::InvariantViolation)
        } else {
            match rate_field(j, "mempoolminfee"@) {
                Err(e) => Err(e),
                Ok(rate) => Ok((rate, is_set(j, "errors"@))),
            }
        },
    }
}

impl MempoolMinFeeResponse {
    pub open spec fn model(self) -> (Option<int>, bool) {
        (rate_model(self.feerate_sat_per_kw), self.errored)
    }

    /// Requires `maxmempool` to be the expected capacity, then reads `errors` and the
    /// optional `mempoolminfee` as a fee estimate reads `errors` and `feerate`.
    pub fn from_json(j: &Json) -> (r: Result<MempoolMinFeeResponse, DecodeError>)
        ensures
            map_ok(r, |f: MempoolMinFeeResponse| f.model()) == mempool_min_fee_of(*j),
    {
        let errored = j.is_set("errors");
        let max_mempool = j.integer_field("maxmempool", 0, u64::MAX as i128)?;
        if max_mempool != EXPECTED_MAX_MEMPOOL as i128 {
            return Err(DecodeError::InvariantViolation);
        }
        let feerate_sat_per_kw = j.rate_field("mempoolminfee")?;
        Ok(MempoolMinFeeResponse { feerate_sat_per_kw, errored })
    }
}


/// The node's chain tip: its height, its block hash, and the chain's name.
pub struct BlockchainInfo {
    pub latest_height: usize,
    pub latest_blockhash: [u8; 32],
    pub chain: String,
}

/// A hash field: text that names a 32-byte hash id.
pub open spec fn hash_field(j: Json, key: Seq<char>) -> Result<Seq<u8>, DecodeError> {
    match text_field(j, key) {
        Err(e) => Err(e),
        Ok(t) => if is_hash_text(t) {
            Ok(hash_bytes(t))
        } else {
            Err(DecodeError::MalformedEncoding)
        },
    }
}

pub open spec fn blockchain_info_of(j: Json) -> Result<(int, Seq<u8>, Seq<char>), DecodeError> {
    match integer_field(j, "blocks"@, 0, usize::MAX as int) {
        Err(e) => Err(e),
        Ok(height) => match hash_field(j, "bestblockhash"@) {
            Err(e) => Err(e),
            Ok(hash) => match text_field(j, "chain"@) {
                Err(e) => Err(e),
                Ok(chain) => Ok((height, hash, chain)),
            },
        },
    }
}

impl BlockchainInfo {
    pub open spec fn model(self) -> (int, Seq<u8>, Seq<char>) {
        (self.latest_height as int, self.latest_blockhash@, self.chain@)
    }

    /// Reads `blocks` (a height), `bestblockhash` (a block hash id) and `chain`.
    pub fn from_json(j: &Json) -> (r: Result<BlockchainInfo, DecodeError>)
        ensures
            map_ok(r, |b: BlockchainInfo| b.model()) == blockchain_info_of(*j),
    {
        let height = j.integer_field("blocks", 0, usize::MAX as i128)?;
        let hash_text = j.text_field("bestblockhash")?;
        let latest_blockhash = match block_hash_from_hex(hash_text.as_str()) {
            Some(h) => h,
            None => return Err(DecodeError::MalformedEncoding),
        };
        let chain = j.text_field("chain")?;
        Ok(BlockchainInfo { latest_height: height as usize, latest_blockhash, chain })
    }
}

/// An unspent output of the node's wallet.
pub struct ListUnspentUtxo {
    pub txid: [u8; 32],
    pub vout: u32,
    /// In satoshis.
    pub amount: u64,
    /// Text that parses as an address.
    pub address: String,
}

/// An amount field: a decimal number of whole coins, exact in satoshis.
pub open spec fn amount_field(j: Json, key: Seq<char>) -> Result<int, DecodeError> {
    match entry_of(j, key) {
        Err(e) => Err(e),
        Ok(Json::Number(t)) => if !is_decimal_text(t@) {
            Err(DecodeError::MalformedEncoding)
        } else {
            match exact_sats(t@) {
                Some(a) => Ok(a),
                None => Err(DecodeError::MalformedEncoding),
            }
        },
        Ok(_) => Err(DecodeError::TypeMismatch),
    }
}

/// What an element of an unspent-output list decodes to: txid, vout, amount and an
/// address text that parses as an address.
pub open spec fn utxo_of(j: Json) -> Result<(Seq<u8>, int, int, Seq<char>), DecodeError> {
    match hash_field(j, "txid"@) {
        Err(e) => Err(e),
        Ok(txid) => match integer_field(j, "vout"@, 0, u32::MAX as int) {
            Err(e) => Err(e),
            Ok(vout) => match amount_field(j, "amount"@) {
                Err(e) => Err(e),
                Ok(amount) => match text_field(j, "address"@) {
                    Err(e) => Err(e),
                    Ok(a) => if is_address_text(a) {
                        Ok((txid, vout, amount, a))
                    } else {
                        Err(DecodeError::MalformedEncoding)
                    },
                },
            },
        },
    }
}

impl ListUnspentUtxo {
    pub open spec fn model(self) -> (Seq<u8>, int, int, Seq<char>) {
        (self.txid@, self.vout as int, self.amount as int, self.address@)
    }

    /// Reads `txid` (a transaction hash id), `vout`, `amount` (whole coins, taken in
    /// satoshis only when exact) and `address`.
    pub fn from_json(j: &Json) -> (r: Result<ListUnspentUtxo, DecodeError>)
        ensures
            map_ok(r, |u: ListUnspentUtxo| u.model()) == utxo_of(*j),
    {
        let txid_text = j.text_field("txid")?;
        let txid = match txid_from_str(txid_text.as_str()) {
            Some(h) => h,
            None => return Err(DecodeError::MalformedEncoding),
        };
        let vout = j.integer_field("vout", 0, u32::MAX as i128)?;
        let amount = match j.entry("amount")? {
            Json::Number(t) => {
                if decimal_shape(t.as_str()).is_none() {
                    return Err(DecodeError::MalformedEncoding);
                }
                match sats_from_btc_text(t.as_str()) {
                    Some(a) => a,
                    None => return Err(DecodeError::MalformedEncoding),
                }
            },
            _ => return Err(DecodeError::TypeMismatch),
        };
        let address_text = j.text_field("address")?;
        if !address_is_valid(address_text.as_str()) {
            return Err(DecodeError::MalformedEncoding);
        }
        Ok(ListUnspentUtxo { txid, vout: vout as u32, amount, address: address_text })
    }
}

/// The wallet's unspent outputs, in the order the node listed them.
pub struct ListUnspentResponse(pub Vec<ListUnspentUtxo>);

/// The first element, at or after `i`, that fails to decode, with its error.
pub open spec fn first_failure(items: Seq<Json>, i: int) -> Option<DecodeError>
    decreases items.len() - i,
{
    if i < 0 || i >= items.len() {
        None
    } else {
        match utxo_of(items[i]) {
            Err(e) => Some(e),
            Ok(_) => first_failure(items, i + 1),
        }
    }
}

/// A list decodes when every element does, to the elements' values in order;
/// otherwise to the error of the first element that fails.
pub open spec fn list_unspent_of(j: Json) -> Result<Seq<(Seq<u8>, int, int, Seq<char>)>, DecodeError> {
    match j {
        Json::Array(items) => match first_failure(items@, 0) {
            Some(e) => Err(e),
            None => Ok(
                Seq::new(items@.len(), |i: int| utxo_of(items@[i])->Ok_0),
            ),
        },
        _ => Err(DecodeError::TypeMismatch),
    }
}

impl ListUnspentResponse {
    pub open spec fn model(self) -> Seq<(Seq<u8>, int, int, Seq<char>)> {
        Seq::new(self.0@.len(), |i: int| self.0@[i].model())
    }

    /// Reads the reply as a list and decodes each element; one failing element fails
    /// the whole list.
    pub fn from_json(j: &Json) -> (r: Result<ListUnspentResponse, DecodeError>)
        ensures
            map_ok(r, |l: ListUnspentResponse| l.model()) == list_unspent_of(*j),
    {
        let items = match j {
            Json::Array(items) => items,
            _ => return Err(DecodeError::TypeMismatch),
        };
        let mut utxos: Vec<ListUnspentUtxo> = Vec::new();
        let mut i: usize = 0;
        while i < items.len()
            invariant
                i <= items.len(),
                *j == Json::Array(*items),
                utxos@.len() == i,
                first_failure(items@, 0) == first_failure(items@, i as int),
                forall|k: int| 0 <= k < i ==> utxo_of(items@[k]) == Ok::<(Seq<u8>, int, int, Seq<char>), DecodeError>(#[trigger] utxos@[k].model()),
            decreases items.len() - i,
        {
            match ListUnspentUtxo::from_json(&items[i]) {
                Ok(u) => utxos.push(u),
                Err(e) => return Err(e),
            }
            i += 1;
        }
        proof {
            let r = ListUnspentResponse(utxos);
            assert(r.model() =~= Seq::new(items@.len(), |k: int| utxo_of(items@[k])->Ok_0));
        }
        Ok(ListUnspentResponse(utxos))
    }
}

} // verus!
