//! Properties that hold of the decoders for every reply.
use crate::chain::is_hex_text;
use crate::convert::{
    fee_response_of, funded_tx_of, list_unspent_of, map_ok, mempool_min_fee_of, utxo_of,
    EXPECTED_MAX_MEMPOOL,
};
use crate::error::DecodeError;
use crate::json::{field_of, integer_field, is_set, Json};
use crate::number::{integer_value, is_integer_text};
use vstd::prelude::*;

verus! {

/// A funded transaction without a change output (`changepos` written as -1) and with
/// hex text decodes, keeping both fields exactly.
pub proof fn funded_tx_without_change_decodes(j: Json, changepos: String, hex: String)
    requires
        j is Object,
        field_of(j, "changepos"@) == Some(Json::Number(changepos)),
        is_integer_text(changepos@),
        integer_value(changepos@) == -1,
        field_of(j, "hex"@) == Some(Json::Str(hex)),
        is_hex_text(hex@),
    ensures
        funded_tx_of(j) == Ok::<(int, Seq<char>), DecodeError>((-1, hex@)),
{
}

/// A fee estimate whose `errors` is set and which has no `feerate` decodes to an
/// errored estimate without a rate.
pub proof fn fee_errors_without_rate(j: Json)
    requires
        j is Object,
        field_of(j, "feerate"@) is None,
        is_set(j, "errors"@),
    ensures
        fee_response_of(j) == Ok::<(Option<int>, bool), DecodeError>((None, true)),
{
}

/// A mempool minimum fee decodes only when `maxmempool` is exactly the expected capacity.
pub proof fn mempool_capacity_is_checked(j: Json)
    ensures
        mempool_min_fee_of(j) is Ok ==> integer_field(j, "maxmempool"@, 0, u64::MAX as int)
            == Ok::<int, DecodeError>(EXPECTED_MAX_MEMPOOL as int),
{
}

/// One element that fails to decode fails the whole unspent-output list.
pub proof fn list_unspent_fails_with_any_element(items: Vec<Json>, i: int)
    requires
        0 <= i < items@.len(),
        utxo_of(items@[i]) is Err,
    ensures
        list_unspent_of(Json::Array(items)) is Err,
{
    lemma_first_failure_found(items@, 0, i);
}

proof fn lemma_first_failure_found(items: Seq<Json>, start: int, i: int)
    requires
        0 <= start <= i < items.len(),
        utxo_of(items[i]) is Err,
    ensures
        crate::convert::first_failure(items, start) is Some,
    decreases i - start,
{
    if start < i && utxo_of(items[start]) is Ok {
        lemma_first_failure_found(items, start + 1, i);
    }
}

/// Decoding depends on the reply alone: two results that both meet a decoder's contract
/// on the same reply succeed or fail together, with the same error or equal values.
pub proof fn decoding_is_deterministic<T, M>(
    decode_of: spec_fn(Json) -> Result<M, DecodeError>,
    model: spec_fn(T) -> M,
    j: Json,
    a: Result<T, DecodeError>,
    b: Result<T, DecodeError>,
)
    requires
        map_ok(a, model) == decode_of(j),
        map_ok(b, model) == decode_of(j),
    ensures
        a is Ok <==> b is Ok,
        a is Ok ==> model(a->Ok_0) == model(b->Ok_0),
        a is Err ==> a->Err_0 == b->Err_0,
{
}

} // verus!
