use vstd::prelude::*;
use ckb_types::prelude::Entity;

verus! {

/// The hash that the chain assigns to the data of a cell.
pub uninterp spec fn data_hash(data: Seq<u8>) -> Seq<u8>;

/// The hash that the chain assigns to a script in its serialized form.
pub uninterp spec fn script_hash(script: Seq<u8>) -> Seq<u8>;

/// The hash that the chain assigns to a transaction, taken over the
/// serialized part of it that the hash covers.
pub uninterp spec fn tx_hash(raw: Seq<u8>) -> Seq<u8>;

/// The capacity, in the chain's smallest unit, that a serialized cell output
/// with the data `data` occupies; `None` when the bytes are no cell output or
/// the amount does not fit the chain's capacity type.
pub uninterp spec fn occupied_capacity(output: Seq<u8>, data: Seq<u8>) -> Option<u64>;

/// Calls `ckb_types::packed::CellOutput::calc_data_hash`. Trusted: the
/// result is a function of the data alone, here named `data_hash`.
#[verifier::external_body]
pub(crate) fn calc_data_hash(data: &Vec<u8>) -> (hash: Vec<u8>)
    ensures
        hash@ == data_hash(data@),
{
    ckb_types::packed::CellOutput::calc_data_hash(data).as_slice().to_vec()
}

/// Wraps `script` with `ckb_types::packed::Script::new_unchecked`, which
/// looks at no byte, and calls `ckb_types::packed::Script::calc_script_hash`
/// on it. Trusted: the result is a function of those bytes alone, here
/// named `script_hash`; the call reads the bytes as a whole and never takes
/// them apart.
#[verifier::external_body]
pub(crate) fn calc_script_hash(script: &Vec<u8>) -> (hash: Vec<u8>)
    ensures
        hash@ == script_hash(script@),
{
    let entity = ckb_types::packed::Script::new_unchecked(ckb_types::bytes::Bytes::copy_from_slice(script));
    entity.calc_script_hash().as_slice().to_vec()
}

/// Wraps `raw` with `ckb_types::packed::RawTransaction::new_unchecked`,
/// which looks at no byte, and calls
/// `ckb_types::packed::RawTransaction::calc_tx_hash` on it. Trusted: the
/// result is a function of those bytes alone, here named `tx_hash`; the
/// call reads the bytes as a whole and never takes them apart.
#[verifier::external_body]
pub(crate) fn calc_tx_hash(raw: &Vec<u8>) -> (hash: Vec<u8>)
    ensures
        hash@ == tx_hash(raw@),
{
    let entity = ckb_types::packed::RawTransaction::new_unchecked(ckb_types::bytes::Bytes::copy_from_slice(raw));
    entity.calc_tx_hash().as_slice().to_vec()
}

/// Parses `output` with `ckb_types::packed::CellOutput::from_slice`, builds
/// the cell's description with
/// `ckb_types::core::cell::CellMetaBuilder::from_cell_output` and `build`,
/// and asks `ckb_types::core::cell::CellMeta::occupied_capacity` for the
/// capacity that the cell occupies together with `data`. Trusted: the
/// outcome is a function of the two byte strings alone, here named
/// `occupied_capacity`; it is `None` when the parse or the sum is refused.
#[verifier::external_body]
pub(crate) fn calc_occupied_capacity(output: &Vec<u8>, data: &Vec<u8>) -> (shannons: Option<u64>)
    ensures
        shannons == occupied_capacity(output@, data@),
{
    let cell = match ckb_types::packed::CellOutput::from_slice(output) {
        Ok(cell) => cell,
        Err(_) => return None,
    };
    let data = ckb_types::bytes::Bytes::copy_from_slice(data);
    let meta = ckb_types::core::cell::CellMetaBuilder::from_cell_output(cell, data).build();
    match meta.occupied_capacity() {
        Ok(capacity) => Some(capacity.as_u64()),
        Err(_) => None,
    }
}

} // verus!
