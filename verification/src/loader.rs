use vstd::prelude::*;
use vstd::bytes::{spec_u64_to_le_bytes, u64_to_le_bytes};
use vstd::slice::{slice_subrange, slice_to_vec};
use crate::constants::{
    CELL_FIELD_CAPACITY, CELL_FIELD_DATA_HASH, CELL_FIELD_LOCK, CELL_FIELD_LOCK_HASH,
    CELL_FIELD_OCCUPIED_CAPACITY, CELL_FIELD_TYPE, CELL_FIELD_TYPE_HASH, HEADER_FIELD_EPOCH_LENGTH,
    HEADER_FIELD_EPOCH_NUMBER, HEADER_FIELD_EPOCH_START_BLOCK_NUMBER, INPUT_FIELD_OUT_POINT,
    INPUT_FIELD_SINCE, CKB_INDEX_OUT_OF_BOUND, CKB_ITEM_MISSING, SOURCE_CELL_DEP, SOURCE_GROUP_CELL_DEP,
    SOURCE_GROUP_HEADER_DEP, SOURCE_GROUP_INPUT, SOURCE_GROUP_OUTPUT, SOURCE_HEADER_DEP,
    SOURCE_INPUT, SOURCE_OUTPUT,
};
use crate::digest::{
    calc_data_hash, calc_occupied_capacity, calc_script_hash, calc_tx_hash, data_hash,
    occupied_capacity, script_hash, tx_hash,
};
use crate::transaction::{
    bytes_equal, CellInput, CellOutput, HeaderView, MockCell, MockTransaction, RunningSetup,
};

verus! {

/// Whether `source` is one of the eight sources that loaders know.
pub open spec fn valid_source(source: u64) -> bool {
    ||| source == SOURCE_INPUT
    ||| source == SOURCE_OUTPUT
    ||| source == SOURCE_CELL_DEP
    ||| source == SOURCE_HEADER_DEP
    ||| source == SOURCE_GROUP_INPUT
    ||| source == SOURCE_GROUP_OUTPUT
    ||| source == SOURCE_GROUP_CELL_DEP
    ||| source == SOURCE_GROUP_HEADER_DEP
}

/// Whether a lookup in `source` needs the running script.
pub open spec fn group_source(source: u64) -> bool {
    source == SOURCE_GROUP_INPUT || source == SOURCE_GROUP_OUTPUT
}

/// Whether a lookup in `source` can be made for `setup`: a group source
/// needs a running script to compare with.
pub open spec fn resolvable(tx: &MockTransaction, setup: &RunningSetup, source: u64) -> bool {
    group_source(source) ==> tx.current_script(setup) is Some
}

/// Whether `source` is one of the eight sources that loaders know.
pub fn is_valid_source(source: u64) -> (valid: bool)
    ensures
        valid == valid_source(source),
{
    source == SOURCE_INPUT || source == SOURCE_OUTPUT || source == SOURCE_CELL_DEP || source
        == SOURCE_HEADER_DEP || source == SOURCE_GROUP_INPUT || source == SOURCE_GROUP_OUTPUT
        || source == SOURCE_GROUP_CELL_DEP || source == SOURCE_GROUP_HEADER_DEP
}

/// Whether `setup` points at a running script.
pub fn has_current_script(tx: &MockTransaction, setup: &RunningSetup) -> (found: bool)
    ensures
        found == tx.current_script(setup) is Some,
{
    if setup.is_output {
        if setup.script_index < tx.outputs.len() as u64 {
            setup.is_lock_script || tx.outputs[setup.script_index as usize].type_.is_some()
        } else {
            false
        }
    } else {
        if setup.script_index < tx.mock_inputs.len() as u64 {
            setup.is_lock_script || tx.mock_inputs[setup.script_index as usize].output.type_.is_some()
        } else {
            false
        }
    }
}

/// Whether a lookup in `source` can be made for `setup`.
pub fn can_resolve(tx: &MockTransaction, setup: &RunningSetup, source: u64) -> (ok: bool)
    ensures
        ok == resolvable(tx, setup, source),
{
    if source == SOURCE_GROUP_INPUT || source == SOURCE_GROUP_OUTPUT {
        has_current_script(tx, setup)
    } else {
        true
    }
}

/// The cell and its data that `index` names in `source`.
pub open spec fn cell_at(tx: &MockTransaction, setup: &RunningSetup, index: u64, source: u64)
    -> Result<(CellOutput, Vec<u8>), i32> {
    if source == SOURCE_INPUT {
        if index < tx.mock_inputs@.len() {
            Ok((tx.mock_inputs@[index as int].output, tx.mock_inputs@[index as int].data))
        } else {
            Err(CKB_INDEX_OUT_OF_BOUND)
        }
    } else if source == SOURCE_OUTPUT {
        if index < tx.outputs@.len() {
            Ok((tx.outputs@[index as int], tx.outputs_data@[index as int]))
        } else {
            Err(CKB_INDEX_OUT_OF_BOUND)
        }
    } else if source == SOURCE_CELL_DEP {
        if index < tx.mock_cell_deps@.len() {
            Ok((tx.mock_cell_deps@[index as int].output, tx.mock_cell_deps@[index as int].data))
        } else {
            Err(CKB_INDEX_OUT_OF_BOUND)
        }
    } else if source == SOURCE_GROUP_INPUT {
        let group = tx.input_group(setup);
        if index < group.len() {
            Ok((tx.mock_inputs@[group[index as int]].output, tx.mock_inputs@[group[index as int]].data))
        } else {
            Err(CKB_INDEX_OUT_OF_BOUND)
        }
    } else if source == SOURCE_GROUP_OUTPUT {
        let group = tx.output_group(setup);
        if index < group.len() {
            Ok((tx.outputs@[group[index as int]], tx.outputs_data@[group[index as int]]))
        } else {
            Err(CKB_INDEX_OUT_OF_BOUND)
        }
    } else {
        Err(CKB_INDEX_OUT_OF_BOUND)
    }
}

/// The transaction input that `index` names in `source`.
pub open spec fn input_at(tx: &MockTransaction, setup: &RunningSetup, index: u64, source: u64)
    -> Result<CellInput, i32> {
    if source == SOURCE_INPUT {
        if index < tx.inputs@.len() {
            Ok(tx.inputs@[index as int])
        } else {
            Err(CKB_INDEX_OUT_OF_BOUND)
        }
    } else if source == SOURCE_GROUP_INPUT {
        let group = tx.input_group(setup);
        if index < group.len() && group[index as int] < tx.inputs@.len() {
            Ok(tx.inputs@[group[index as int]])
        } else {
            Err(CKB_INDEX_OUT_OF_BOUND)
        }
    } else {
        Err(CKB_INDEX_OUT_OF_BOUND)
    }
}

/// The position of the first header dependency with the hash `hash`, or
/// the number of header dependencies when none has it.
pub open spec fn header_position(tx: &MockTransaction, hash: Seq<u8>, from: nat) -> nat
    decreases tx.header_deps@.len() - from,
{
    if from >= tx.header_deps@.len() {
        tx.header_deps@.len()
    } else if tx.header_deps@[from as int].hash@ == hash {
        from
    } else {
        header_position(tx, hash, from + 1)
    }
}

/// The header dependency that a resolved cell was found in.
pub open spec fn header_of_cell(tx: &MockTransaction, cell: MockCell) -> Result<HeaderView, i32> {
    match cell.header {
        None => Err(CKB_INDEX_OUT_OF_BOUND),
        Some(hash) => {
            let at = header_position(tx, hash@, 0);
            if at < tx.header_deps@.len() {
                Ok(tx.header_deps@[at as int])
            } else {
                Err(CKB_ITEM_MISSING)
            }
        },
    }
}

/// The header that `index` names in `source`.
pub open spec fn header_at(tx: &MockTransaction, setup: &RunningSetup, index: u64, source: u64)
    -> Result<HeaderView, i32> {
    if source == SOURCE_INPUT {
        if index < tx.mock_inputs@.len() {
            header_of_cell(tx, tx.mock_inputs@[index as int])
        } else {
            Err(CKB_INDEX_OUT_OF_BOUND)
        }
    } else if source == SOURCE_CELL_DEP {
        if index < tx.mock_cell_deps@.len() {
            header_of_cell(tx, tx.mock_cell_deps@[index as int])
        } else {
            Err(CKB_INDEX_OUT_OF_BOUND)
        }
    } else if source == SOURCE_HEADER_DEP {
        if index < tx.header_deps@.len() {
            Ok(tx.header_deps@[index as int])
        } else {
            Err(CKB_INDEX_OUT_OF_BOUND)
        }
    } else if source == SOURCE_GROUP_INPUT {
        let group = tx.input_group(setup);
        if index < group.len() {
            header_of_cell(tx, tx.mock_inputs@[group[index as int]])
        } else {
            Err(CKB_INDEX_OUT_OF_BOUND)
        }
    } else {
        Err(CKB_INDEX_OUT_OF_BOUND)
    }
}

/// The witness that `index` names in `source`.
pub open spec fn witness_at(tx: &MockTransaction, setup: &RunningSetup, index: u64, source: u64)
    -> Option<Vec<u8>> {
    if source == SOURCE_INPUT || source == SOURCE_OUTPUT {
        if index < tx.witnesses@.len() {
            Some(tx.witnesses@[index as int])
        } else {
            None
        }
    } else if source == SOURCE_GROUP_INPUT {
        let group = tx.input_group(setup);
        if index < group.len() && group[index as int] < tx.witnesses@.len() {
            Some(tx.witnesses@[group[index as int]])
        } else {
            None
        }
    } else if source == SOURCE_GROUP_OUTPUT {
        let group = tx.output_group(setup);
        if index < group.len() && group[index as int] < tx.witnesses@.len() {
            Some(tx.witnesses@[group[index as int]])
        } else {
            None
        }
    } else {
        None
    }
}

/// The running script in its serialized form.
pub fn fetch_current_script<'a>(tx: &'a MockTransaction, setup: &RunningSetup) -> (script: &'a Vec<u8>)
    requires
        tx.current_script(setup) is Some,
    ensures
        script@ == tx.current_script(setup)->Some_0,
{
    let cell = if setup.is_output {
        assert(setup.script_index < tx.outputs.len());
        &tx.outputs[setup.script_index as usize]
    } else {
        assert(setup.script_index < tx.mock_inputs.len());
        &tx.mock_inputs[setup.script_index as usize].output
    };
    if setup.is_lock_script {
        &cell.lock
    } else {
        cell.type_.as_ref().unwrap()
    }
}

/// The positions of the resolved inputs and of the outputs that belong to
/// the group of the running script, each list in ascending order.
pub fn fetch_group_indices(tx: &MockTransaction, setup: &RunningSetup) -> (groups: (
    Vec<usize>,
    Vec<usize>,
))
    requires
        tx.current_script(setup) is Some,
    ensures
        groups.0@.len() == tx.input_group(setup).len(),
        forall|k: int| 0 <= k < groups.0@.len() ==> groups.0@[k] as int == tx.input_group(setup)[k],
        groups.1@.len() == tx.output_group(setup).len(),
        forall|k: int|
            0 <= k < groups.1@.len() ==> groups.1@[k] as int == tx.output_group(setup)[k],
{
    let mut input_indices: Vec<usize> = Vec::new();
    let mut output_indices: Vec<usize> = Vec::new();
    let current_script = fetch_current_script(tx, setup);
    let ghost script = current_script@;

    let mut i: usize = 0;
    while i < tx.mock_inputs.len()
        invariant
            i <= tx.mock_inputs.len(),
            script == current_script@,
            input_indices@.len() == tx.input_group_upto(setup, script, i as nat).len(),
            forall|k: int|
                0 <= k < input_indices@.len() ==> input_indices@[k] as int
                    == tx.input_group_upto(setup, script, i as nat)[k],
        decreases tx.mock_inputs.len() - i,
    {
        let cell = &tx.mock_inputs[i].output;
        let member = if setup.is_lock_script {
            bytes_equal(&cell.lock, current_script)
        } else {
            match &cell.type_ {
                Some(t) => bytes_equal(t, current_script),
                None => false,
            }
        };
        assert(member == tx.input_in_group(setup, script, i as int));
        if member {
            input_indices.push(i);
        }
        i += 1;
    }
    let mut j: usize = 0;
    while j < tx.outputs.len()
        invariant
            j <= tx.outputs.len(),
            script == current_script@,
            output_indices@.len() == tx.output_group_upto(script, j as nat).len(),
            forall|k: int|
                0 <= k < output_indices@.len() ==> output_indices@[k] as int
                    == tx.output_group_upto(script, j as nat)[k],
        decreases tx.outputs.len() - j,
    {
        let member = match &tx.outputs[j].type_ {
            Some(t) => bytes_equal(t, current_script),
            None => false,
        };
        assert(member == tx.output_in_group(script, j as int));
        if member {
            output_indices.push(j);
        }
        j += 1;
    }
    (input_indices, output_indices)
}

/// Looks up the cell that `index` names in `source`, with its data.
pub fn fetch_cell<'a>(tx: &'a MockTransaction, setup: &RunningSetup, index: u64, source: u64) -> (cell:
    Result<(&'a CellOutput, &'a Vec<u8>), i32>)
    requires
        tx.wf(),
        valid_source(source),
        resolvable(tx, setup, source),
    ensures
        match cell {
            Ok((output, data)) => cell_at(tx, setup, index, source) == Ok::<
                (CellOutput, Vec<u8>),
                i32,
            >((*output, *data)),
            Err(code) => cell_at(tx, setup, index, source) == Err::<(CellOutput, Vec<u8>), i32>(
                code,
            ),
        },
{
    if source == SOURCE_INPUT {
        if index < tx.mock_inputs.len() as u64 {
            let found = &tx.mock_inputs[index as usize];
            Ok((&found.output, &found.data))
        } else {
            Err(CKB_INDEX_OUT_OF_BOUND)
        }
    } else if source == SOURCE_OUTPUT {
        if index < tx.outputs.len() as u64 {
            Ok((&tx.outputs[index as usize], &tx.outputs_data[index as usize]))
        } else {
            Err(CKB_INDEX_OUT_OF_BOUND)
        }
    } else if source == SOURCE_CELL_DEP {
        if index < tx.mock_cell_deps.len() as u64 {
            let found = &tx.mock_cell_deps[index as usize];
            Ok((&found.output, &found.data))
        } else {
            Err(CKB_INDEX_OUT_OF_BOUND)
        }
    } else if source == SOURCE_GROUP_INPUT {
        let (indices, _) = fetch_group_indices(tx, setup);
        if index < indices.len() as u64 {
            let actual_index = indices[index as usize];
            proof {
                tx.lemma_input_group_bounded(
                    setup,
                    tx.current_script(setup)->Some_0,
                    tx.mock_inputs@.len(),
                );
            }
            let found = &tx.mock_inputs[actual_index];
            Ok((&found.output, &found.data))
        } else {
            Err(CKB_INDEX_OUT_OF_BOUND)
        }
    } else if source == SOURCE_GROUP_OUTPUT {
        let (_, indices) = fetch_group_indices(tx, setup);
        if index < indices.len() as u64 {
            let actual_index = indices[index as usize];
            proof {
                tx.lemma_output_group_bounded(tx.current_script(setup)->Some_0, tx.outputs@.len());
            }
            Ok((&tx.outputs[actual_index], &tx.outputs_data[actual_index]))
        } else {
            Err(CKB_INDEX_OUT_OF_BOUND)
        }
    } else {
        Err(CKB_INDEX_OUT_OF_BOUND)
    }
}

/// Looks up the transaction input that `index` names in `source`.
pub fn fetch_input<'a>(tx: &'a MockTransaction, setup: &RunningSetup, index: u64, source: u64) -> (input:
    Result<&'a CellInput, i32>)
    requires
        valid_source(source),
        resolvable(tx, setup, source),
    ensures
        match input {
            Ok(found) => input_at(tx, setup, index, source) == Ok::<CellInput, i32>(*found),
            Err(code) => input_at(tx, setup, index, source) == Err::<CellInput, i32>(code),
        },
{
    if source == SOURCE_INPUT {
        if index < tx.inputs.len() as u64 {
            Ok(&tx.inputs[index as usize])
        } else {
            Err(CKB_INDEX_OUT_OF_BOUND)
        }
    } else if source == SOURCE_GROUP_INPUT {
        let (indices, _) = fetch_group_indices(tx, setup);
        if index < indices.len() as u64 {
            let actual_index = indices[index as usize];
            if actual_index < tx.inputs.len() {
                Ok(&tx.inputs[actual_index])
            } else {
                Err(CKB_INDEX_OUT_OF_BOUND)
            }
        } else {
            Err(CKB_INDEX_OUT_OF_BOUND)
        }
    } else {
        Err(CKB_INDEX_OUT_OF_BOUND)
    }
}

/// The first header dependency whose hash is `hash`.
pub fn find_header<'a>(tx: &'a MockTransaction, hash: &Vec<u8>) -> (header: Option<&'a HeaderView>)
    ensures
        match header {
            Some(found) => {
                &&& header_position(tx, hash@, 0) < tx.header_deps@.len()
                &&& *found == tx.header_deps@[header_position(tx, hash@, 0) as int]
            },
            None => header_position(tx, hash@, 0) == tx.header_deps@.len(),
        },
{
    let mut i: usize = 0;
    while i < tx.header_deps.len()
        invariant
            i <= tx.header_deps.len(),
            header_position(tx, hash@, 0) == header_position(tx, hash@, i as nat),
        decreases tx.header_deps.len() - i,
    {
        if bytes_equal(&tx.header_deps[i].hash, hash) {
            return Some(&tx.header_deps[i]);
        }
        i += 1;
    }
    None
}

/// The header dependency that a resolved cell was found in: out of bound
/// when the cell names no block, missing when it names one that is not
/// among the header dependencies.
pub fn header_of<'a>(tx: &'a MockTransaction, cell: &MockCell) -> (header: Result<
    &'a HeaderView,
    i32,
>)
    ensures
        match header {
            Ok(found) => header_of_cell(tx, *cell) == Ok::<HeaderView, i32>(*found),
            Err(code) => header_of_cell(tx, *cell) == Err::<HeaderView, i32>(code),
        },
{
    match &cell.header {
        None => Err(CKB_INDEX_OUT_OF_BOUND),
        Some(hash) => match find_header(tx, hash) {
            Some(found) => Ok(found),
            None => Err(CKB_ITEM_MISSING),
        },
    }
}

/// Looks up the header that `index` names in `source`.
pub fn fetch_header<'a>(tx: &'a MockTransaction, setup: &RunningSetup, index: u64, source: u64) -> (header:
    Result<&'a HeaderView, i32>)
    requires
        valid_source(source),
        resolvable(tx, setup, source),
    ensures
        match header {
            Ok(found) => header_at(tx, setup, index, source) == Ok::<HeaderView, i32>(*found),
            Err(code) => header_at(tx, setup, index, source) == Err::<HeaderView, i32>(code),
        },
{
    if source == SOURCE_INPUT {
        if index < tx.mock_inputs.len() as u64 {
            header_of(tx, &tx.mock_inputs[index as usize])
        } else {
            Err(CKB_INDEX_OUT_OF_BOUND)
        }
    } else if source == SOURCE_CELL_DEP {
        if index < tx.mock_cell_deps.len() as u64 {
            header_of(tx, &tx.mock_cell_deps[index as usize])
        } else {
            Err(CKB_INDEX_OUT_OF_BOUND)
        }
    } else if source == SOURCE_HEADER_DEP {
        if index < tx.header_deps.len() as u64 {
            Ok(&tx.header_deps[index as usize])
        } else {
            Err(CKB_INDEX_OUT_OF_BOUND)
        }
    } else if source == SOURCE_GROUP_INPUT {
        let (indices, _) = fetch_group_indices(tx, setup);
        if index < indices.len() as u64 {
            let actual_index = indices[index as usize];
            proof {
                tx.lemma_input_group_bounded(
                    setup,
                    tx.current_script(setup)->Some_0,
                    tx.mock_inputs@.len(),
                );
            }
            header_of(tx, &tx.mock_inputs[actual_index])
        } else {
            Err(CKB_INDEX_OUT_OF_BOUND)
        }
    } else {
        Err(CKB_INDEX_OUT_OF_BOUND)
    }
}

/// Looks up the witness that `index` names in `source`.
pub fn fetch_witness<'a>(tx: &'a MockTransaction, setup: &RunningSetup, index: u64, source: u64) -> (witness:
    Option<&'a Vec<u8>>)
    requires
        valid_source(source),
        resolvable(tx, setup, source),
    ensures
        match witness {
            Some(found) => witness_at(tx, setup, index, source) == Some(*found),
            None => witness_at(tx, setup, index, source) is None,
        },
{
    if source == SOURCE_INPUT || source == SOURCE_OUTPUT {
        if index < tx.witnesses.len() as u64 {
            Some(&tx.witnesses[index as usize])
        } else {
            None
        }
    } else if source == SOURCE_GROUP_INPUT {
        let (indices, _) = fetch_group_indices(tx, setup);
        if index < indices.len() as u64 {
            let actual_index = indices[index as usize];
            if actual_index < tx.witnesses.len() {
                Some(&tx.witnesses[actual_index])
            } else {
                None
            }
        } else {
            None
        }
    } else if source == SOURCE_GROUP_OUTPUT {
        let (_, indices) = fetch_group_indices(tx, setup);
        if index < indices.len() as u64 {
            let actual_index = indices[index as usize];
            if actual_index < tx.witnesses.len() {
                Some(&tx.witnesses[actual_index])
            } else {
                None
            }
        } else {
            None
        }
    } else {
        None
    }
}

/// What a loader hands to the script: the bytes that go into the script's
/// buffer, and the length that the script is told.
#[derive(Clone, Debug, PartialEq, Eq)]
pub struct Stored {
    pub bytes: Vec<u8>,
    pub len: u64,
}

/// Where in a payload of `total` bytes a load at `offset` starts.
pub open spec fn store_start(total: nat, offset: u64) -> nat {
    if offset <= total {
        offset as nat
    } else {
        total
    }
}

/// The length that the script is told: what the payload holds from the
/// offset on, whatever the size of the buffer.
pub open spec fn stored_len(data: Seq<u8>, offset: u64) -> nat {
    (data.len() - store_start(data.len(), offset)) as nat
}

/// The bytes that go into a buffer of `size` bytes: the payload from the
/// offset on, cut to the buffer.
pub open spec fn stored_bytes(data: Seq<u8>, size: u64, offset: u64) -> Seq<u8> {
    let start = store_start(data.len(), offset);
    let full = stored_len(data, offset);
    let count = if size <= full {
        size as nat
    } else {
        full
    };
    data.subrange(start as int, (start + count) as int)
}

/// Whether `out` is what storing `data` at `offset` into `size` bytes gives.
pub open spec fn stores(out: Stored, data: Seq<u8>, size: u64, offset: u64) -> bool {
    out.bytes@ == stored_bytes(data, size, offset) && out.len == stored_len(data, offset)
}

/// Cuts `data` to what a script with a buffer of `size` bytes gets to see
/// from `offset` on.
pub fn store_data(size: u64, offset: u64, data: &[u8]) -> (out: Stored)
    ensures
        stores(out, data@, size, offset),
        out.bytes@.len() <= size,
        out.bytes@.len() <= out.len <= data@.len(),
{
    proof {
        lemma_store_bounds(data@, size, offset);
    }
    let data_len = data.len() as u64;
    let offset = if offset < data_len {
        offset
    } else {
        data_len
    };
    let full_size = data_len - offset;
    let real_size = if size < full_size {
        size
    } else {
        full_size
    };
    let part = slice_subrange(data, offset as usize, (offset + real_size) as usize);
    Stored { bytes: slice_to_vec(part), len: full_size }
}

/// Asking with an empty buffer tells the whole length of the payload, and
/// asking again from the start with a buffer of that length gives the
/// payload back unchanged. This holds of every loader, since each of them
/// hands its payload over as `stores` says.
pub proof fn lemma_store_round_trip(data: Seq<u8>, probe: Stored, full: Stored)
    requires
        stores(probe, data, 0, 0),
        stores(full, data, probe.len, 0),
    ensures
        probe.bytes@.len() == 0,
        probe.len == data.len(),
        full.len == data.len(),
        full.bytes@ == data,
{
    assert(full.bytes@ =~= data);
}

/// A load never hands over more bytes than the buffer holds nor more than
/// the script is told, and what it hands over starts where the offset says.
pub proof fn lemma_store_bounds(data: Seq<u8>, size: u64, offset: u64)
    ensures
        stored_bytes(data, size, offset).len() <= size,
        stored_bytes(data, size, offset).len() <= stored_len(data, offset),
        stored_len(data, offset) <= data.len(),
        offset >= data.len() ==> stored_len(data, offset) == 0,
        forall|k: int|
            0 <= k < stored_bytes(data, size, offset).len() ==> stored_bytes(data, size, offset)[k]
                == data[offset + k],
{
}

/// Whether `out` is what a loader gives for `payload`: the stored payload,
/// or the code that the lookup failed with.
pub open spec fn loads(out: Result<Stored, i32>, payload: Result<Seq<u8>, i32>, size: u64, offset: u64)
    -> bool {
    match payload {
        Ok(data) => out is Ok && stores(out->Ok_0, data, size, offset),
        Err(code) => out == Err::<Stored, i32>(code),
    }
}

/// The hash of the transaction.
pub fn load_tx_hash(tx: &MockTransaction, size: u64, offset: u64) -> (out: Stored)
    ensures
        stores(out, tx_hash(tx.raw@), size, offset),
{
    let hash = calc_tx_hash(&tx.raw);
    store_data(size, offset, hash.as_slice())
}

/// The serialized transaction.
pub fn load_transaction(tx: &MockTransaction, size: u64, offset: u64) -> (out: Stored)
    ensures
        stores(out, tx.bytes@, size, offset),
{
    store_data(size, offset, tx.bytes.as_slice())
}

/// The hash of the running script.
pub fn load_script_hash(tx: &MockTransaction, setup: &RunningSetup, size: u64, offset: u64) -> (out:
    Stored)
    requires
        tx.current_script(setup) is Some,
    ensures
        stores(out, script_hash(tx.current_script(setup)->Some_0), size, offset),
{
    let hash = calc_script_hash(fetch_current_script(tx, setup));
    store_data(size, offset, hash.as_slice())
}

/// The running script in its serialized form.
pub fn load_script(tx: &MockTransaction, setup: &RunningSetup, size: u64, offset: u64) -> (out:
    Stored)
    requires
        tx.current_script(setup) is Some,
    ensures
        stores(out, tx.current_script(setup)->Some_0, size, offset),
{
    store_data(size, offset, fetch_current_script(tx, setup).as_slice())
}

/// The serialized cell output that `index` names in `source`.
pub fn load_cell(
    tx: &MockTransaction,
    setup: &RunningSetup,
    size: u64,
    offset: u64,
    index: u64,
    source: u64,
) -> (out: Result<Stored, i32>)
    requires
        tx.wf(),
        valid_source(source),
        resolvable(tx, setup, source),
    ensures
        loads(
            out,
            match cell_at(tx, setup, index, source) {
                Ok((output, _)) => Ok(output.bytes@),
                Err(code) => Err(code),
            },
            size,
            offset,
        ),
{
    match fetch_cell(tx, setup, index, source) {
        Ok((output, _)) => Ok(store_data(size, offset, output.bytes.as_slice())),
        Err(code) => Err(code),
    }
}

/// The data of the cell that `index` names in `source`.
pub fn load_cell_data(
    tx: &MockTransaction,
    setup: &RunningSetup,
    size: u64,
    offset: u64,
    index: u64,
    source: u64,
) -> (out: Result<Stored, i32>)
    requires
        tx.wf(),
        valid_source(source),
        resolvable(tx, setup, source),
    ensures
        loads(
            out,
            match cell_at(tx, setup, index, source) {
                Ok((_, data)) => Ok(data@),
                Err(code) => Err(code),
            },
            size,
            offset,
        ),
{
    match fetch_cell(tx, setup, index, source) {
        Ok((_, data)) => Ok(store_data(size, offset, data.as_slice())),
        Err(code) => Err(code),
    }
}

/// The serialized transaction input that `index` names in `source`.
pub fn load_input(
    tx: &MockTransaction,
    setup: &RunningSetup,
    size: u64,
    offset: u64,
    index: u64,
    source: u64,
) -> (out: Result<Stored, i32>)
    requires
        valid_source(source),
        resolvable(tx, setup, source),
    ensures
        loads(
            out,
            match input_at(tx, setup, index, source) {
                Ok(input) => Ok(input.bytes@),
                Err(code) => Err(code),
            },
            size,
            offset,
        ),
{
    match fetch_input(tx, setup, index, source) {
        Ok(input) => Ok(store_data(size, offset, input.bytes.as_slice())),
        Err(code) => Err(code),
    }
}

/// The serialized header that `index` names in `source`.
pub fn load_header(
    tx: &MockTransaction,
    setup: &RunningSetup,
    size: u64,
    offset: u64,
    index: u64,
    source: u64,
) -> (out: Result<Stored, i32>)
    requires
        valid_source(source),
        resolvable(tx, setup, source),
    ensures
        loads(
            out,
            match header_at(tx, setup, index, source) {
                Ok(header) => Ok(header.data@),
                Err(code) => Err(code),
            },
            size,
            offset,
        ),
{
    match fetch_header(tx, setup, index, source) {
        Ok(header) => Ok(store_data(size, offset, header.data.as_slice())),
        Err(code) => Err(code),
    }
}

/// The witness that `index` names in `source`; out of bound when there is
/// none.
pub fn load_witness(
    tx: &MockTransaction,
    setup: &RunningSetup,
    size: u64,
    offset: u64,
    index: u64,
    source: u64,
) -> (out: Result<Stored, i32>)
    requires
        valid_source(source),
        resolvable(tx, setup, source),
    ensures
        loads(
            out,
            match witness_at(tx, setup, index, source) {
                Some(witness) => Ok(witness@),
                None => Err(CKB_INDEX_OUT_OF_BOUND),
            },
            size,
            offset,
        ),
{
    match fetch_witness(tx, setup, index, source) {
        Some(witness) => Ok(store_data(size, offset, witness.as_slice())),
        None => Err(CKB_INDEX_OUT_OF_BOUND),
    }
}

/// Why a field of a cell was not loaded: the lookup failed with a status
/// code, or the capacity that the cell occupies cannot be told.
#[derive(Clone, Copy, Debug, PartialEq, Eq, Structural)]
pub enum CellFieldError {
    Code(i32),
    Capacity,
}

/// Whether `field` names a field of a cell.
pub open spec fn valid_cell_field(field: u64) -> bool {
    field <= CELL_FIELD_OCCUPIED_CAPACITY
}

/// Whether `field` names a field of a cell.
pub fn is_valid_cell_field(field: u64) -> (valid: bool)
    ensures
        valid == valid_cell_field(field),
{
    field <= CELL_FIELD_OCCUPIED_CAPACITY
}

/// The bytes that stand for `field` of a cell with the data `data`.
pub open spec fn cell_field(output: CellOutput, data: Seq<u8>, field: u64) -> Result<
    Seq<u8>,
    CellFieldError,
> {
    if field == CELL_FIELD_CAPACITY {
        Ok(spec_u64_to_le_bytes(output.capacity))
    } else if field == CELL_FIELD_DATA_HASH {
        Ok(data_hash(data))
    } else if field == CELL_FIELD_OCCUPIED_CAPACITY {
        match occupied_capacity(output.bytes@, data) {
            Some(shannons) => Ok(spec_u64_to_le_bytes(shannons)),
            None => Err(CellFieldError::Capacity),
        }
    } else if field == CELL_FIELD_LOCK {
        Ok(output.lock@)
    } else if field == CELL_FIELD_LOCK_HASH {
        Ok(script_hash(output.lock@))
    } else if field == CELL_FIELD_TYPE {
        match output.type_ {
            Some(script) => Ok(script@),
            None => Err(CellFieldError::Code(CKB_ITEM_MISSING)),
        }
    } else {
        match output.type_ {
            Some(script) => Ok(script_hash(script@)),
            None => Err(CellFieldError::Code(CKB_ITEM_MISSING)),
        }
    }
}

/// One field of the cell that `index` names in `source`.
pub fn load_cell_by_field(
    tx: &MockTransaction,
    setup: &RunningSetup,
    size: u64,
    offset: u64,
    index: u64,
    source: u64,
    field: u64,
) -> (out: Result<Stored, CellFieldError>)
    requires
        tx.wf(),
        valid_source(source),
        resolvable(tx, setup, source),
        valid_cell_field(field),
    ensures
        match cell_at(tx, setup, index, source) {
            Ok((output, data)) => match cell_field(output, data@, field) {
                Ok(payload) => out is Ok && stores(out->Ok_0, payload, size, offset),
                Err(why) => out == Err::<Stored, CellFieldError>(why),
            },
            Err(code) => out == Err::<Stored, CellFieldError>(CellFieldError::Code(code)),
        },
{
    let (cell, cell_data) = match fetch_cell(tx, setup, index, source) {
        Ok(found) => found,
        Err(code) => return Err(CellFieldError::Code(code)),
    };
    if field == CELL_FIELD_CAPACITY {
        let data = u64_to_le_bytes(cell.capacity);
        Ok(store_data(size, offset, data.as_slice()))
    } else if field == CELL_FIELD_DATA_HASH {
        let hash = calc_data_hash(cell_data);
        Ok(store_data(size, offset, hash.as_slice()))
    } else if field == CELL_FIELD_OCCUPIED_CAPACITY {
        match calc_occupied_capacity(&cell.bytes, cell_data) {
            Some(shannons) => {
                let data = u64_to_le_bytes(shannons);
                Ok(store_data(size, offset, data.as_slice()))
            },
            None => Err(CellFieldError::Capacity),
        }
    } else if field == CELL_FIELD_LOCK {
        Ok(store_data(size, offset, cell.lock.as_slice()))
    } else if field == CELL_FIELD_LOCK_HASH {
        let hash = calc_script_hash(&cell.lock);
        Ok(store_data(size, offset, hash.as_slice()))
    } else if field == CELL_FIELD_TYPE {
        match &cell.type_ {
            Some(script) => Ok(store_data(size, offset, script.as_slice())),
            None => Err(CellFieldError::Code(CKB_ITEM_MISSING)),
        }
    } else {
        match &cell.type_ {
            Some(script) => {
                let hash = calc_script_hash(script);
                Ok(store_data(size, offset, hash.as_slice()))
            },
            None => Err(CellFieldError::Code(CKB_ITEM_MISSING)),
        }
    }
}

/// Whether `field` names a field of a header.
pub open spec fn valid_header_field(field: u64) -> bool {
    field <= HEADER_FIELD_EPOCH_LENGTH
}

/// Whether `field` names a field of a header.
pub fn is_valid_header_field(field: u64) -> (valid: bool)
    ensures
        valid == valid_header_field(field),
{
    field <= HEADER_FIELD_EPOCH_LENGTH
}

/// The number that stands for `field` of a header. The block that an epoch
/// starts with lies as many blocks before the header's own as the header's
/// index in the epoch says.
pub open spec fn header_field(header: HeaderView, field: u64) -> int {
    if field == HEADER_FIELD_EPOCH_NUMBER {
        header.epoch_number as int
    } else if field == HEADER_FIELD_EPOCH_START_BLOCK_NUMBER {
        header.number - header.epoch_index
    } else {
        header.epoch_length as int
    }
}

/// One field of the header that `index` names in `source`, as eight bytes,
/// lowest first. The block that the epoch starts with must exist.
pub fn load_header_by_field(
    tx: &MockTransaction,
    setup: &RunningSetup,
    size: u64,
    offset: u64,
    index: u64,
    source: u64,
    field: u64,
) -> (out: Result<Stored, i32>)
    requires
        valid_source(source),
        resolvable(tx, setup, source),
        valid_header_field(field),
        match header_at(tx, setup, index, source) {
            Ok(header) => header_field(header, field) >= 0,
            Err(_) => true,
        },
    ensures
        loads(
            out,
            match header_at(tx, setup, index, source) {
                Ok(header) => Ok(spec_u64_to_le_bytes(header_field(header, field) as u64)),
                Err(code) => Err(code),
            },
            size,
            offset,
        ),
{
    let header = match fetch_header(tx, setup, index, source) {
        Ok(found) => found,
        Err(code) => return Err(code),
    };
    let value = if field == HEADER_FIELD_EPOCH_NUMBER {
        header.epoch_number
    } else if field == HEADER_FIELD_EPOCH_START_BLOCK_NUMBER {
        header.number - header.epoch_index
    } else {
        header.epoch_length
    };
    let data = u64_to_le_bytes(value);
    Ok(store_data(size, offset, data.as_slice()))
}

/// Whether `field` names a field of a transaction input.
pub open spec fn valid_input_field(field: u64) -> bool {
    field == INPUT_FIELD_OUT_POINT || field == INPUT_FIELD_SINCE
}

/// Whether `field` names a field of a transaction input.
pub fn is_valid_input_field(field: u64) -> (valid: bool)
    ensures
        valid == valid_input_field(field),
{
    field == INPUT_FIELD_OUT_POINT || field == INPUT_FIELD_SINCE
}

/// The bytes that stand for `field` of a transaction input.
pub open spec fn input_field(input: CellInput, field: u64) -> Seq<u8> {
    if field == INPUT_FIELD_OUT_POINT {
        input.previous_output@
    } else {
        spec_u64_to_le_bytes(input.since)
    }
}

/// One field of the transaction input that `index` names in `source`.
pub fn load_input_by_field(
    tx: &MockTransaction,
    setup: &RunningSetup,
    size: u64,
    offset: u64,
    index: u64,
    source: u64,
    field: u64,
) -> (out: Result<Stored, i32>)
    requires
        valid_source(source),
        resolvable(tx, setup, source),
        valid_input_field(field),
    ensures
        loads(
            out,
            match input_at(tx, setup, index, source) {
                Ok(input) => Ok(input_field(input, field)),
                Err(code) => Err(code),
            },
            size,
            offset,
        ),
{
    let input = match fetch_input(tx, setup, index, source) {
        Ok(found) => found,
        Err(code) => return Err(code),
    };
    if field == INPUT_FIELD_OUT_POINT {
        Ok(store_data(size, offset, input.previous_output.as_slice()))
    } else {
        let data = u64_to_le_bytes(input.since);
        Ok(store_data(size, offset, data.as_slice()))
    }
}

} // verus!
