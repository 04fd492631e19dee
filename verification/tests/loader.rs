use ckb_types::prelude::Entity;
use ckb_x64_simulator::loader::{
    fetch_cell, fetch_current_script, fetch_group_indices, fetch_header, fetch_input,
    fetch_witness, find_header, load_cell, load_cell_by_field, load_cell_data, load_header,
    load_header_by_field, load_input, load_input_by_field, load_script, load_script_hash,
    load_transaction, load_tx_hash, load_witness, store_data, CellFieldError,
};
use ckb_x64_simulator::transaction::{
    bytes_equal, CellInput, CellOutput, HeaderView, MockCell, MockTransaction, RunningSetup,
};

const SOURCE_INPUT: u64 = 1;
const SOURCE_OUTPUT: u64 = 2;
const SOURCE_CELL_DEP: u64 = 3;
const SOURCE_HEADER_DEP: u64 = 4;
const SOURCE_GROUP_INPUT: u64 = 0x0100000000000001;
const SOURCE_GROUP_OUTPUT: u64 = 0x0100000000000002;
const SOURCE_GROUP_CELL_DEP: u64 = 0x0100000000000003;
const SOURCE_GROUP_HEADER_DEP: u64 = 0x0100000000000004;

// A script with the code hash 01..01, hash type 0 and the args aa bb.
const LOCK: [u8; 55] = [
    55, 0, 0, 0, 16, 0, 0, 0, 48, 0, 0, 0, 49, 0, 0, 0, 1, 1, 1, 1, 1, 1, 1, 1, 1, 1, 1, 1, 1, 1,
    1, 1, 1, 1, 1, 1, 1, 1, 1, 1, 1, 1, 1, 1, 1, 1, 1, 1, 0, 2, 0, 0, 0, 170, 187,
];
const LOCK_HASH: [u8; 32] = [
    29, 201, 254, 24, 117, 207, 69, 106, 234, 89, 35, 220, 220, 68, 247, 205, 254, 1, 34, 246,
    235, 153, 195, 100, 37, 27, 231, 204, 152, 119, 181, 129,
];
// A script with the code hash 02..02, hash type 1 and no args.
const TYPE: [u8; 53] = [
    53, 0, 0, 0, 16, 0, 0, 0, 48, 0, 0, 0, 49, 0, 0, 0, 2, 2, 2, 2, 2, 2, 2, 2, 2, 2, 2, 2, 2, 2,
    2, 2, 2, 2, 2, 2, 2, 2, 2, 2, 2, 2, 2, 2, 2, 2, 2, 2, 1, 0, 0, 0, 0,
];
const TYPE_HASH: [u8; 32] = [
    230, 225, 13, 253, 255, 147, 14, 34, 54, 109, 153, 159, 202, 43, 65, 208, 253, 14, 77, 35,
    234, 37, 33, 108, 147, 123, 197, 220, 108, 83, 51, 43,
];
// A cell output with the capacity 1000, the lock and the type script above.
const OUT1: [u8; 132] = [
    132, 0, 0, 0, 16, 0, 0, 0, 24, 0, 0, 0, 79, 0, 0, 0, 232, 3, 0, 0, 0, 0, 0, 0, 55, 0, 0, 0,
    16, 0, 0, 0, 48, 0, 0, 0, 49, 0, 0, 0, 1, 1, 1, 1, 1, 1, 1, 1, 1, 1, 1, 1, 1, 1, 1, 1, 1, 1,
    1, 1, 1, 1, 1, 1, 1, 1, 1, 1, 1, 1, 1, 1, 0, 2, 0, 0, 0, 170, 187, 53, 0, 0, 0, 16, 0, 0, 0,
    48, 0, 0, 0, 49, 0, 0, 0, 2, 2, 2, 2, 2, 2, 2, 2, 2, 2, 2, 2, 2, 2, 2, 2, 2, 2, 2, 2, 2, 2, 2,
    2, 2, 2, 2, 2, 2, 2, 2, 2, 1, 0, 0, 0, 0,
];
// A cell output with the capacity 500, the lock above and no type script.
const OUT2: [u8; 79] = [
    79, 0, 0, 0, 16, 0, 0, 0, 24, 0, 0, 0, 79, 0, 0, 0, 244, 1, 0, 0, 0, 0, 0, 0, 55, 0, 0, 0, 16,
    0, 0, 0, 48, 0, 0, 0, 49, 0, 0, 0, 1, 1, 1, 1, 1, 1, 1, 1, 1, 1, 1, 1, 1, 1, 1, 1, 1, 1, 1, 1,
    1, 1, 1, 1, 1, 1, 1, 1, 1, 1, 1, 1, 0, 2, 0, 0, 0, 170, 187,
];
const HELLO_HASH: [u8; 32] = [
    45, 161, 40, 147, 115, 169, 246, 183, 237, 33, 219, 148, 143, 77, 197, 217, 66, 207, 64, 35,
    234, 239, 29, 90, 43, 26, 69, 185, 209, 45, 16, 54,
];
// The raw part of a transaction without inputs and outputs.
const RAW: [u8; 52] = [
    52, 0, 0, 0, 28, 0, 0, 0, 32, 0, 0, 0, 36, 0, 0, 0, 40, 0, 0, 0, 44, 0, 0, 0, 48, 0, 0, 0, 0,
    0, 0, 0, 0, 0, 0, 0, 0, 0, 0, 0, 0, 0, 0, 0, 4, 0, 0, 0, 4, 0, 0, 0,
];
const RAW_HASH: [u8; 32] = [
    242, 231, 165, 54, 46, 33, 126, 212, 215, 249, 133, 175, 113, 182, 84, 202, 250, 221, 12, 59,
    109, 106, 108, 19, 241, 177, 58, 107, 253, 13, 61, 20,
];

fn out1() -> CellOutput {
    CellOutput {
        bytes: OUT1.to_vec(),
        capacity: 1000,
        lock: LOCK.to_vec(),
        type_: Some(TYPE.to_vec()),
    }
}

fn out2() -> CellOutput {
    CellOutput { bytes: OUT2.to_vec(), capacity: 500, lock: LOCK.to_vec(), type_: None }
}

// An output whose lock is the type script above.
fn out3() -> CellOutput {
    CellOutput { bytes: vec![9, 9, 9], capacity: 7, lock: TYPE.to_vec(), type_: None }
}

fn header(tag: u8, number: u64, epoch: (u64, u64, u64)) -> HeaderView {
    HeaderView {
        hash: vec![tag; 32],
        data: vec![tag, tag, tag, tag],
        number,
        epoch_number: epoch.0,
        epoch_index: epoch.1,
        epoch_length: epoch.2,
    }
}

fn input(tag: u8, since: u64) -> CellInput {
    CellInput { bytes: vec![tag; 44], previous_output: vec![tag; 36], since }
}

// Three inputs, of which the first and the third carry the lock above, two
// outputs, two cell dependencies and two header dependencies.
fn tx() -> MockTransaction {
    MockTransaction {
        bytes: vec![1, 2, 3, 4, 5, 6, 7, 8, 9, 10],
        raw: RAW.to_vec(),
        inputs: vec![input(0x10, 5), input(0x11, 6), input(0x12, 7)],
        outputs: vec![out2(), out1()],
        outputs_data: vec![b"first".to_vec(), b"second".to_vec()],
        witnesses: vec![b"w0".to_vec(), b"w1".to_vec()],
        mock_inputs: vec![
            MockCell { output: out1(), data: b"hello".to_vec(), header: Some(vec![0xb2; 32]) },
            MockCell { output: out3(), data: Vec::new(), header: None },
            MockCell { output: out2(), data: b"x".to_vec(), header: Some(vec![0xcc; 32]) },
        ],
        mock_cell_deps: vec![
            MockCell { output: out3(), data: b"dep".to_vec(), header: Some(vec![0xb1; 32]) },
            MockCell { output: out1(), data: b"hello".to_vec(), header: None },
        ],
        header_deps: vec![header(0xb1, 100, (3, 40, 1000)), header(0xb2, 7, (1, 7, 10))],
    }
}

fn setup(is_lock_script: bool, is_output: bool, script_index: u64) -> RunningSetup {
    RunningSetup {
        is_lock_script,
        is_output,
        script_index,
        vm_version: 1,
        native_binaries: Vec::new(),
        run_type: None,
    }
}

#[test]
fn constants_are_what_the_chain_library_writes() {
    let lock = ckb_types::packed::Script::from_slice(&LOCK).expect("script");
    assert_eq!(lock.calc_script_hash().as_slice(), &LOCK_HASH[..]);
    let out = ckb_types::packed::CellOutput::from_slice(&OUT1).expect("output");
    assert_eq!(out.lock().as_slice(), &LOCK[..]);
    assert_eq!(out.type_().to_opt().expect("type").as_slice(), &TYPE[..]);
    let raw = ckb_types::packed::RawTransaction::from_slice(&RAW).expect("raw");
    assert_eq!(raw.calc_tx_hash().as_slice(), &RAW_HASH[..]);
}

#[test]
fn store_cuts_to_offset_and_buffer() {
    let data = [0u8, 1, 2, 3, 4, 5, 6, 7, 8, 9];
    // D = 10, S = 4, O = 3: F = 7, R = 4.
    let out = store_data(4, 3, &data);
    assert_eq!(out.bytes, vec![3, 4, 5, 6]);
    assert_eq!(out.len, 7);
    // A buffer larger than what is left gets all that is left.
    let out = store_data(100, 8, &data);
    assert_eq!(out.bytes, vec![8, 9]);
    assert_eq!(out.len, 2);
    // An offset at or beyond the end leaves nothing.
    let out = store_data(4, 10, &data);
    assert_eq!(out.bytes, Vec::<u8>::new());
    assert_eq!(out.len, 0);
    let out = store_data(4, u64::MAX, &data);
    assert_eq!(out.bytes, Vec::<u8>::new());
    assert_eq!(out.len, 0);
    // An empty payload.
    let out = store_data(4, 0, &[]);
    assert_eq!(out.bytes, Vec::<u8>::new());
    assert_eq!(out.len, 0);
}

#[test]
fn store_round_trip_gives_the_payload_back() {
    let data = b"the quick brown fox".to_vec();
    let probe = store_data(0, 0, &data);
    assert_eq!(probe.bytes, Vec::<u8>::new());
    assert_eq!(probe.len, data.len() as u64);
    let full = store_data(probe.len, 0, &data);
    assert_eq!(full.bytes, data);
    assert_eq!(full.len, data.len() as u64);
}

#[test]
fn every_loader_round_trips() {
    let tx = tx();
    let s = setup(true, false, 0);
    let probe = load_cell(&tx, &s, 0, 0, 1, SOURCE_OUTPUT).unwrap();
    let full = load_cell(&tx, &s, probe.len, 0, 1, SOURCE_OUTPUT).unwrap();
    assert_eq!(full.bytes, OUT1.to_vec());
    let probe = load_cell_data(&tx, &s, 0, 0, 0, SOURCE_INPUT).unwrap();
    let full = load_cell_data(&tx, &s, probe.len, 0, 0, SOURCE_INPUT).unwrap();
    assert_eq!(full.bytes, b"hello".to_vec());
    let probe = load_witness(&tx, &s, 0, 0, 1, SOURCE_INPUT).unwrap();
    assert_eq!(probe.len, 2);
    let full = load_witness(&tx, &s, probe.len, 0, 1, SOURCE_INPUT).unwrap();
    assert_eq!(full.bytes, b"w1".to_vec());
    let probe = load_transaction(&tx, 0, 0);
    let full = load_transaction(&tx, probe.len, 0);
    assert_eq!(full.bytes, tx.bytes);
    let probe = load_script(&tx, &s, 0, 0);
    let full = load_script(&tx, &s, probe.len, 0);
    assert_eq!(full.bytes, LOCK.to_vec());
    let probe = load_tx_hash(&tx, 0, 0);
    assert_eq!(probe.len, 32);
    let full = load_tx_hash(&tx, probe.len, 0);
    assert_eq!(full.bytes, RAW_HASH.to_vec());
}

#[test]
fn current_script_follows_the_setup() {
    let tx = tx();
    assert_eq!(fetch_current_script(&tx, &setup(true, false, 0)), &LOCK.to_vec());
    assert_eq!(fetch_current_script(&tx, &setup(false, false, 0)), &TYPE.to_vec());
    assert_eq!(fetch_current_script(&tx, &setup(true, false, 1)), &TYPE.to_vec());
    assert_eq!(fetch_current_script(&tx, &setup(true, true, 0)), &LOCK.to_vec());
    assert_eq!(fetch_current_script(&tx, &setup(false, true, 1)), &TYPE.to_vec());
}

#[test]
fn groups_match_lock_or_type() {
    let tx = tx();
    // As the lock script of input 0: inputs 0 and 2 carry it; no output has
    // it as its type script.
    let (inputs, outputs) = fetch_group_indices(&tx, &setup(true, false, 0));
    assert_eq!(inputs, vec![0, 2]);
    assert_eq!(outputs, Vec::<usize>::new());
    // As the type script of input 0: input 0 and output 1 carry it.
    let (inputs, outputs) = fetch_group_indices(&tx, &setup(false, false, 0));
    assert_eq!(inputs, vec![0]);
    assert_eq!(outputs, vec![1]);
    // As the lock script of input 1, which is the type script of others:
    // input 1 locks with it, output 1 has it as its type.
    let (inputs, outputs) = fetch_group_indices(&tx, &setup(true, false, 1));
    assert_eq!(inputs, vec![1]);
    assert_eq!(outputs, vec![1]);
}

#[test]
fn fetch_cell_follows_the_matrix() {
    let tx = tx();
    let s = setup(true, false, 0);
    let (o, d) = fetch_cell(&tx, &s, 0, SOURCE_INPUT).unwrap();
    assert_eq!((o.capacity, d.as_slice()), (1000, &b"hello"[..]));
    let (o, d) = fetch_cell(&tx, &s, 2, SOURCE_INPUT).unwrap();
    assert_eq!((o.capacity, d.as_slice()), (500, &b"x"[..]));
    assert_eq!(fetch_cell(&tx, &s, 3, SOURCE_INPUT).unwrap_err(), 1);
    let (o, d) = fetch_cell(&tx, &s, 1, SOURCE_OUTPUT).unwrap();
    assert_eq!((o.capacity, d.as_slice()), (1000, &b"second"[..]));
    assert_eq!(fetch_cell(&tx, &s, 2, SOURCE_OUTPUT).unwrap_err(), 1);
    let (o, d) = fetch_cell(&tx, &s, 0, SOURCE_CELL_DEP).unwrap();
    assert_eq!((o.capacity, d.as_slice()), (7, &b"dep"[..]));
    assert_eq!(fetch_cell(&tx, &s, 2, SOURCE_CELL_DEP).unwrap_err(), 1);
    assert_eq!(fetch_cell(&tx, &s, 0, SOURCE_HEADER_DEP).unwrap_err(), 1);
    // The group of the lock script holds the inputs 0 and 2.
    let (o, _) = fetch_cell(&tx, &s, 1, SOURCE_GROUP_INPUT).unwrap();
    assert_eq!(o.capacity, 500);
    assert_eq!(fetch_cell(&tx, &s, 2, SOURCE_GROUP_INPUT).unwrap_err(), 1);
    assert_eq!(fetch_cell(&tx, &s, 0, SOURCE_GROUP_OUTPUT).unwrap_err(), 1);
    assert_eq!(fetch_cell(&tx, &s, 0, SOURCE_GROUP_CELL_DEP).unwrap_err(), 1);
    assert_eq!(fetch_cell(&tx, &s, 0, SOURCE_GROUP_HEADER_DEP).unwrap_err(), 1);
    assert_eq!(fetch_cell(&tx, &s, u64::MAX, SOURCE_INPUT).unwrap_err(), 1);
    // The group of the type script holds the output 1, with its own data.
    let t = setup(false, false, 0);
    let (o, d) = fetch_cell(&tx, &t, 0, SOURCE_GROUP_OUTPUT).unwrap();
    assert_eq!((o.capacity, d.as_slice()), (1000, &b"second"[..]));
    assert_eq!(fetch_cell(&tx, &t, 1, SOURCE_GROUP_OUTPUT).unwrap_err(), 1);
}

#[test]
fn fetch_input_follows_the_matrix() {
    let tx = tx();
    let s = setup(true, false, 0);
    assert_eq!(fetch_input(&tx, &s, 1, SOURCE_INPUT).unwrap().since, 6);
    assert_eq!(fetch_input(&tx, &s, 3, SOURCE_INPUT).unwrap_err(), 1);
    assert_eq!(fetch_input(&tx, &s, 1, SOURCE_GROUP_INPUT).unwrap().since, 7);
    assert_eq!(fetch_input(&tx, &s, 2, SOURCE_GROUP_INPUT).unwrap_err(), 1);
    for source in [
        SOURCE_OUTPUT,
        SOURCE_CELL_DEP,
        SOURCE_HEADER_DEP,
        SOURCE_GROUP_OUTPUT,
        SOURCE_GROUP_CELL_DEP,
        SOURCE_GROUP_HEADER_DEP,
    ] {
        assert_eq!(fetch_input(&tx, &s, 0, source).unwrap_err(), 1);
    }
}

#[test]
fn fetch_header_follows_the_matrix() {
    let tx = tx();
    let s = setup(true, false, 0);
    assert_eq!(find_header(&tx, &vec![0xb2; 32]).unwrap().number, 7);
    assert!(find_header(&tx, &vec![0xcc; 32]).is_none());
    // Input 0 names the block b2, input 1 names none, input 2 names one
    // that is not among the header dependencies.
    assert_eq!(fetch_header(&tx, &s, 0, SOURCE_INPUT).unwrap().number, 7);
    assert_eq!(fetch_header(&tx, &s, 1, SOURCE_INPUT).unwrap_err(), 1);
    assert_eq!(fetch_header(&tx, &s, 2, SOURCE_INPUT).unwrap_err(), 2);
    assert_eq!(fetch_header(&tx, &s, 3, SOURCE_INPUT).unwrap_err(), 1);
    assert_eq!(fetch_header(&tx, &s, 0, SOURCE_CELL_DEP).unwrap().number, 100);
    assert_eq!(fetch_header(&tx, &s, 1, SOURCE_CELL_DEP).unwrap_err(), 1);
    assert_eq!(fetch_header(&tx, &s, 1, SOURCE_HEADER_DEP).unwrap().number, 7);
    assert_eq!(fetch_header(&tx, &s, 2, SOURCE_HEADER_DEP).unwrap_err(), 1);
    assert_eq!(fetch_header(&tx, &s, 0, SOURCE_GROUP_INPUT).unwrap().number, 7);
    assert_eq!(fetch_header(&tx, &s, 1, SOURCE_GROUP_INPUT).unwrap_err(), 2);
    assert_eq!(fetch_header(&tx, &s, 2, SOURCE_GROUP_INPUT).unwrap_err(), 1);
    for source in [SOURCE_OUTPUT, SOURCE_GROUP_OUTPUT, SOURCE_GROUP_CELL_DEP, SOURCE_GROUP_HEADER_DEP]
    {
        assert_eq!(fetch_header(&tx, &s, 0, source).unwrap_err(), 1);
    }
}

#[test]
fn fetch_witness_follows_the_matrix() {
    let tx = tx();
    let s = setup(true, false, 0);
    assert_eq!(fetch_witness(&tx, &s, 0, SOURCE_INPUT).unwrap(), &b"w0".to_vec());
    assert_eq!(fetch_witness(&tx, &s, 1, SOURCE_OUTPUT).unwrap(), &b"w1".to_vec());
    assert!(fetch_witness(&tx, &s, 2, SOURCE_INPUT).is_none());
    // The input group holds the inputs 0 and 2; there is no witness 2.
    assert_eq!(fetch_witness(&tx, &s, 0, SOURCE_GROUP_INPUT).unwrap(), &b"w0".to_vec());
    assert!(fetch_witness(&tx, &s, 1, SOURCE_GROUP_INPUT).is_none());
    let t = setup(false, false, 0);
    assert_eq!(fetch_witness(&tx, &t, 0, SOURCE_GROUP_OUTPUT).unwrap(), &b"w1".to_vec());
    assert!(fetch_witness(&tx, &t, 1, SOURCE_GROUP_OUTPUT).is_none());
    for source in [SOURCE_CELL_DEP, SOURCE_HEADER_DEP, SOURCE_GROUP_CELL_DEP, SOURCE_GROUP_HEADER_DEP]
    {
        assert!(fetch_witness(&tx, &s, 0, source).is_none());
        assert_eq!(load_witness(&tx, &s, 8, 0, 0, source).unwrap_err(), 1);
    }
}

#[test]
fn loaders_hand_back_the_lookup_error() {
    let tx = tx();
    let s = setup(true, false, 0);
    assert_eq!(load_cell(&tx, &s, 8, 0, 9, SOURCE_INPUT).unwrap_err(), 1);
    assert_eq!(load_cell_data(&tx, &s, 8, 0, 9, SOURCE_OUTPUT).unwrap_err(), 1);
    assert_eq!(load_input(&tx, &s, 8, 0, 9, SOURCE_INPUT).unwrap_err(), 1);
    assert_eq!(load_header(&tx, &s, 8, 0, 2, SOURCE_INPUT).unwrap_err(), 2);
    assert_eq!(load_header(&tx, &s, 8, 0, 1, SOURCE_INPUT).unwrap_err(), 1);
    assert_eq!(load_input(&tx, &s, 64, 0, 0, SOURCE_INPUT).unwrap().bytes, vec![0x10; 44]);
    assert_eq!(load_header(&tx, &s, 64, 1, 0, SOURCE_INPUT).unwrap().bytes, vec![0xb2; 3]);
}

#[test]
fn cell_fields() {
    let tx = tx();
    let s = setup(true, false, 0);
    let field = |index: u64, source: u64, field: u64| {
        load_cell_by_field(&tx, &s, 64, 0, index, source, field)
    };
    // Capacity: eight bytes, lowest first.
    let got = field(0, SOURCE_INPUT, 0).unwrap();
    assert_eq!(got.bytes, 1000u64.to_le_bytes().to_vec());
    assert_eq!(got.len, 8);
    // Data hash.
    assert_eq!(field(0, SOURCE_INPUT, 1).unwrap().bytes, HELLO_HASH.to_vec());
    // The data hash of no data is all zeros.
    assert_eq!(field(1, SOURCE_INPUT, 1).unwrap().bytes, vec![0u8; 32]);
    // Lock and lock hash.
    assert_eq!(field(0, SOURCE_INPUT, 2).unwrap().bytes, LOCK.to_vec());
    assert_eq!(field(0, SOURCE_INPUT, 3).unwrap().bytes, LOCK_HASH.to_vec());
    // Type and type hash.
    assert_eq!(field(0, SOURCE_INPUT, 4).unwrap().bytes, TYPE.to_vec());
    assert_eq!(field(0, SOURCE_INPUT, 5).unwrap().bytes, TYPE_HASH.to_vec());
    assert_eq!(field(2, SOURCE_INPUT, 4).unwrap_err(), CellFieldError::Code(2));
    assert_eq!(field(2, SOURCE_INPUT, 5).unwrap_err(), CellFieldError::Code(2));
    // Occupied capacity: 8 for the capacity, 5 for the data, 33 + 2 for the
    // lock and 33 for the type script, in units of 10^8.
    assert_eq!(
        field(0, SOURCE_INPUT, 6).unwrap().bytes,
        8_100_000_000u64.to_le_bytes().to_vec()
    );
    // Without a type script and with one byte of data: 8 + 1 + 35.
    assert_eq!(
        field(2, SOURCE_INPUT, 6).unwrap().bytes,
        4_400_000_000u64.to_le_bytes().to_vec()
    );
    // Bytes that are no cell output have no occupied capacity.
    assert_eq!(field(1, SOURCE_INPUT, 6).unwrap_err(), CellFieldError::Capacity);
    // The lookup error comes first.
    assert_eq!(field(9, SOURCE_INPUT, 0).unwrap_err(), CellFieldError::Code(1));
    assert_eq!(field(0, SOURCE_HEADER_DEP, 0).unwrap_err(), CellFieldError::Code(1));
    // Offset and size apply to the field.
    let got = load_cell_by_field(&tx, &s, 2, 1, 0, SOURCE_INPUT, 0).unwrap();
    assert_eq!(got.bytes, vec![3, 0]);
    assert_eq!(got.len, 7);
}

#[test]
fn header_fields() {
    let tx = tx();
    let s = setup(true, false, 0);
    let field = |index: u64, field: u64| {
        load_header_by_field(&tx, &s, 8, 0, index, SOURCE_HEADER_DEP, field)
    };
    assert_eq!(field(0, 0).unwrap().bytes, 3u64.to_le_bytes().to_vec());
    // The epoch starts at block 100 - 40.
    assert_eq!(field(0, 1).unwrap().bytes, 60u64.to_le_bytes().to_vec());
    assert_eq!(field(0, 2).unwrap().bytes, 1000u64.to_le_bytes().to_vec());
    // An epoch may start at block 0.
    assert_eq!(field(1, 1).unwrap().bytes, 0u64.to_le_bytes().to_vec());
    assert_eq!(field(2, 0).unwrap_err(), 1);
    assert_eq!(load_header_by_field(&tx, &s, 8, 0, 2, SOURCE_INPUT, 0).unwrap_err(), 2);
}

#[test]
fn input_fields() {
    let tx = tx();
    let s = setup(true, false, 0);
    let got = load_input_by_field(&tx, &s, 64, 0, 1, SOURCE_INPUT, 0).unwrap();
    assert_eq!(got.bytes, vec![0x11; 36]);
    let got = load_input_by_field(&tx, &s, 64, 0, 1, SOURCE_INPUT, 1).unwrap();
    assert_eq!(got.bytes, 6u64.to_le_bytes().to_vec());
    assert_eq!(load_input_by_field(&tx, &s, 64, 0, 3, SOURCE_INPUT, 1).unwrap_err(), 1);
    assert_eq!(load_input_by_field(&tx, &s, 64, 0, 0, SOURCE_OUTPUT, 1).unwrap_err(), 1);
}

#[test]
fn script_and_transaction_hashes() {
    let tx = tx();
    assert_eq!(load_tx_hash(&tx, 32, 0).bytes, RAW_HASH.to_vec());
    assert_eq!(load_tx_hash(&tx, 4, 30).bytes, RAW_HASH[30..].to_vec());
    assert_eq!(load_script_hash(&tx, &setup(true, false, 0), 32, 0).bytes, LOCK_HASH.to_vec());
    assert_eq!(load_script_hash(&tx, &setup(false, false, 0), 32, 0).bytes, TYPE_HASH.to_vec());
    assert_eq!(load_script(&tx, &setup(false, true, 1), 64, 0).bytes, TYPE.to_vec());
}

#[test]
fn byte_strings_compare_by_content() {
    assert!(bytes_equal(&vec![1, 2, 3], &vec![1, 2, 3]));
    assert!(!bytes_equal(&vec![1, 2, 3], &vec![1, 2, 4]));
    assert!(!bytes_equal(&vec![1, 2, 3], &vec![1, 2]));
    assert!(bytes_equal(&Vec::new(), &Vec::new()));
}
