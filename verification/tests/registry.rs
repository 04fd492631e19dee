use ckb_x64_simulator::registry::{
    binary_id_bytes, dlopen_key, find_cell_dep, get_simulator_path, lookup, registry_key,
    to_be_bytes,
};
use ckb_x64_simulator::spawn::{copy_fds, get_fds, vm_version_supported};
use ckb_x64_simulator::transaction::{CellOutput, MockCell, MockTransaction, RunningSetup};
use ckb_x64_simulator::utils::Fd;

fn entry(key: &str, path: &str) -> (String, String) {
    (key.to_string(), path.to_string())
}

#[test]
fn keys_are_0x_and_lower_case_hex() {
    assert_eq!(registry_key(&vec![0x00, 0xab, 0xff, 0x10]), "0x00abff10");
    assert_eq!(registry_key(&Vec::new()), "0x");
    assert_eq!(registry_key(&vec![0x0f, 0xf0, 0x9a]), "0x0ff09a");
}

#[test]
fn numbers_go_highest_byte_first() {
    assert_eq!(to_be_bytes(0x0102_0304), [1, 2, 3, 4]);
    assert_eq!(to_be_bytes(0), [0, 0, 0, 0]);
    assert_eq!(to_be_bytes(u32::MAX), [255, 255, 255, 255]);
    assert_eq!(to_be_bytes(256), [0, 0, 1, 0]);
}

#[test]
fn a_binary_is_named_by_hash_type_offset_and_length() {
    let id = binary_id_bytes(&[0xaa; 32], 2, 0x0102_0304, 5);
    assert_eq!(id.len(), 41);
    assert_eq!(&id[..32], &[0xaa; 32]);
    assert_eq!(&id[32..], &[2, 1, 2, 3, 4, 0, 0, 0, 5]);
}

#[test]
fn the_exact_key_wins_over_the_wildcard() {
    let hash = [0x11u8; 32];
    let exact = format!("0x{}{}", "11".repeat(32), "020000000000000000");
    let any = format!("0x{}{}", "11".repeat(32), "ff0000000000000000");
    let registry = vec![entry(&any, "/bin/any"), entry(&exact, "/bin/exact")];
    assert_eq!(get_simulator_path(&registry, &hash, 2, 0, 0), Some("/bin/exact".to_string()));
    // Another hash type falls back to the wildcard.
    assert_eq!(get_simulator_path(&registry, &hash, 1, 0, 0), Some("/bin/any".to_string()));
    // Another offset or length matches neither.
    assert_eq!(get_simulator_path(&registry, &hash, 2, 1, 0), None);
    assert_eq!(get_simulator_path(&registry, &hash, 2, 0, 1), None);
    assert_eq!(get_simulator_path(&registry, &[0x12u8; 32], 2, 0, 0), None);
    assert_eq!(get_simulator_path(&Vec::new(), &hash, 2, 0, 0), None);
}

#[test]
fn lookup_takes_the_first_pair_with_the_key() {
    let registry = vec![entry("0x01", "a"), entry("0x02", "b"), entry("0x01", "c")];
    assert_eq!(lookup(&registry, &"0x01".to_string()), Some(&"a".to_string()));
    assert_eq!(lookup(&registry, &"0x02".to_string()), Some(&"b".to_string()));
    assert_eq!(lookup(&registry, &"0x03".to_string()), None);
    // Keys are compared as they are written.
    assert_eq!(lookup(&registry, &"0X01".to_string()), None);
}

#[test]
fn the_key_of_a_library_is_hash_and_hash_type() {
    assert_eq!(dlopen_key(&[0xab; 2], 1), "0xabab01");
    assert_eq!(dlopen_key(&[0x00; 32], 0), format!("0x{}", "00".repeat(33)));
}

fn cell(data: &[u8], type_: Option<Vec<u8>>) -> MockCell {
    MockCell {
        output: CellOutput { bytes: Vec::new(), capacity: 0, lock: Vec::new(), type_ },
        data: data.to_vec(),
        header: None,
    }
}

#[test]
fn a_dependency_is_found_by_data_hash_or_type_hash() {
    // The hash of the data "hello", and the hash of the script below.
    let hello_hash: Vec<u8> = vec![
        45, 161, 40, 147, 115, 169, 246, 183, 237, 33, 219, 148, 143, 77, 197, 217, 66, 207, 64,
        35, 234, 239, 29, 90, 43, 26, 69, 185, 209, 45, 16, 54,
    ];
    let script: Vec<u8> = vec![
        53, 0, 0, 0, 16, 0, 0, 0, 48, 0, 0, 0, 49, 0, 0, 0, 2, 2, 2, 2, 2, 2, 2, 2, 2, 2, 2, 2, 2,
        2, 2, 2, 2, 2, 2, 2, 2, 2, 2, 2, 2, 2, 2, 2, 2, 2, 2, 2, 1, 0, 0, 0, 0,
    ];
    let script_hash: Vec<u8> = vec![
        230, 225, 13, 253, 255, 147, 14, 34, 54, 109, 153, 159, 202, 43, 65, 208, 253, 14, 77, 35,
        234, 37, 33, 108, 147, 123, 197, 220, 108, 83, 51, 43,
    ];
    let tx = MockTransaction {
        bytes: Vec::new(),
        raw: Vec::new(),
        inputs: Vec::new(),
        outputs: Vec::new(),
        outputs_data: Vec::new(),
        witnesses: Vec::new(),
        mock_inputs: Vec::new(),
        mock_cell_deps: vec![
            cell(b"other", None),
            cell(b"typed", Some(script.clone())),
            cell(b"hello", None),
            cell(b"hello", Some(script)),
        ],
        header_deps: Vec::new(),
    };
    assert_eq!(find_cell_dep(&tx, &hello_hash, 0).unwrap().data, b"hello".to_vec());
    assert_eq!(find_cell_dep(&tx, &hello_hash, 2).unwrap().output.type_, None);
    assert_eq!(find_cell_dep(&tx, &script_hash, 1).unwrap().data, b"typed".to_vec());
    // A data hash is no type hash and the other way round.
    assert!(find_cell_dep(&tx, &hello_hash, 1).is_none());
    assert!(find_cell_dep(&tx, &script_hash, 0).is_none());
    assert!(find_cell_dep(&tx, &hello_hash[..31].to_vec(), 0).is_none());
}

#[test]
fn a_list_of_pipe_ends_stops_at_the_first_zero() {
    assert_eq!(get_fds(&[4, 3, 0]), vec![Fd(4), Fd(3)]);
    assert_eq!(get_fds(&[0]), Vec::<Fd>::new());
    assert_eq!(get_fds(&[]), Vec::<Fd>::new());
    assert_eq!(get_fds(&[7, 0, 9, 0]), vec![Fd(7)]);
    assert_eq!(get_fds(&[7, 9]), vec![Fd(7), Fd(9)]);
    assert_eq!(copy_fds(&[Fd(2), Fd(3)]), vec![2, 3]);
    assert_eq!(copy_fds(&[]), Vec::<u64>::new());
}

#[test]
fn the_later_syscalls_are_there_for_versions_1_and_2() {
    let setup = |vm_version: i32| RunningSetup {
        is_lock_script: true,
        is_output: false,
        script_index: 0,
        vm_version,
        native_binaries: Vec::new(),
        run_type: None,
    };
    assert!(!vm_version_supported(&setup(0)));
    assert!(vm_version_supported(&setup(1)));
    assert!(vm_version_supported(&setup(2)));
    assert!(!vm_version_supported(&setup(3)));
    assert!(!vm_version_supported(&setup(-1)));
}
