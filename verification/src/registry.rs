use vstd::prelude::*;
use vstd::string::StringExecFns;
use crate::digest::{calc_data_hash, calc_script_hash, data_hash, script_hash};
use crate::transaction::{bytes_equal, MockCell, MockTransaction};

verus! {

/// The lower-case hexadecimal digit of a value below 16.
pub open spec fn hex_digit(n: int) -> char {
    if n < 10 {
        (48 + n) as char
    } else {
        (87 + n) as char
    }
}

/// The lower-case hexadecimal text of a byte string: two digits for each
/// byte, the higher half first.
pub open spec fn hex_of(bytes: Seq<u8>) -> Seq<char> {
    Seq::new(
        2 * bytes.len(),
        |i: int|
            if i % 2 == 0 {
                hex_digit(bytes[i / 2] as int / 16)
            } else {
                hex_digit(bytes[i / 2] as int % 16)
            },
    )
}

/// The four bytes of a number, highest first.
pub open spec fn be32(x: u32) -> Seq<u8> {
    seq![
        (x / 0x100_0000) as u8,
        (x / 0x1_0000 % 0x100) as u8,
        (x / 0x100 % 0x100) as u8,
        (x % 0x100) as u8,
    ]
}

/// The bytes that name a native binary: the code hash, the hash type, and
/// the offset and the length, each highest byte first.
pub open spec fn binary_id(code_hash: Seq<u8>, hash_type: u8, offset: u32, length: u32) -> Seq<u8> {
    code_hash + seq![hash_type] + be32(offset) + be32(length)
}

/// The key under which a byte string is filed: `0x` and its hexadecimal
/// text.
pub open spec fn key_of(id: Seq<u8>) -> Seq<char> {
    "0x"@ + hex_of(id)
}

/// The position of the first pair of `registry` filed under `key`; the
/// length of the registry when there is none.
pub open spec fn key_position(registry: Seq<(String, String)>, key: Seq<char>, from: nat) -> nat
    decreases registry.len() - from,
{
    if from >= registry.len() {
        registry.len()
    } else if registry[from as int].0@ == key {
        from
    } else {
        key_position(registry, key, from + 1)
    }
}

/// The path filed under `key`, if any.
pub open spec fn path_of(registry: Seq<(String, String)>, key: Seq<char>) -> Option<Seq<char>> {
    let at = key_position(registry, key, 0);
    if at < registry.len() {
        Some(registry[at as int].1@)
    } else {
        None
    }
}

/// The path of the native binary for a code cell: the one filed for the
/// hash type, else the one filed for any hash type, which is written 0xFF.
pub open spec fn simulator_path(
    registry: Seq<(String, String)>,
    code_hash: Seq<u8>,
    hash_type: u8,
    offset: u32,
    length: u32,
) -> Option<Seq<char>> {
    let exact = path_of(registry, key_of(binary_id(code_hash, hash_type, offset, length)));
    if exact is Some {
        exact
    } else {
        path_of(registry, key_of(binary_id(code_hash, 0xFF, offset, length)))
    }
}

/// Calls `faster_hex::hex_string`. Trusted: the result is the lower-case
/// hexadecimal text of the bytes, two digits for each, with nothing before,
/// between or after. Left out is an input so long that its text would not
/// fit a string, for which the call panics.
#[verifier::external_body]
pub(crate) fn hex_string(src: &Vec<u8>) -> (text: String)
    requires
        2 * src@.len() <= isize::MAX,
    ensures
        text@ == hex_of(src@),
{
    faster_hex::hex_string(src)
}

/// The key under which `id` is filed in a registry of native binaries.
pub fn registry_key(id: &Vec<u8>) -> (key: String)
    requires
        2 * id@.len() <= isize::MAX,
    ensures
        key@ == key_of(id@),
{
    let hex = hex_string(id);
    String::from_str("0x").concat(hex.as_str())
}

/// The four bytes of `x`, highest first.
pub fn to_be_bytes(x: u32) -> (bytes: [u8; 4])
    ensures
        bytes@ == be32(x),
{
    assert((x >> 24) == x / 0x100_0000 && (x >> 24) < 0x100) by (bit_vector);
    assert(((x >> 16) & 0xff) == x / 0x1_0000 % 0x100 && ((x >> 16) & 0xff) < 0x100) by (bit_vector);
    assert(((x >> 8) & 0xff) == x / 0x100 % 0x100 && ((x >> 8) & 0xff) < 0x100) by (bit_vector);
    assert((x & 0xff) == x % 0x100 && (x & 0xff) < 0x100) by (bit_vector);
    let bytes = [(x >> 24) as u8, ((x >> 16) & 0xff) as u8, ((x >> 8) & 0xff) as u8, (x & 0xff) as u8];
    assert(bytes@ =~= be32(x));
    bytes
}

/// Looks `key` up in a registry of native binaries.
pub fn lookup<'a>(registry: &'a Vec<(String, String)>, key: &String) -> (path: Option<&'a String>)
    ensures
        match path {
            Some(found) => path_of(registry@, key@) == Some(found@),
            None => path_of(registry@, key@) is None,
        },
{
    let mut i: usize = 0;
    while i < registry.len()
        invariant
            i <= registry.len(),
            key_position(registry@, key@, 0) == key_position(registry@, key@, i as nat),
        decreases registry.len() - i,
    {
        if registry[i].0 == *key {
            return Some(&registry[i].1);
        }
        i += 1;
    }
    None
}

/// The bytes that name a native binary.
pub fn binary_id_bytes(code_hash: &[u8], hash_type: u8, offset: u32, length: u32) -> (id: Vec<u8>)
    ensures
        id@ == binary_id(code_hash@, hash_type, offset, length),
{
    let mut buffer: Vec<u8> = Vec::new();
    buffer.extend_from_slice(code_hash);
    buffer.push(hash_type);
    let offset_bytes = to_be_bytes(offset);
    buffer.extend_from_slice(offset_bytes.as_slice());
    let length_bytes = to_be_bytes(length);
    buffer.extend_from_slice(length_bytes.as_slice());
    assert(buffer@ =~= binary_id(code_hash@, hash_type, offset, length));
    buffer
}

/// Finds the path of the native binary that stands for a code cell: first
/// under the given hash type, then under 0xFF, which stands for any.
pub fn get_simulator_path(
    registry: &Vec<(String, String)>,
    code_hash: &[u8],
    hash_type: u8,
    offset: u32,
    length: u32,
) -> (filename: Option<String>)
    requires
        2 * (code_hash@.len() + 9) <= isize::MAX,
    ensures
        match filename {
            Some(path) => simulator_path(registry@, code_hash@, hash_type, offset, length) == Some(
                path@,
            ),
            None => simulator_path(registry@, code_hash@, hash_type, offset, length) is None,
        },
{
    let exact_key = registry_key(&binary_id_bytes(code_hash, hash_type, offset, length));
    if let Some(path) = lookup(registry, &exact_key) {
        return Some(path.clone());
    }
    let any_key = registry_key(&binary_id_bytes(code_hash, 0xFF, offset, length));
    match lookup(registry, &any_key) {
        Some(path) => Some(path.clone()),
        None => None,
    }
}

/// Whether a resolved cell dependency is the one that `hash` names: by the
/// hash of its type script when `hash_type` is 1, by the hash of its data
/// otherwise.
pub open spec fn names_cell_dep(cell: MockCell, hash: Seq<u8>, hash_type: u8) -> bool {
    if hash_type == 1 {
        cell.output.type_ is Some && script_hash(cell.output.type_->Some_0@) == hash
    } else {
        data_hash(cell.data@) == hash
    }
}

/// The position of the first cell dependency that `hash` names; the number
/// of cell dependencies when there is none.
pub open spec fn cell_dep_position(tx: &MockTransaction, hash: Seq<u8>, hash_type: u8, from: nat) -> nat
    decreases tx.mock_cell_deps@.len() - from,
{
    if from >= tx.mock_cell_deps@.len() {
        tx.mock_cell_deps@.len()
    } else if names_cell_dep(tx.mock_cell_deps@[from as int], hash, hash_type) {
        from
    } else {
        cell_dep_position(tx, hash, hash_type, from + 1)
    }
}

/// Finds the first cell dependency that `hash` names.
pub fn find_cell_dep<'a>(tx: &'a MockTransaction, hash: &Vec<u8>, hash_type: u8) -> (found: Option<
    &'a MockCell,
>)
    ensures
        match found {
            Some(cell) => {
                &&& cell_dep_position(tx, hash@, hash_type, 0) < tx.mock_cell_deps@.len()
                &&& *cell == tx.mock_cell_deps@[cell_dep_position(tx, hash@, hash_type, 0) as int]
            },
            None => cell_dep_position(tx, hash@, hash_type, 0) == tx.mock_cell_deps@.len(),
        },
{
    let mut i: usize = 0;
    while i < tx.mock_cell_deps.len()
        invariant
            i <= tx.mock_cell_deps.len(),
            cell_dep_position(tx, hash@, hash_type, 0) == cell_dep_position(
                tx,
                hash@,
                hash_type,
                i as nat,
            ),
        decreases tx.mock_cell_deps.len() - i,
    {
        let cell = &tx.mock_cell_deps[i];
        let named = if hash_type == 1 {
            match &cell.output.type_ {
                Some(script) => bytes_equal(&calc_script_hash(script), hash),
                None => false,
            }
        } else {
            bytes_equal(&calc_data_hash(&cell.data), hash)
        };
        if named {
            return Some(cell);
        }
        i += 1;
    }
    None
}

/// The key under which the native library for a dependency cell is filed:
/// `0x` and the hexadecimal text of the cell's hash and the hash type.
pub fn dlopen_key(dep_cell_hash: &[u8], hash_type: u8) -> (key: String)
    requires
        2 * (dep_cell_hash@.len() + 1) <= isize::MAX,
    ensures
        key@ == key_of(dep_cell_hash@ + seq![hash_type]),
{
    let mut buffer: Vec<u8> = Vec::new();
    buffer.extend_from_slice(dep_cell_hash);
    buffer.push(hash_type);
    assert(buffer@ =~= dep_cell_hash@ + seq![hash_type]);
    registry_key(&buffer)
}

} // verus!
