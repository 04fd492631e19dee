use vstd::prelude::*;

verus! {

/// How the host runs the binary that stands for a script.
#[derive(Clone, Copy, Debug, PartialEq, Eq, Structural)]
pub enum RunningType {
    Executable,
    DynamicLib,
}

/// Which script of the transaction is running, and where its native
/// binaries are found. `native_binaries` pairs a registry key with a path;
/// a lookup takes the first pair that carries the key.
#[derive(Clone, Debug, PartialEq, Eq)]
pub struct RunningSetup {
    pub is_lock_script: bool,
    pub is_output: bool,
    pub script_index: u64,
    pub vm_version: i32,
    pub native_binaries: Vec<(String, String)>,
    pub run_type: Option<RunningType>,
}

/// A cell output: its serialized form and the parts of it that loaders read.
/// Scripts are held in their serialized form; two scripts are the same
/// script exactly when their bytes are equal.
#[derive(Clone, Debug, PartialEq, Eq)]
pub struct CellOutput {
    pub bytes: Vec<u8>,
    pub capacity: u64,
    pub lock: Vec<u8>,
    pub type_: Option<Vec<u8>>,
}

/// A cell that the transaction consumes or depends on, resolved ahead of
/// time: the output, its data, and the hash of the block that holds it when
/// that block is known.
#[derive(Clone, Debug, PartialEq, Eq)]
pub struct MockCell {
    pub output: CellOutput,
    pub data: Vec<u8>,
    pub header: Option<Vec<u8>>,
}

/// A transaction input: its serialized form, the serialized out-point it
/// spends and its `since` value.
#[derive(Clone, Debug, PartialEq, Eq)]
pub struct CellInput {
    pub bytes: Vec<u8>,
    pub previous_output: Vec<u8>,
    pub since: u64,
}

/// A block header: its hash, its serialized form, the block number and the
/// three parts of its epoch.
#[derive(Clone, Debug, PartialEq, Eq)]
pub struct HeaderView {
    pub hash: Vec<u8>,
    pub data: Vec<u8>,
    pub number: u64,
    pub epoch_number: u64,
    pub epoch_index: u64,
    pub epoch_length: u64,
}

/// The transaction under verification together with everything that was
/// resolved for it. `bytes` is the serialized transaction and `raw` the
/// serialized part of it that the transaction hash covers.
#[derive(Clone, Debug, PartialEq, Eq)]
pub struct MockTransaction {
    pub bytes: Vec<u8>,
    pub raw: Vec<u8>,
    pub inputs: Vec<CellInput>,
    pub outputs: Vec<CellOutput>,
    pub outputs_data: Vec<Vec<u8>>,
    pub witnesses: Vec<Vec<u8>>,
    pub mock_inputs: Vec<MockCell>,
    pub mock_cell_deps: Vec<MockCell>,
    pub header_deps: Vec<HeaderView>,
}

impl MockTransaction {
    /// Every output comes with its data.
    pub open spec fn wf(&self) -> bool {
        self.outputs@.len() == self.outputs_data@.len()
    }

    /// Whether every output comes with its data.
    pub fn is_wf(&self) -> (ok: bool)
        ensures
            ok == self.wf(),
    {
        self.outputs.len() == self.outputs_data.len()
    }

    /// The cell that carries the running script, when `setup` points at one.
    pub open spec fn script_cell(&self, setup: &RunningSetup) -> Option<CellOutput> {
        if setup.is_output {
            if setup.script_index < self.outputs@.len() {
                Some(self.outputs@[setup.script_index as int])
            } else {
                None
            }
        } else {
            if setup.script_index < self.mock_inputs@.len() {
                Some(self.mock_inputs@[setup.script_index as int].output)
            } else {
                None
            }
        }
    }

    /// The serialized running script: the lock or the type script of the
    /// cell that `setup` points at.
    pub open spec fn current_script(&self, setup: &RunningSetup) -> Option<Seq<u8>> {
        match self.script_cell(setup) {
            Some(cell) => if setup.is_lock_script {
                Some(cell.lock@)
            } else {
                match cell.type_ {
                    Some(t) => Some(t@),
                    None => None,
                }
            },
            None => None,
        }
    }

    /// Whether the resolved input `i` belongs to the group of `script`.
    pub open spec fn input_in_group(&self, setup: &RunningSetup, script: Seq<u8>, i: int) -> bool {
        let cell = self.mock_inputs@[i].output;
        if setup.is_lock_script {
            cell.lock@ == script
        } else {
            cell.type_ is Some && cell.type_->Some_0@ == script
        }
    }

    /// Whether output `i` belongs to the group of `script`.
    pub open spec fn output_in_group(&self, script: Seq<u8>, i: int) -> bool {
        let cell = self.outputs@[i];
        cell.type_ is Some && cell.type_->Some_0@ == script
    }

    /// The positions, in ascending order, of the first `n` resolved inputs
    /// that belong to the group of `script`.
    pub open spec fn input_group_upto(&self, setup: &RunningSetup, script: Seq<u8>, n: nat) -> Seq<int>
        decreases n,
    {
        if n == 0 {
            Seq::empty()
        } else {
            let before = self.input_group_upto(setup, script, (n - 1) as nat);
            if self.input_in_group(setup, script, n - 1) {
                before.push(n - 1)
            } else {
                before
            }
        }
    }

    /// The positions, in ascending order, of the first `n` outputs that
    /// belong to the group of `script`.
    pub open spec fn output_group_upto(&self, script: Seq<u8>, n: nat) -> Seq<int>
        decreases n,
    {
        if n == 0 {
            Seq::empty()
        } else {
            let before = self.output_group_upto(script, (n - 1) as nat);
            if self.output_in_group(script, n - 1) {
                before.push(n - 1)
            } else {
                before
            }
        }
    }

    /// The input group of the running script.
    pub open spec fn input_group(&self, setup: &RunningSetup) -> Seq<int>
        recommends
            self.current_script(setup) is Some,
    {
        self.input_group_upto(setup, self.current_script(setup)->Some_0, self.mock_inputs@.len())
    }

    /// The output group of the running script.
    pub open spec fn output_group(&self, setup: &RunningSetup) -> Seq<int>
        recommends
            self.current_script(setup) is Some,
    {
        self.output_group_upto(self.current_script(setup)->Some_0, self.outputs@.len())
    }

    /// Every member of an input group is a position below the bound it was
    /// collected up to, and the members ascend.
    pub proof fn lemma_input_group_bounded(&self, setup: &RunningSetup, script: Seq<u8>, n: nat)
        requires
            n <= self.mock_inputs@.len(),
        ensures
            self.input_group_upto(setup, script, n).len() <= n,
            forall|k: int|
                0 <= k < self.input_group_upto(setup, script, n).len() ==> {
                    &&& 0 <= (#[trigger] self.input_group_upto(setup, script, n)[k]) < n
                    &&& self.input_in_group(
                        setup,
                        script,
                        self.input_group_upto(setup, script, n)[k],
                    )
                },
            forall|j: int, k: int|
                0 <= j < k < self.input_group_upto(setup, script, n).len()
                    ==> self.input_group_upto(setup, script, n)[j] < self.input_group_upto(
                    setup,
                    script,
                    n,
                )[k],
        decreases n,
    {
        if n > 0 {
            self.lemma_input_group_bounded(setup, script, (n - 1) as nat);
        }
    }

    /// Every member of an output group is a position below the bound it was
    /// collected up to, and the members ascend.
    pub proof fn lemma_output_group_bounded(&self, script: Seq<u8>, n: nat)
        requires
            n <= self.outputs@.len(),
        ensures
            self.output_group_upto(script, n).len() <= n,
            forall|k: int|
                0 <= k < self.output_group_upto(script, n).len() ==> {
                    &&& 0 <= (#[trigger] self.output_group_upto(script, n)[k]) < n
                    &&& self.output_in_group(script, self.output_group_upto(script, n)[k])
                },
            forall|j: int, k: int|
                0 <= j < k < self.output_group_upto(script, n).len() ==> self.output_group_upto(
                    script,
                    n,
                )[j] < self.output_group_upto(script, n)[k],
        decreases n,
    {
        if n > 0 {
            self.lemma_output_group_bounded(script, (n - 1) as nat);
        }
    }
}

/// Whether two byte strings hold the same bytes.
pub fn bytes_equal(a: &Vec<u8>, b: &Vec<u8>) -> (same: bool)
    ensures
        same == (a@ == b@),
{
    if a.len() != b.len() {
        return false;
    }
    let mut i: usize = 0;
    while i < a.len()
        invariant
            i <= a.len(),
            a.len() == b.len(),
            forall|k: int| 0 <= k < i ==> a@[k] == b@[k],
        decreases a.len() - i,
    {
        if a[i] != b[i] {
            return false;
        }
        i += 1;
    }
    assert(a@ =~= b@);
    true
}

} // verus!
