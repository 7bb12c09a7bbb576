//! EVM execution backends of the L2 VM: which backend runs a block, the
//! names and GPU capability of the executors, and the gas accounting they
//! apply to a block of transactions.

use vstd::prelude::*;

verus! {

/// Which EVM execution backend to use.
#[derive(Debug, Clone, Copy, PartialEq, Eq, Structural)]
pub enum EvmBackend {
    /// Built-in Rust revm (default).
    Revm,
    /// C++ EVM via FFI (highest performance).
    Cevm,
    /// Go EVM via subprocess (maximum compatibility).
    GoEvm,
}

/// The display name of a backend.
pub open spec fn backend_name(b: EvmBackend) -> Seq<char> {
    match b {
        EvmBackend::Revm => "revm"@,
        EvmBackend::Cevm => "cevm"@,
        EvmBackend::GoEvm => "go-evm"@,
    }
}

impl EvmBackend {
    /// The display name of the backend.
    pub fn as_str(&self) -> (s: &'static str)
        ensures
            s@ == backend_name(*self),
    {
        match self {
            EvmBackend::Revm => "revm",
            EvmBackend::Cevm => "cevm",
            EvmBackend::GoEvm => "go-evm",
        }
    }

    /// The display name of the backend, as a `String`.
    pub fn to_string(&self) -> (s: String)
        ensures
            s@ == backend_name(*self),
    {
        String::from_str(self.as_str())
    }
}

/// A transaction of a block, as the executors see it.
#[derive(Debug, Clone)]
pub struct Transaction {
    /// The RLP-encoded transaction.
    pub raw_bytes: Vec<u8>,
    /// Position in the block.
    pub tx_index: u64,
    /// Gas recorded for the transaction.
    pub gas_used: u64,
}

/// Intrinsic gas of a transaction.
pub const INTRINSIC_GAS: u64 = 21_000;

/// Gas charged for a transaction: the intrinsic 21000, nothing for an
/// empty one.
pub open spec fn tx_gas(tx: Transaction) -> nat {
    if tx.raw_bytes@.len() == 0 {
        0
    } else {
        21_000
    }
}

/// Gas of a sequence of transactions.
pub open spec fn total_gas_of(txs: Seq<Transaction>) -> nat
    decreases txs.len(),
{
    if txs.len() == 0 {
        0
    } else {
        total_gas_of(txs.drop_last()) + tx_gas(txs.last())
    }
}

/// The gas accounting of an executed block.
#[derive(Debug, Clone)]
pub struct BlockGas {
    /// Gas used per transaction, in input order.
    pub gas_used: Vec<u64>,
    /// Total gas consumed by the block.
    pub total_gas: u64,
    /// State conflicts detected.
    pub conflicts: u32,
    /// Transaction re-executions due to conflicts.
    pub re_executions: u32,
}

proof fn lemma_total_gas_bound(txs: Seq<Transaction>)
    ensures
        total_gas_of(txs) <= 21_000 * txs.len(),
    decreases txs.len(),
{
    if txs.len() > 0 {
        lemma_total_gas_bound(txs.drop_last());
    }
}

/// Charges every transaction its intrinsic gas.
pub fn block_gas(txs: &[Transaction]) -> (r: BlockGas)
    requires
        21_000 * txs@.len() <= u64::MAX,
    ensures
        r.gas_used@.len() == txs@.len(),
        forall|i: int| 0 <= i < txs@.len() ==> r.gas_used@[i] == tx_gas(#[trigger] txs@[i]),
        r.total_gas == total_gas_of(txs@),
        r.conflicts == 0,
        r.re_executions == 0,
{
    let mut gas_used: Vec<u64> = Vec::new();
    let mut total: u64 = 0;
    let mut i: usize = 0;
    while i < txs.len()
        invariant
            i <= txs@.len(),
            21_000 * txs@.len() <= u64::MAX,
            gas_used@.len() == i,
            forall|k: int| 0 <= k < i ==> gas_used@[k] == tx_gas(#[trigger] txs@[k]),
            total == total_gas_of(txs@.take(i as int)),
        decreases txs.len() - i,
    {
        proof {
            assert(txs@.take(i + 1).drop_last() =~= txs@.take(i as int));
            lemma_total_gas_bound(txs@.take(i as int));
            assert(21_000 * i <= 21_000 * txs@.len()) by (nonlinear_arith)
                requires
                    i <= txs@.len(),
            ;
        }
        let g: u64 = if txs[i].raw_bytes.len() == 0 {
            0
        } else {
            INTRINSIC_GAS
        };
        gas_used.push(g);
        total = total + g;
        i = i + 1;
    }
    assert(txs@.take(txs@.len() as int) =~= txs@);
    BlockGas { gas_used, total_gas: total, conflicts: 0, re_executions: 0 }
}

/// Built-in Rust EVM backend: sequential, no GPU.
#[derive(Debug, Clone, Copy)]
pub struct RevmExecutor;

impl RevmExecutor {
    /// `"revm"`.
    pub fn name(&self) -> (s: &'static str)
        ensures
            s@ == "revm"@,
    {
        "revm"
    }

    /// Never GPU capable.
    pub fn gpu_capable(&self) -> (b: bool)
        ensures
            !b,
    {
        false
    }

    /// Executes a block: intrinsic gas per transaction.
    pub fn execute_block(&self, txs: &[Transaction]) -> (r: BlockGas)
        requires
            21_000 * txs@.len() <= u64::MAX,
        ensures
            r.gas_used@.len() == txs@.len(),
            forall|i: int| 0 <= i < txs@.len() ==> r.gas_used@[i] == tx_gas(#[trigger] txs@[i]),
            r.total_gas == total_gas_of(txs@),
            r.conflicts == 0,
            r.re_executions == 0,
    {
        block_gas(txs)
    }
}

/// C++ EVM backend. Modes: 0 CPU sequential, 1 CPU parallel, 2 GPU Metal,
/// 3 GPU CUDA.
#[derive(Debug, Clone, Copy)]
pub struct CevmExecutor {
    backend_mode: u8,
}

impl CevmExecutor {
    /// The backend mode.
    pub closed spec fn mode(&self) -> u8 {
        self.backend_mode
    }

    /// An executor in the given backend mode.
    pub fn new(backend_mode: u8) -> (e: CevmExecutor)
        ensures
            e.mode() == backend_mode,
    {
        CevmExecutor { backend_mode }
    }

    /// An executor in the best mode available without the linked library:
    /// CPU parallel.
    pub fn auto() -> (e: CevmExecutor)
        ensures
            e.mode() == 1,
    {
        CevmExecutor { backend_mode: 1 }
    }

    /// The backend mode.
    pub fn backend_mode(&self) -> (m: u8)
        ensures
            m == self.mode(),
    {
        self.backend_mode
    }

    /// `"cevm"`.
    pub fn name(&self) -> (s: &'static str)
        ensures
            s@ == "cevm"@,
    {
        "cevm"
    }

    /// GPU capable in the GPU modes (2 and up).
    pub fn gpu_capable(&self) -> (b: bool)
        ensures
            b == (self.mode() >= 2),
    {
        self.backend_mode >= 2
    }

    /// Executes a block: intrinsic gas per transaction.
    pub fn execute_block(&self, txs: &[Transaction]) -> (r: BlockGas)
        requires
            21_000 * txs@.len() <= u64::MAX,
        ensures
            r.gas_used@.len() == txs@.len(),
            forall|i: int| 0 <= i < txs@.len() ==> r.gas_used@[i] == tx_gas(#[trigger] txs@[i]),
            r.total_gas == total_gas_of(txs@),
            r.conflicts == 0,
            r.re_executions == 0,
    {
        block_gas(txs)
    }
}

/// Go EVM backend run as a subprocess binary.
#[derive(Debug, Clone)]
pub struct GoEvmExecutor {
    binary_path: String,
}

impl GoEvmExecutor {
    /// The path of the binary.
    pub closed spec fn path(&self) -> Seq<char> {
        self.binary_path@
    }

    /// An executor for the binary at `binary_path`.
    pub fn new(binary_path: String) -> (e: GoEvmExecutor)
        ensures
            e.path() == binary_path@,
    {
        GoEvmExecutor { binary_path }
    }

    /// The path of the binary.
    pub fn binary_path(&self) -> (s: &str)
        ensures
            s@ == self.path(),
    {
        self.binary_path.as_str()
    }

    /// `"go-evm"`.
    pub fn name(&self) -> (s: &'static str)
        ensures
            s@ == "go-evm"@,
    {
        "go-evm"
    }

    /// Never GPU capable.
    pub fn gpu_capable(&self) -> (b: bool)
        ensures
            !b,
    {
        false
    }

    /// Executes a block when the binary exists (`binary_exists`, looked up
    /// by the caller): intrinsic gas per transaction; else the error that
    /// names the missing binary.
    pub fn execute_block(&self, txs: &[Transaction], binary_exists: bool) -> (r: Result<BlockGas, String>)
        requires
            21_000 * txs@.len() <= u64::MAX,
        ensures
            !binary_exists ==> (r matches Err(m) && m@ == "go-evm binary not found at "@ + self.path()
                + ": build with `go build` in luxfi/cevm"@),
            binary_exists ==> (r matches Ok(g) && g.gas_used@.len() == txs@.len() && (forall|i: int|
                0 <= i < txs@.len() ==> g.gas_used@[i] == tx_gas(#[trigger] txs@[i]))
                && g.total_gas == total_gas_of(txs@) && g.conflicts == 0 && g.re_executions == 0),
    {
        if !binary_exists {
            let mut m = String::from_str("go-evm binary not found at ");
            m.append(self.binary_path.as_str());
            m.append(": build with `go build` in luxfi/cevm");
            return Err(m);
        }
        Ok(block_gas(txs))
    }
}

/// Where the cevm binary is looked for under a home directory.
pub fn cevm_probe_path(home: &str) -> (p: String)
    ensures
        p@ == home@ + "/work/luxcpp/evm/build/bin/cevm"@,
{
    let mut p = String::from_str(home);
    p.append("/work/luxcpp/evm/build/bin/cevm");
    p
}

/// The backend auto-detection picks: cevm when its binary is present,
/// else revm. The Go EVM is never picked automatically.
pub fn auto_detect_backend(cevm_present: bool) -> (b: EvmBackend)
    ensures
        b == (if cevm_present {
            EvmBackend::Cevm
        } else {
            EvmBackend::Revm
        }),
{
    if cevm_present {
        EvmBackend::Cevm
    } else {
        EvmBackend::Revm
    }
}

} // verus!
