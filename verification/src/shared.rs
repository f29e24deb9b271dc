//! Domain types that cross module boundaries.

use std::collections::{HashMap, HashSet};

use vstd::prelude::*;

verus! {

/// Round number outside the consensus layer.
pub type Round = u64;

/// Authority index outside the consensus layer.
pub type AuthorityIndex = u64;

/// 20-byte account address.
#[derive(Debug, Clone, PartialEq, Eq, Hash)]
pub struct Address(pub [u8; 20]);

/// 256-bit value (storage slot key or token amount).
#[derive(Debug, Clone, PartialEq, Eq, Hash)]
pub struct U256(pub [u64; 4]);

/// 32-byte transaction hash.
#[derive(Debug, Clone, PartialEq, Eq, Hash)]
pub struct TxHash(pub [u8; 32]);

/// 32-byte block digest.
#[derive(Debug, Clone, PartialEq, Eq, Hash)]
pub struct BlockDigest(pub [u8; 32]);

/// Raw EIP-2718 encoded Ethereum transaction.
#[derive(Debug, PartialEq, Eq)]
pub struct EthSignedTx(pub Vec<u8>);

impl Clone for EthSignedTx {
    fn clone(&self) -> (r: Self)
        ensures
            r.0@ == self.0@,
    {
        let bytes = self.0.clone();
        assert(bytes@ =~= self.0@);
        EthSignedTx(bytes)
    }
}

/// The byte strings of `txs`, in order.
pub open spec fn payload_of(txs: Seq<EthSignedTx>) -> Seq<Seq<u8>> {
    txs.map_values(|t: EthSignedTx| t.0@)
}

/// Identifies a block outside the consensus layer.
#[derive(Debug, Clone, PartialEq, Eq)]
pub struct BlockRef {
    pub round: Round,
    pub author: AuthorityIndex,
    pub digest: BlockDigest,
}

/// Events emitted by consensus.
#[derive(Debug, Clone, PartialEq, Eq)]
pub enum ConsensusEvent {
    /// Optimistic pre-commit: a wave leader has a quorum of votes. Transactions may be
    /// executed speculatively.
    SoftCommit { round: Round, leader: BlockRef, txs: Vec<EthSignedTx> },
    /// Final commit of a sub-DAG. Conflicting speculative results must be discarded.
    HardCommit { subdag: OurCommittedSubDag },
}

/// A committed sub-DAG with its transactions.
#[derive(Debug, Clone, PartialEq, Eq)]
pub struct OurCommittedSubDag {
    pub leader: BlockRef,
    pub blocks: Vec<OurVerifiedBlock>,
    pub timestamp_ms: u64,
    pub commit_index: u64,
}

/// A block of a committed sub-DAG.
#[derive(Debug, Clone, PartialEq, Eq)]
pub struct OurVerifiedBlock {
    pub block_ref: BlockRef,
    pub txs: Vec<EthSignedTx>,
}

/// Unit of work passed from scheduler to executor.
#[derive(Debug, Clone, PartialEq, Eq)]
pub struct TxBatch {
    pub round: Round,
    pub commit_index: u64,
    pub txs: Vec<EthSignedTx>,
    /// `true` if based on a soft commit (speculative), `false` if on a hard commit (final).
    pub is_optimistic: bool,
}

/// Storage changes produced by executing one round of transactions.
#[derive(Debug, Clone)]
pub struct StateDiff {
    pub round: Round,
    pub commit_index: u64,
    pub is_optimistic: bool,
    pub changes: HashMap<Address, AccountDiff>,
}

/// Changes to one account.
#[derive(Debug, Clone)]
pub struct AccountDiff {
    pub balance: Option<U256>,
    pub nonce: Option<u64>,
    pub code: Option<Vec<u8>>,
    /// Slot-level write set.
    pub storage: HashMap<U256, U256>,
}

impl Default for AccountDiff {
    fn default() -> (r: Self)
        ensures
            r.balance is None,
            r.nonce is None,
            r.code is None,
            r.storage@ == Map::<U256, U256>::empty(),
    {
        AccountDiff { balance: None, nonce: None, code: None, storage: HashMap::new() }
    }
}

/// Result of executing one batch.
#[derive(Debug, Clone)]
pub struct RoundExecutionResult {
    pub round: Round,
    pub commit_index: u64,
    pub is_optimistic: bool,
    pub results: Vec<TxExecutionResult>,
    pub state_diff: StateDiff,
    /// Indices into `results` of transactions with read/write conflicts.
    pub conflict_txs: Vec<usize>,
}

/// Result of executing one transaction.
#[derive(Debug, Clone)]
pub enum TxExecutionResult {
    Success { tx_hash: TxHash, gas_used: u64 },
    Revert { tx_hash: TxHash, gas_used: u64, reason: Vec<u8> },
    Invalid { tx_hash: TxHash, error: String },
}

/// Flow control between executor and scheduler.
#[derive(Debug, Clone, Copy, PartialEq, Eq, Structural)]
pub enum BackpressureSignal {
    /// Executor queue is filling up; pause dispatch of soft commits.
    SlowDown,
    /// Executor has capacity; resume normal dispatch.
    Resume,
}

/// Storage slots read.
pub type ReadSet = HashSet<(Address, U256)>;

/// Storage slots written, with their values.
pub type WriteSet = HashMap<(Address, U256), U256>;

#[derive(Debug)]
pub struct ConsensusError(pub String);

#[derive(Debug)]
pub struct ExecutorError(pub String);

#[derive(Debug)]
pub struct CommitError(pub String);

#[derive(Debug)]
pub struct DbError(pub String);

} // verus!
