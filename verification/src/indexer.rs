//! Decisions of the indexing pass.

use vstd::prelude::*;

verus! {

/// What became of one chunk of a file being indexed again.
#[derive(Debug, Clone, Copy, PartialEq, Eq, Structural)]
pub enum ChunkResult {
    /// Embedded and written to the index.
    Stored,
    /// The embedding model gave no vector for it (or it could not be encoded).
    NotEmbedded,
    /// Embedded, but writing it failed.
    NotStored,
}

/// How the transaction that indexes one file again ends.
#[derive(Debug, Clone, Copy, PartialEq, Eq, Structural)]
pub enum TransactionEnd {
    Commit,
    Rollback,
}

/// The end of a file's transaction. The transaction removed the file's old
/// chunks (`old_removed` says whether that succeeded), recorded the file
/// (`file_recorded`), and then handled its `chunk_count` chunks in order,
/// with `results` saying what became of each one handled. It is committed
/// only when the old chunks were removed, the file was recorded and every
/// one of its chunks was embedded and stored; otherwise it is rolled back,
/// so the previous index of the file stays as it was.
pub fn transaction_end(
    old_removed: bool,
    file_recorded: bool,
    chunk_count: usize,
    results: &Vec<ChunkResult>,
) -> (e: TransactionEnd)
    ensures
        e == TransactionEnd::Commit <==> (old_removed && file_recorded && results@.len()
            == chunk_count && forall|i: int|
            0 <= i < results@.len() ==> #[trigger] results@[i] == ChunkResult::Stored),
{
    if !old_removed || !file_recorded || results.len() != chunk_count {
        return TransactionEnd::Rollback;
    }
    let mut i: usize = 0;
    while i < results.len()
        invariant
            i <= results@.len(),
            forall|k: int| 0 <= k < i ==> #[trigger] results@[k] == ChunkResult::Stored,
        decreases results.len() - i,
    {
        match results[i] {
            ChunkResult::Stored => {},
            _ => {
                return TransactionEnd::Rollback;
            },
        }
        i = i + 1;
    }
    TransactionEnd::Commit
}

} // verus!
