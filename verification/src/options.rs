//! Choices that callers make, and what a scan reports back.
use vstd::prelude::*;

verus! {

/// How a writer compresses the blocks of a table.
#[derive(Debug, Clone, Copy, PartialEq, Eq, Structural)]
pub enum CompressionPolicy {
    /// Blocks are stored as they are.
    Uncompressed,
    /// Blocks are compressed with Snappy.
    Snappy,
    /// Blocks are compressed with zlib.
    Zlib,
}

/// What a visitor wants after an entry.
#[derive(Debug, Clone, Copy, PartialEq, Eq, Structural)]
pub enum VisitorControl {
    /// Go on with the next entry.
    Continue,
    /// End the scan; this is no error.
    Stop,
}

/// What a scan did.
#[derive(Debug, Clone, Copy, PartialEq, Eq, Structural)]
pub struct ScanOutcome {
    /// Entries that were counted.
    pub visited: usize,
    /// Value bytes of the entries that were counted.
    pub bytes_read: usize,
    /// Whether the visitor ended the scan.
    pub stopped: bool,
    /// Tables that were scanned to their end, or to the visitor's stop.
    pub tables_scanned: usize,
}

/// `a + b`, or the largest `usize` where that is larger.
pub open spec fn capped_sum(a: usize, b: nat) -> usize {
    if a + b <= usize::MAX {
        (a + b) as usize
    } else {
        usize::MAX
    }
}

/// The outcome of a scan that has not seen anything.
pub open spec fn empty_outcome() -> ScanOutcome {
    ScanOutcome { visited: 0, bytes_read: 0, stopped: false, tables_scanned: 0 }
}

/// `outcome` after one more entry with a value of `len` bytes.
pub open spec fn recorded(outcome: ScanOutcome, len: nat) -> ScanOutcome {
    ScanOutcome {
        visited: capped_sum(outcome.visited, 1),
        bytes_read: capped_sum(outcome.bytes_read, len),
        ..outcome
    }
}

/// `outcome` of a scan that its visitor ended.
pub open spec fn halted(outcome: ScanOutcome) -> ScanOutcome {
    ScanOutcome { stopped: true, ..outcome }
}

/// `outcome` with one more table.
pub open spec fn scanned(outcome: ScanOutcome) -> ScanOutcome {
    ScanOutcome { tables_scanned: capped_sum(outcome.tables_scanned, 1), ..outcome }
}

impl ScanOutcome {
    /// The outcome of a scan that has not seen anything.
    pub fn empty() -> (r: ScanOutcome)
        ensures
            r == empty_outcome(),
    {
        ScanOutcome { visited: 0, bytes_read: 0, stopped: false, tables_scanned: 0 }
    }

    /// Counts one more entry with a value of `len` bytes.
    pub fn record(&mut self, len: usize)
        ensures
            *final(self) == recorded(*old(self), len as nat),
    {
        self.visited = self.visited.saturating_add(1);
        self.bytes_read = self.bytes_read.saturating_add(len);
    }
}

/// Counts one more table.
pub fn mark_table_scanned(outcome: ScanOutcome) -> (r: ScanOutcome)
    ensures
        r == scanned(outcome),
{
    ScanOutcome { tables_scanned: outcome.tables_scanned.saturating_add(1), ..outcome }
}

/// Counters stop at the largest number that they can hold. One more entry counts
/// once, with the bytes of its value, and changes nothing else; so does one more
/// table, and so does a stop.
pub proof fn counters_stop_at_their_limit(a: usize, b: nat, outcome: ScanOutcome)
    ensures
        a + b <= usize::MAX ==> capped_sum(a, b) == a + b,
        a + b > usize::MAX ==> capped_sum(a, b) == usize::MAX,
        empty_outcome().visited == 0 && empty_outcome().bytes_read == 0 && !empty_outcome().stopped
            && empty_outcome().tables_scanned == 0,
        recorded(outcome, b).visited == capped_sum(outcome.visited, 1),
        recorded(outcome, b).bytes_read == capped_sum(outcome.bytes_read, b),
        recorded(outcome, b).stopped == outcome.stopped,
        recorded(outcome, b).tables_scanned == outcome.tables_scanned,
        scanned(outcome).tables_scanned == capped_sum(outcome.tables_scanned, 1),
        scanned(outcome).visited == outcome.visited,
        scanned(outcome).bytes_read == outcome.bytes_read,
        scanned(outcome).stopped == outcome.stopped,
        halted(outcome).stopped,
        halted(outcome).visited == outcome.visited,
        halted(outcome).bytes_read == outcome.bytes_read,
        halted(outcome).tables_scanned == outcome.tables_scanned,
{
}

} // verus!
