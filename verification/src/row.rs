//! The data carried through one reconciliation run: per-bucket aggregate
//! rows, per-key diff outcomes, and the overall verdict.

use vstd::prelude::*;

verus! {

/// An exact decimal value: `mantissa * 10^-(scale as int)`. Checksums are
/// exact aggregate sums, so two checksums in canonical form (no trailing
/// zero digits in the mantissa unless the scale is zero) are equal as
/// values exactly when their fields are equal.
#[derive(Clone, Copy, Debug, PartialEq, Eq, Structural)]
pub struct Checksum {
    pub mantissa: i128,
    pub scale: u32,
}

/// One per time bucket, per source: the bucket's calendar day (as the
/// decimal digits YYYYMMDD read as one number) and its aggregate
/// fingerprint, the triple (row_count, checksum_a, checksum_b).
#[derive(Clone, Copy, Debug, PartialEq, Eq, Structural)]
pub struct AggregateRow {
    pub bucket_key: u32,
    pub row_count: i64,
    pub checksum_a: Checksum,
    pub checksum_b: Checksum,
}

/// How one bucket key compares across the two sources.
#[derive(Clone, Copy, Debug, PartialEq, Eq, Structural)]
pub enum DiffStatus {
    Matched,
    Mismatched,
    MissingInA,
    MissingInB,
}

/// The classification of one bucket key, with the contributing row from
/// each side when that side has the key.
#[derive(Clone, Copy, Debug, PartialEq, Eq)]
pub struct DiffOutcome {
    pub bucket_key: u32,
    pub status: DiffStatus,
    pub row_a: Option<AggregateRow>,
    pub row_b: Option<AggregateRow>,
}

/// The single conclusion of a reconciliation run.
#[derive(Clone, Copy, Debug, PartialEq, Eq, Structural)]
pub enum Verdict {
    Pass,
    Fail,
}

/// Whether two rows carry the same aggregate fingerprint: equal row counts
/// and equal checksums, exactly, with no tolerance. The bucket key takes no
/// part: alignment has already paired the rows by key.
pub open spec fn fingerprints_equal(a: AggregateRow, b: AggregateRow) -> bool {
    a.row_count == b.row_count && a.checksum_a == b.checksum_a && a.checksum_b == b.checksum_b
}

impl AggregateRow {
    /// Exact equality of the two fingerprints, field by field.
    pub fn fingerprint_matches(&self, other: &AggregateRow) -> (r: bool)
        ensures
            r == fingerprints_equal(*self, *other),
    {
        self.row_count == other.row_count && self.checksum_a == other.checksum_a
            && self.checksum_b == other.checksum_b
    }
}

} // verus!
