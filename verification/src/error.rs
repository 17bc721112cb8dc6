//! The error kinds of a reconciliation run and the process exit mapping.

use vstd::prelude::*;

use crate::row::Verdict;

verus! {

/// Invalid run configuration, rejected before any fetch is attempted.
#[derive(Clone, Copy, Debug, PartialEq, Eq, Structural)]
pub enum ConfigError {
    /// A day input whose digits do not form an eight-digit date.
    MalformedDate,
    /// A date range whose first day lies after its last day.
    InvertedRange,
    /// A table identifier with no characters left after sanitization.
    EmptyIdentifier,
}

/// Everything fatal a run can end with short of a verdict.
#[derive(Clone, Copy, Debug, PartialEq, Eq, Structural)]
pub enum ReconError {
    /// Invalid configuration input; no fetch was attempted.
    Config(ConfigError),
    /// A source connection could not be established.
    Connect,
    /// A query failed to execute or its result failed to decode.
    Query,
}

impl ConfigError {
    /// The message the run reports for this configuration error.
    pub open spec fn spec_message(self) -> Seq<char> {
        match self {
            ConfigError::MalformedDate => "day must contain exactly eight digits (YYYYMMDD)"@,
            ConfigError::InvertedRange => "first day lies after last day"@,
            ConfigError::EmptyIdentifier => "table identifier has no alphabetic characters"@,
        }
    }

    /// Render the error message.
    pub fn message(&self) -> (s: String)
        ensures
            s@ == self.spec_message(),
    {
        match self {
            ConfigError::MalformedDate => "day must contain exactly eight digits (YYYYMMDD)".to_owned(),
            ConfigError::InvertedRange => "first day lies after last day".to_owned(),
            ConfigError::EmptyIdentifier => "table identifier has no alphabetic characters".to_owned(),
        }
    }
}

impl ReconError {
    /// The message the run reports for this fatal error.
    pub open spec fn spec_message(self) -> Seq<char> {
        match self {
            ReconError::Config(e) => e.spec_message(),
            ReconError::Connect => "could not connect to a source"@,
            ReconError::Query => "query failed or returned an unexpected result shape"@,
        }
    }

    /// Render the error message.
    pub fn message(&self) -> (s: String)
        ensures
            s@ == self.spec_message(),
    {
        match self {
            ReconError::Config(e) => e.message(),
            ReconError::Connect => "could not connect to a source".to_owned(),
            ReconError::Query => "query failed or returned an unexpected result shape".to_owned(),
        }
    }
}

/// The exit status the run's result maps to: zero for a pass verdict, one
/// for a fail verdict or any fatal error.
pub open spec fn spec_exit_code(r: Result<Verdict, ReconError>) -> u8 {
    if r is Ok && r->Ok_0 == Verdict::Pass {
        0
    } else {
        1
    }
}

/// Map the run's result to its process exit status.
pub fn exit_code(r: &Result<Verdict, ReconError>) -> (c: u8)
    ensures
        c == spec_exit_code(*r),
{
    match r {
        Ok(Verdict::Pass) => 0,
        _ => 1,
    }
}

} // verus!
