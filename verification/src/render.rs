//! The report: one line per outcome, and a summary line for the verdict.
//!
//! Rendering is display only: it never influences classification or
//! verdict. A line carries a glyph (affirmative only for a matched key),
//! the bucket key, and the fingerprint triple from each side, with a dash
//! standing in for a side that misses the key.

use vstd::prelude::*;
use vstd::string::StringExecFns;

use crate::numfmt::spec_int_str;
use crate::numfmt::spec_nat_str;
use crate::numfmt::i128_to_string;
use crate::numfmt::i64_to_string;
use crate::numfmt::u32_to_string;
use crate::row::AggregateRow;
use crate::row::Checksum;
use crate::row::DiffOutcome;
use crate::row::DiffStatus;
use crate::row::Verdict;

verus! {

/// The glyph a status is shown under: a check mark only for a matched key.
pub open spec fn spec_glyph(st: DiffStatus) -> char {
    if st == DiffStatus::Matched {
        '\u{2714}'
    } else {
        '\u{2718}'
    }
}

/// A checksum in text: the mantissa, then the negated base-ten exponent
/// when the scale is not zero.
pub open spec fn spec_checksum_str(c: Checksum) -> Seq<char> {
    if c.scale == 0 {
        spec_int_str(c.mantissa as int)
    } else {
        spec_int_str(c.mantissa as int) + "e-"@ + spec_nat_str(c.scale as nat)
    }
}

/// One side's contribution to a line: the fingerprint triple, or a dash
/// when the side misses the key.
pub open spec fn spec_side_str(side: Option<AggregateRow>) -> Seq<char> {
    match side {
        Some(r) => "("@ + spec_int_str(r.row_count as int) + ", "@ + spec_checksum_str(
            r.checksum_a,
        ) + ", "@ + spec_checksum_str(r.checksum_b) + ")"@,
        None => "-"@,
    }
}

/// The report line for one outcome: glyph, bucket key, then the triple
/// from each side.
pub open spec fn spec_line(o: DiffOutcome) -> Seq<char> {
    seq![spec_glyph(o.status)] + " "@ + spec_nat_str(o.bucket_key as nat) + " | "@
        + spec_side_str(o.row_a) + " | "@ + spec_side_str(o.row_b)
}

/// The summary line the verdict is reported under.
pub open spec fn spec_summary(v: Verdict) -> Seq<char> {
    if v == Verdict::Pass {
        "Databases match!"@
    } else {
        "Databases do not match."@
    }
}

/// Render one checksum.
pub fn checksum_string(c: &Checksum) -> (s: String)
    ensures
        s@ == spec_checksum_str(*c),
{
    let mut s = i128_to_string(c.mantissa);
    if c.scale > 0 {
        s.append("e-");
        let e = u32_to_string(c.scale);
        s.append(e.as_str());
        proof {
            assert(s@ =~= spec_checksum_str(*c));
        }
    }
    s
}

/// Render one side's triple, or the dash placeholder.
pub fn side_string(side: &Option<AggregateRow>) -> (s: String)
    ensures
        s@ == spec_side_str(*side),
{
    match side {
        Some(r) => {
            let mut s = "(".to_owned();
            let count = i64_to_string(r.row_count);
            s.append(count.as_str());
            s.append(", ");
            let ca = checksum_string(&r.checksum_a);
            s.append(ca.as_str());
            s.append(", ");
            let cb = checksum_string(&r.checksum_b);
            s.append(cb.as_str());
            s.append(")");
            proof {
                assert(s@ =~= spec_side_str(*side));
            }
            s
        },
        None => "-".to_owned(),
    }
}

/// Render the report line for one outcome.
pub fn render_line(o: &DiffOutcome) -> (s: String)
    ensures
        s@ == spec_line(*o),
{
    let mut s = String::new();
    if o.status == DiffStatus::Matched {
        s.push('\u{2714}');
    } else {
        s.push('\u{2718}');
    }
    s.append(" ");
    let key = u32_to_string(o.bucket_key);
    s.append(key.as_str());
    s.append(" | ");
    let a = side_string(&o.row_a);
    s.append(a.as_str());
    s.append(" | ");
    let b = side_string(&o.row_b);
    s.append(b.as_str());
    proof {
        assert(s@ =~= spec_line(*o));
    }
    s
}

/// Render the summary line for the verdict.
pub fn render_summary(v: Verdict) -> (s: String)
    ensures
        s@ == spec_summary(v),
{
    match v {
        Verdict::Pass => "Databases match!".to_owned(),
        Verdict::Fail => "Databases do not match.".to_owned(),
    }
}

/// Render the whole report: one line per outcome, in the order given, then
/// the summary line.
pub fn render_report(outcomes: &Vec<DiffOutcome>, v: Verdict) -> (lines: Vec<String>)
    ensures
        lines@.len() == outcomes@.len() + 1,
        forall|i: int| 0 <= i < outcomes@.len() ==> (#[trigger] lines@[i])@ == spec_line(
            outcomes@[i],
        ),
        lines@[outcomes@.len() as int]@ == spec_summary(v),
{
    let mut lines: Vec<String> = Vec::new();
    let mut i: usize = 0;
    while i < outcomes.len()
        invariant
            i <= outcomes@.len(),
            lines@.len() == i,
            forall|m: int| 0 <= m < i ==> (#[trigger] lines@[m])@ == spec_line(outcomes@[m]),
        decreases outcomes@.len() - i,
    {
        let line = render_line(&outcomes[i]);
        lines.push(line);
        i = i + 1;
    }
    let summary = render_summary(v);
    lines.push(summary);
    lines
}

} // verus!
