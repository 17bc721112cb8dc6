//! Run configuration checks and query templating.
//!
//! Day inputs arrive as text holding an eight-digit date (YYYYMMDD); any
//! non-digit characters are stripped before use, and what remains must be
//! exactly eight digits. Table identifiers are reduced to their alphabetic
//! characters before they may be spliced into a query. Every rejection
//! happens here, before any connection is opened.

use vstd::prelude::*;
use vstd::string::StrSliceExecFns;
use vstd::string::StringExecFns;

use crate::error::ConfigError;
use crate::numfmt::spec_nat_str;
use crate::numfmt::u32_to_string;

verus! {

/// The character is one of the ten decimal digits.
pub open spec fn is_digit(c: char) -> bool {
    48 <= c as int <= 57
}

/// The numeric value of a digit character.
pub open spec fn digit_val(c: char) -> int {
    c as int - 48
}

/// The character is an ASCII letter.
pub open spec fn is_ident_char(c: char) -> bool {
    (65 <= c as int <= 90) || (97 <= c as int <= 122)
}

/// The digit characters of `s`, in order, everything else dropped.
pub open spec fn digits_of(s: Seq<char>) -> Seq<char>
    decreases s.len(),
{
    if s.len() == 0 {
        Seq::empty()
    } else if is_digit(s.last()) {
        digits_of(s.drop_last()).push(s.last())
    } else {
        digits_of(s.drop_last())
    }
}

/// The number an all-digit sequence denotes, most significant digit first.
pub open spec fn digits_value(s: Seq<char>) -> int
    decreases s.len(),
{
    if s.len() == 0 {
        0
    } else {
        digits_value(s.drop_last()) * 10 + digit_val(s.last())
    }
}

/// The ASCII letters of `s`, in order, everything else dropped.
pub open spec fn kept_chars(s: Seq<char>) -> Seq<char>
    decreases s.len(),
{
    if s.len() == 0 {
        Seq::empty()
    } else if is_ident_char(s.last()) {
        kept_chars(s.drop_last()).push(s.last())
    } else {
        kept_chars(s.drop_last())
    }
}

/// Ten to the power `e`.
pub open spec fn pow10(e: nat) -> int
    decreases e,
{
    if e == 0 {
        1
    } else {
        10 * pow10((e - 1) as nat)
    }
}

proof fn lemma_pow10_pos(e: nat)
    ensures
        pow10(e) >= 1,
    decreases e,
{
    if e > 0 {
        lemma_pow10_pos((e - 1) as nat);
    }
}

proof fn lemma_pow10_mono(a: nat, b: nat)
    requires
        a <= b,
    ensures
        pow10(a) <= pow10(b),
    decreases b,
{
    if a < b {
        lemma_pow10_mono(a, (b - 1) as nat);
        lemma_pow10_pos((b - 1) as nat);
    }
}

/// Strip non-digits from a day input and read the remaining eight digits
/// as one number; anything but exactly eight digits is malformed.
pub fn parse_day(s: &str) -> (r: Result<u32, ConfigError>)
    ensures
        r is Ok <==> digits_of(s@).len() == 8,
        r is Ok ==> r->Ok_0 as int == digits_value(digits_of(s@)),
        r is Err ==> r->Err_0 == ConfigError::MalformedDate,
{
    let n = s.unicode_len();
    let mut i: usize = 0;
    let mut count: usize = 0;
    let mut acc: u32 = 0;
    while i < n
        invariant
            n == s@.len(),
            i <= n,
            count <= i,
            count == digits_of(s@.take(i as int)).len(),
            count <= 8 ==> acc as int == digits_value(digits_of(s@.take(i as int))) && (
            acc as int) < pow10(count as nat),
        decreases n - i,
    {
        let c = s.get_char(i);
        let u = c as u32;
        let ghost prefix = s@.take(i as int);
        let ghost prefix1 = s@.take(i as int + 1);
        proof {
            assert(prefix1.drop_last() =~= prefix);
            assert(prefix1.last() == s@[i as int]);
        }
        if u >= 48 && u <= 57 {
            proof {
                assert(digits_of(prefix1) == digits_of(prefix).push(s@[i as int]));
                assert(digits_of(prefix1).drop_last() =~= digits_of(prefix));
            }
            if count < 8 {
                proof {
                    lemma_pow10_mono(count as nat, 7);
                    assert(pow10(0) == 1);
                    assert(pow10(1) == 10);
                    assert(pow10(2) == 100);
                    assert(pow10(3) == 1000);
                    assert(pow10(4) == 10000);
                    assert(pow10(5) == 100000);
                    assert(pow10(6) == 1000000);
                    assert(pow10(7) == 10000000);
                    assert(acc as int * 10 + (u - 48) < pow10((count + 1) as nat));
                }
                acc = acc * 10 + (u - 48);
            }
            count = count + 1;
        } else {
            proof {
                assert(digits_of(prefix1) == digits_of(prefix));
            }
        }
        i = i + 1;
    }
    proof {
        assert(s@.take(n as int) =~= s@);
    }
    if count == 8 {
        Ok(acc)
    } else {
        Err(ConfigError::MalformedDate)
    }
}

/// An inclusive range of days, each the eight digits YYYYMMDD read as one
/// number, with the first day no later than the last.
#[derive(Clone, Copy, Debug, PartialEq, Eq, Structural)]
pub struct DateRange {
    pub first_day: u32,
    pub last_day: u32,
}

impl DateRange {
    /// The first day does not lie after the last.
    pub open spec fn wf(self) -> bool {
        self.first_day <= self.last_day
    }
}

/// Validate the two day inputs as a range: both must strip to exactly
/// eight digits, and the first day must not lie after the last. Nothing is
/// fetched when this rejects.
pub fn validate_range(first: &str, last: &str) -> (r: Result<DateRange, ConfigError>)
    ensures
        r is Ok <==> digits_of(first@).len() == 8 && digits_of(last@).len() == 8
            && digits_value(digits_of(first@)) <= digits_value(digits_of(last@)),
        r is Ok ==> r->Ok_0.wf() && r->Ok_0.first_day as int == digits_value(digits_of(first@))
            && r->Ok_0.last_day as int == digits_value(digits_of(last@)),
        r is Err ==> r->Err_0 == (if digits_of(first@).len() != 8 || digits_of(last@).len() != 8 {
            ConfigError::MalformedDate
        } else {
            ConfigError::InvertedRange
        }),
{
    let first_day = match parse_day(first) {
        Ok(v) => v,
        Err(e) => {
            return Err(e);
        },
    };
    let last_day = match parse_day(last) {
        Ok(v) => v,
        Err(e) => {
            return Err(e);
        },
    };
    if first_day > last_day {
        return Err(ConfigError::InvertedRange);
    }
    Ok(DateRange { first_day, last_day })
}

/// Reduce a table identifier to its ASCII letters; an identifier with no
/// letter left is rejected, and nothing is fetched.
pub fn sanitize_identifier(s: &str) -> (r: Result<String, ConfigError>)
    ensures
        r is Ok <==> kept_chars(s@).len() > 0,
        r is Ok ==> r->Ok_0@ == kept_chars(s@),
        r is Err ==> r->Err_0 == ConfigError::EmptyIdentifier,
{
    let n = s.unicode_len();
    let mut i: usize = 0;
    let mut t = String::new();
    while i < n
        invariant
            n == s@.len(),
            i <= n,
            t@ == kept_chars(s@.take(i as int)),
        decreases n - i,
    {
        let c = s.get_char(i);
        let u = c as u32;
        let ghost prefix = s@.take(i as int);
        let ghost prefix1 = s@.take(i as int + 1);
        proof {
            assert(prefix1.drop_last() =~= prefix);
            assert(prefix1.last() == s@[i as int]);
        }
        if (u >= 65 && u <= 90) || (u >= 97 && u <= 122) {
            t.push(c);
            proof {
                assert(kept_chars(prefix1) == kept_chars(prefix).push(s@[i as int]));
            }
        } else {
            proof {
                assert(kept_chars(prefix1) == kept_chars(prefix));
            }
        }
        i = i + 1;
    }
    proof {
        assert(s@.take(n as int) =~= s@);
    }
    if t.unicode_len() == 0 {
        Err(ConfigError::EmptyIdentifier)
    } else {
        Ok(t)
    }
}

/// `s` left-padded with zero digits to eight characters.
pub open spec fn spec_pad8(s: Seq<char>) -> Seq<char>
    decreases (if s.len() < 8 {
        8 - s.len() as int
    } else {
        0
    }),
{
    if s.len() >= 8 {
        s
    } else {
        spec_pad8(seq!['0'] + s)
    }
}

/// The eight-character day literal spliced into the query.
pub open spec fn spec_day8(v: nat) -> Seq<char> {
    spec_pad8(spec_nat_str(v))
}

/// Render a day value as its eight digits, zero-padded on the left.
pub fn day8(v: u32) -> (s: String)
    ensures
        s@ == spec_day8(v as nat),
{
    let mut s = u32_to_string(v);
    while s.unicode_len() < 8
        invariant
            spec_pad8(s@) == spec_day8(v as nat),
        decreases 8 - s@.len(),
    {
        let zero = String::new();
        let mut padded = zero;
        padded.push('0');
        let r = padded.concat(s.as_str());
        proof {
            assert(r@ =~= seq!['0'] + s@);
        }
        s = r;
    }
    s
}

/// The aggregation query sent to one source: grouped by the day-truncated
/// timestamp, counting rows and summing the two checksum projections,
/// filtered to the inclusive day range, ordered by day ascending.
pub open spec fn spec_query(table: Seq<char>, first: nat, last: nat) -> Seq<char> {
    "\nSELECT\n  date_trunc('day', tmstmp) AS _date,\n  COUNT(*) AS _count,\n  SUM(id)::NUMERIC AS _id,\n  SUM(EXTRACT(EPOCH FROM tmstmp))::NUMERIC AS _tmstmp\nFROM\n  "@
        + table + "\nWHERE\n  tmstmp >= '"@ + spec_day8(first) + "'::date\nAND\n  tmstmp < ('"@
        + spec_day8(last) + "'::date + INTERVAL '24 hour')\nGROUP BY\n  _date\nORDER BY\n  _date;\n"@
}

/// Build the aggregation query for one sanitized table identifier and one
/// validated day range.
pub fn build_query(table: &str, range: &DateRange) -> (q: String)
    requires
        table@.len() > 0,
        forall|i: int| 0 <= i < table@.len() ==> is_ident_char(#[trigger] table@[i]),
        range.wf(),
    ensures
        q@ == spec_query(table@, range.first_day as nat, range.last_day as nat),
{
    let mut q =
        "\nSELECT\n  date_trunc('day', tmstmp) AS _date,\n  COUNT(*) AS _count,\n  SUM(id)::NUMERIC AS _id,\n  SUM(EXTRACT(EPOCH FROM tmstmp))::NUMERIC AS _tmstmp\nFROM\n  ".to_owned();
    q.append(table);
    q.append("\nWHERE\n  tmstmp >= '");
    let f = day8(range.first_day);
    q.append(f.as_str());
    q.append("'::date\nAND\n  tmstmp < ('");
    let l = day8(range.last_day);
    q.append(l.as_str());
    q.append("'::date + INTERVAL '24 hour')\nGROUP BY\n  _date\nORDER BY\n  _date;\n");
    proof {
        assert(q@ =~= spec_query(table@, range.first_day as nat, range.last_day as nat));
    }
    q
}

} // verus!
