//! Text rendering for reports: decimal numbers, duration formatting, and
//! the per-tag statistics block.

use vstd::prelude::*;
use crate::sample::{BenchResult, mean_of, percentile_of};

verus! {

/// Relies on `String::push`: appends the given character to the end of the
/// string.
pub assume_specification[ String::push ](s: &mut String, c: char)
    ensures
        final (s)@ == old(s)@.push(c),
;

/// Relies on `String::push_str`: appends the given string slice onto the end
/// of the string.
pub assume_specification[ String::push_str ](s: &mut String, piece: &str)
    ensures
        final (s)@ == old(s)@ + piece@,
;

/// The character for one decimal digit.
pub open spec fn digit_char(d: int) -> char {
    if d == 0 {
        '0'
    } else if d == 1 {
        '1'
    } else if d == 2 {
        '2'
    } else if d == 3 {
        '3'
    } else if d == 4 {
        '4'
    } else if d == 5 {
        '5'
    } else if d == 6 {
        '6'
    } else if d == 7 {
        '7'
    } else if d == 8 {
        '8'
    } else {
        '9'
    }
}

/// The usual decimal rendering of a non-negative integer, most significant
/// digit first, with no leading zeros (`0` itself is rendered as "0").
pub open spec fn dec_str(n: int) -> Seq<char>
    recommends
        n >= 0,
    decreases n,
{
    if n < 10 {
        seq![digit_char(n)]
    } else {
        dec_str(n / 10).push(digit_char(n % 10))
    }
}

/// The character for one digit below ten.
fn digit_of(d: u64) -> (c: char)
    requires
        d < 10,
    ensures
        c == digit_char(d as int),
{
    match d {
        0 => '0',
        1 => '1',
        2 => '2',
        3 => '3',
        4 => '4',
        5 => '5',
        6 => '6',
        7 => '7',
        8 => '8',
        _ => '9',
    }
}

/// Appends the decimal rendering of `n` to `out`.
pub fn push_decimal(out: &mut String, n: u64)
    ensures
        final (out)@ == old(out)@ + dec_str(n as int),
    decreases n,
{
    if n < 10 {
        out.push(digit_of(n));
        proof {
            assert(out@ =~= old(out)@ + dec_str(n as int));
        }
    } else {
        push_decimal(out, n / 10);
        out.push(digit_of(n % 10));
        proof {
            assert(out@ =~= old(out)@ + dec_str(n as int));
        }
    }
}

/// The textual rendering of a duration of the given number of nanoseconds,
/// as the standard library's debug formatting of durations produces it.
pub uninterp spec fn duration_text(nanos: u64) -> Seq<char>;

/// Relies on the debug rendering of `std::time::Duration` (reached through
/// `Duration::from_nanos`): the text is a function of the nanosecond value
/// alone.
#[verifier::external_body]
pub(crate) fn format_duration(nanos: u64) -> (r: String)
    ensures
        r@ == duration_text(nanos),
{
    format!("{:?}", std::time::Duration::from_nanos(nanos))
}

/// The two statistics lines of a report block: the mean, then the
/// 50th/95th/99th percentiles.
pub open spec fn stats_block(s: Seq<u64>) -> Seq<char> {
    "[ave.] "@ + duration_text(mean_of(s) as u64) + "\n"@ + duration_text(percentile_of(s, 50))
        + " (>50%), "@ + duration_text(percentile_of(s, 95)) + " (>95%), "@ + duration_text(
        percentile_of(s, 99),
    ) + " (>99%)\n"@
}

impl BenchResult {
    /// Renders the statistics block for this store: mean on one line, then
    /// the 50th/95th/99th percentiles on the next.
    pub fn render_stats(&self) -> (r: String)
        requires
            self@.len() >= 1,
        ensures
            r@ == stats_block(self@),
    {
        let mut out = String::new();
        out.push_str("[ave.] ");
        let ave = self.average();
        proof {
            assert(ave == mean_of(self@) as u64);
        }
        let t = format_duration(ave);
        out.push_str(t.as_str());
        out.push_str("\n");
        let t = format_duration(self.percentile(50));
        out.push_str(t.as_str());
        out.push_str(" (>50%), ");
        let t = format_duration(self.percentile(95));
        out.push_str(t.as_str());
        out.push_str(" (>95%), ");
        let t = format_duration(self.percentile(99));
        out.push_str(t.as_str());
        out.push_str(" (>99%)\n");
        proof {
            assert(out@ =~= stats_block(self@));
        }
        out
    }
}

} // verus!
