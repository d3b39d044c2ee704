//! Slurm duration strings.
use std::time::Duration;

use vstd::prelude::*;

use crate::text::dec;
use crate::text::dec2;
use crate::text::lemma_dec2_len;
use crate::text::lemma_dec2_parses;
use crate::text::lemma_dec_parses;
use crate::text::parse_unsigned;
use crate::text::u64_to_dec;
use crate::text::u64_to_dec2;

verus! {

/// The Slurm duration text for a number of whole seconds: `ss`, `mm:ss`,
/// `hh:mm:ss` or `d-hh:mm:ss`, whichever is the shortest that holds it.
pub open spec fn slurm_duration_text(secs: nat) -> Seq<char> {
    let mins = secs / 60;
    let hours = mins / 60;
    let days = hours / 24;
    if secs < 60 {
        dec2(secs)
    } else if mins < 60 {
        dec2(mins) + seq![':'] + dec2(secs % 60)
    } else if hours < 24 {
        dec2(hours) + seq![':'] + dec2(mins % 60) + seq![':'] + dec2(secs % 60)
    } else {
        dec(days) + seq!['-'] + dec2(hours % 24) + seq![':'] + dec2(mins % 60) + seq![':']
            + dec2(secs % 60)
    }
}

/// The days that [`slurm_duration_text`] writes before `-` (none below a day).
pub open spec fn written_days(secs: nat) -> nat {
    if secs / 3600 < 24 {
        0
    } else {
        secs / 86400
    }
}

/// The numbers that [`slurm_duration_text`] writes after the days, separated
/// by `:`, most significant first.
pub open spec fn written_clock(secs: nat) -> Seq<nat> {
    let mins = secs / 60;
    let hours = mins / 60;
    if secs < 60 {
        seq![secs]
    } else if mins < 60 {
        seq![mins, secs % 60]
    } else if hours < 24 {
        seq![hours, mins % 60, secs % 60]
    } else {
        seq![hours % 24, mins % 60, secs % 60]
    }
}

/// The value of a duration in Slurm's time syntax: the days, and the numbers
/// after them read from the right as seconds, minutes and hours.
pub open spec fn slurm_time_value(days: nat, clock: Seq<nat>) -> nat {
    let n = clock.len() as int;
    days * 86400 + (if n >= 3 { clock[n - 3] * 3600 } else { 0 }) + (if n >= 2 { clock[n - 2] * 60 } else { 0 }) + clock[n - 1]
}

/// A written duration reads back as its whole seconds, for every duration: the
/// text is the days and `-` (where there are days) followed by the clock
/// numbers joined by `:`; every number after the first has exactly two digits;
/// seconds and minutes are below 60 and hours, where written, below 24; each
/// number parses back; and their value in Slurm's time syntax is the seconds.
pub proof fn lemma_duration_text_reads_back(secs: nat)
    ensures
        ({
            let d = written_days(secs);
            let c = written_clock(secs);
            let text = slurm_duration_text(secs);
            &&& 1 <= c.len() <= 3
            &&& text == (if d > 0 { dec(d) + seq!['-'] } else { Seq::<char>::empty() }) + (if c.len() == 1 {
                dec2(c[0])
            } else if c.len() == 2 {
                dec2(c[0]) + seq![':'] + dec2(c[1])
            } else {
                dec2(c[0]) + seq![':'] + dec2(c[1]) + seq![':'] + dec2(c[2])
            })
            &&& forall|i: int| 1 <= i < c.len() ==> #[trigger] c[i] < 60 && dec2(c[i]).len() == 2
            &&& c.len() == 3 ==> c[0] < 24
            &&& forall|i: int| 0 <= i < c.len() ==> parse_unsigned(#[trigger] dec2(c[i]), c[i]) == Some(c[i])
            &&& d > 0 ==> parse_unsigned(dec(d), d) == Some(d)
            &&& slurm_time_value(d, c) == secs
        }),
{
    let mins = secs / 60;
    let hours = mins / 60;
    let days = hours / 24;
    let c = written_clock(secs);
    let d = written_days(secs);
    assert(mins * 60 + secs % 60 == secs);
    assert(hours * 60 + mins % 60 == mins);
    assert(days * 24 + hours % 24 == hours);
    assert(hours == secs / 3600);
    assert(days == secs / 86400);
    lemma_dec2_len(secs % 60);
    lemma_dec2_len(mins % 60);
    lemma_dec2_len(hours % 24);
    assert forall|i: int| 0 <= i < c.len() implies parse_unsigned(#[trigger] dec2(c[i]), c[i]) == Some(c[i]) by {
        lemma_dec2_parses(c[i], c[i]);
    }
    if d > 0 {
        lemma_dec_parses(d, d);
    }
    if secs < 60 {
    } else if mins < 60 {
    } else if hours < 24 {
        assert(hours * 3600 + (mins % 60) * 60 + secs % 60 == secs);
    } else {
        assert(days * 86400 + (hours % 24) * 3600 + (mins % 60) * 60 + secs % 60 == secs);
        assert(Seq::<char>::empty() + dec(days) == dec(days));
    }
}

/// The whole seconds of a `Duration`, as `Duration::as_secs` gives them.
pub uninterp spec fn duration_secs(d: Duration) -> u64;

/// The whole seconds of a `Duration`.
///
/// Calls `Duration::as_secs`. Claims only that the result is `duration_secs`
/// of the duration: the duration is opaque to the verifier, and the result
/// depends on its value alone.
#[verifier::external_body]
fn duration_whole_secs(d: &Duration) -> (r: u64)
    ensures
        r == duration_secs(*d),
{
    d.as_secs()
}

/// Creates a Slurm duration string from a number of whole seconds.
pub fn format_slurm_duration_secs(secs: u64) -> (s: String)
    ensures
        s@ == slurm_duration_text(secs as nat),
{
    let secs_rem = secs % 60;
    if secs == secs_rem {
        return u64_to_dec2(secs);
    }
    let mins = secs / 60;
    let mins_rem = mins % 60;
    let mut s;
    if mins == mins_rem {
        s = u64_to_dec2(mins);
        s.append(":");
        s.append(u64_to_dec2(secs_rem).as_str());
        proof { reveal_strlit(":"); }
        return s;
    }
    let hours = mins / 60;
    let hours_rem = hours % 24;
    if hours == hours_rem {
        s = u64_to_dec2(hours);
    } else {
        let days = hours / 24;
        s = u64_to_dec(days);
        s.append("-");
        s.append(u64_to_dec2(hours_rem).as_str());
    }
    s.append(":");
    s.append(u64_to_dec2(mins_rem).as_str());
    s.append(":");
    s.append(u64_to_dec2(secs_rem).as_str());
    proof {
        reveal_strlit(":");
        reveal_strlit("-");
    }
    s
}

/// Creates a Slurm duration string.
///
/// Converts a `Duration` to a Slurm duration in one of the formats
/// `ss`, `mm:ss`, `hh:mm:ss` or `d-hh:mm:ss`; sub-second parts are dropped.
pub fn format_slurm_duration(duration: Duration) -> (s: String)
    ensures
        s@ == slurm_duration_text(duration_secs(duration) as nat),
{
    let secs = duration_whole_secs(&duration);
    format_slurm_duration_secs(secs)
}

} // verus!
