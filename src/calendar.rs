//! ISO-8601 timestamps to epoch seconds, by proleptic Gregorian arithmetic.
use vstd::prelude::*;
use vstd::arithmetic::div_mod::*;
use vstd::slice::slice_subrange;
use crate::bytes::{
    all_digits, find_first, find_last, first_index, last_index, lemma_pieces_nonempty, parse_i64,
    parse_int, pieces, split_at_byte,
};
use crate::text::bytes_of;

verus! {

/// An instant as whole epoch seconds (UTC) plus the decimal digits of a
/// fraction of a second: the value is `seconds + 0.fraction`.
pub struct EpochTime {
    pub seconds: i128,
    pub fraction: Vec<u8>,
}

impl EpochTime {
    pub open spec fn view(&self) -> (int, Seq<u8>) {
        (self.seconds as int, self.fraction@)
    }

    /// The sentinel for a missing or unreadable timestamp: zero seconds.
    pub fn zero() -> (r: EpochTime)
        ensures
            r.view() == (0int, Seq::<u8>::empty()),
    {
        EpochTime { seconds: 0, fraction: Vec::new() }
    }
}

/// Days from 1970-01-01 to the given proleptic Gregorian date, counting
/// January and February as the last months of the previous year.
pub open spec fn days_from_civil(y: int, m: int, d: int) -> int {
    let yy = if m <= 2 { y - 1 } else { y };
    let mm = if m <= 2 { m + 9 } else { m - 3 };
    365 * yy + yy / 4 - yy / 100 + yy / 400 + (153 * mm + 2) / 5 + d - 1 - 719468
}

/// `s` with each `Z` written as the explicit offset `+00:00`.
pub open spec fn expand_utc(s: Seq<u8>) -> Seq<u8>
    decreases s.len(),
{
    if s.len() == 0 {
        s
    } else {
        expand_utc(s.drop_last()) + if s.last() == 90u8 {
            seq![43u8, 48u8, 48u8, 58u8, 48u8, 48u8]
        } else {
            seq![s.last()]
        }
    }
}

/// An integer field that reads as zero when absent or malformed.
pub open spec fn int_or_zero(s: Seq<u8>) -> int {
    match parse_i64(s) {
        Some(v) => v,
        None => 0,
    }
}

/// Seconds of an offset written `HH[:MM]`.
pub open spec fn offset_value(tz: Seq<u8>) -> int {
    let p = pieces(tz, 58u8);
    int_or_zero(p[0]) * 3600 + if p.len() > 1 {
        int_or_zero(p[1]) * 60
    } else {
        0
    }
}

/// Parts the text after the date into the clock text and the signed zone
/// offset in seconds: the last `+` past the first byte, else the last `-`
/// past the sixth byte, else no offset.
pub open spec fn split_offset(rest: Seq<u8>) -> (Seq<u8>, int) {
    match last_index(rest, 43u8) {
        Some(i) => if i > 0 {
            (rest.subrange(0, i), offset_value(rest.subrange(i + 1, rest.len() as int)))
        } else {
            (rest, 0)
        },
        None => match last_index(rest, 45u8) {
            Some(i) => if i > 6 {
                (rest.subrange(0, i), -offset_value(rest.subrange(i + 1, rest.len() as int)))
            } else {
                (rest, 0)
            },
            None => (rest, 0),
        },
    }
}

/// Seconds into the day and fraction digits of `HH:MM[:SS[.fff]]`.
pub open spec fn clock_value(time: Seq<u8>) -> Option<(int, Seq<u8>)> {
    let p = pieces(time, 58u8);
    let sec_text = if p.len() > 2 { p[2] } else { seq![48u8] };
    let sp = pieces(sec_text, 46u8);
    let frac = if sp.len() > 1 { sp[1] } else { Seq::<u8>::empty() };
    if p.len() < 2 {
        None
    } else if parse_i64(p[0]) is None || parse_i64(p[1]) is None || parse_i64(sp[0]) is None {
        None
    } else if sp.len() > 1 && (frac.len() == 0 || !all_digits(frac)) {
        None
    } else {
        Some(
            (
                parse_i64(p[0])->0 * 3600 + parse_i64(p[1])->0 * 60 + parse_i64(sp[0])->0,
                frac,
            ),
        )
    }
}

/// Epoch seconds and fraction digits of `YYYY-MM-DDTHH:MM:SS[.fff](Z|±HH:MM)`.
pub open spec fn timestamp_value(ts: Seq<u8>) -> Option<(int, Seq<u8>)> {
    let s = expand_utc(ts);
    match first_index(s, 84u8) {
        None => None,
        Some(t) => {
            let date = pieces(s.subrange(0, t), 45u8);
            let (time, off) = split_offset(s.subrange(t + 1, s.len() as int));
            if date.len() != 3 || parse_i64(date[0]) is None || parse_i64(date[1]) is None
                || parse_i64(date[2]) is None {
                None
            } else {
                match clock_value(time) {
                    None => None,
                    Some(c) => Some(
                        (
                            days_from_civil(
                                parse_i64(date[0])->0,
                                parse_i64(date[1])->0,
                                parse_i64(date[2])->0,
                            ) * 86400 + c.0 - off,
                            c.1,
                        ),
                    ),
                }
            }
        }
    }
}

/// Rounds the quotient down, also for a negative dividend.
fn floor_div(a: i128, b: i128) -> (r: i128)
    requires
        0 < b,
        -0x1000_0000_0000_0000_0000_0000 < a < 0x1000_0000_0000_0000_0000_0000,
    ensures
        r == a / b,
{
    if a >= 0 {
        a / b
    } else {
        let q = (-a - 1) / b;
        proof {
            let n = -a - 1;
            lemma_fundamental_div_mod(n, b as int);
            lemma_mod_bound(n, b as int);
            assert(a == b * (-q - 1) + (b - 1 - n % b as int)) by (nonlinear_arith)
                requires
                    n == -a - 1,
                    n == b * q + n % b as int,
            ;
            lemma_div_multiples_vanish_fancy(-q - 1, b - 1 - n % b as int, b as int);
        }
        -q - 1
    }
}

proof fn lemma_div_shift(e: int, r: int, k: int, d: int)
    requires
        0 < d,
        k * d == 400,
        0 <= r < 400,
    ensures
        (400 * e + r) / d == k * e + r / d,
{
    lemma_fundamental_div_mod(r, d);
    lemma_mod_pos_bound(r, d);
    assert(400 * e + r == d * (k * e + r / d) + r % d) by (nonlinear_arith)
        requires
            k * d == 400,
            r == d * (r / d) + r % d,
    ;
    lemma_div_multiples_vanish_fancy(k * e + r / d, r % d, d);
}

/// Days from 1970-01-01, by the era (400 years), year of era and day of
/// era decomposition.
pub fn days_from_epoch(year: i64, month: i64, day: i64) -> (r: i128)
    ensures
        r == days_from_civil(year as int, month as int, day as int),
        -0x100_0000_0000_0000_0000 < r < 0x100_0000_0000_0000_0000,
{
    let y: i128 = if month <= 2 { year as i128 - 1 } else { year as i128 };
    let m: i128 = if month <= 2 { month as i128 + 9 } else { month as i128 - 3 };
    let era = floor_div(y, 400);
    let yoe = y - era * 400;
    let doy = floor_div(153 * m + 2, 5) + day as i128 - 1;
    let doe = yoe * 365 + yoe / 4 - yoe / 100 + doy;
    proof {
        lemma_fundamental_div_mod(y as int, 400);
        lemma_mod_bound(y as int, 400);
        lemma_div_shift(era as int, yoe as int, 100, 4);
        lemma_div_shift(era as int, yoe as int, 4, 100);
        lemma_div_shift(era as int, yoe as int, 1, 400);
        assert(y == 400 * era + yoe);
    }
    era * 146097 + doe - 719468
}

fn expand_utc_exec(s: &[u8]) -> (r: Vec<u8>)
    ensures
        r@ == expand_utc(s@),
{
    let mut out: Vec<u8> = Vec::new();
    let mut i: usize = 0;
    while i < s.len()
        invariant
            i <= s@.len(),
            out@ == expand_utc(s@.subrange(0, i as int)),
        decreases s.len() - i,
    {
        assert(s@.subrange(0, i + 1).drop_last() =~= s@.subrange(0, i as int));
        if s[i] == 90u8 {
            out.push(43u8);
            out.push(48u8);
            out.push(48u8);
            out.push(58u8);
            out.push(48u8);
            out.push(48u8);
        } else {
            out.push(s[i]);
        }
        assert(out@ =~= expand_utc(s@.subrange(0, i + 1)));
        i = i + 1;
    }
    assert(s@.subrange(0, i as int) =~= s@);
    out
}

fn int_or_zero_exec(s: &[u8]) -> (r: i64)
    ensures
        r as int == int_or_zero(s@),
{
    match parse_int(s) {
        Some(v) => v,
        None => 0,
    }
}

fn offset_seconds(tz: &[u8]) -> (r: i128)
    ensures
        r == offset_value(tz@),
        -0x10_0000_0000_0000_0000_0000 < r < 0x10_0000_0000_0000_0000_0000,
{
    let p = split_at_byte(tz, 58u8);
    proof {
        lemma_pieces_nonempty(tz@, 58u8);
    }
    let h = int_or_zero_exec(p[0].as_slice()) as i128;
    let m: i128 = if p.len() > 1 {
        int_or_zero_exec(p[1].as_slice()) as i128
    } else {
        0
    };
    h * 3600 + m * 60
}

fn split_offset_exec(rest: &[u8]) -> (r: (&[u8], i128))
    ensures
        (r.0@, r.1 as int) == split_offset(rest@),
        -0x10_0000_0000_0000_0000_0000 < r.1 < 0x10_0000_0000_0000_0000_0000,
{
    match find_last(rest, 43u8) {
        Some(i) => {
            if i > 0 {
                assert(i < rest.len());
                let off = offset_seconds(slice_subrange(rest, i + 1, rest.len()));
                (slice_subrange(rest, 0, i), off)
            } else {
                (rest, 0)
            }
        },
        None => match find_last(rest, 45u8) {
            Some(i) => {
                if i > 6 {
                    assert(i < rest.len());
                let off = offset_seconds(slice_subrange(rest, i + 1, rest.len()));
                    (slice_subrange(rest, 0, i), -off)
                } else {
                    (rest, 0)
                }
            },
            None => (rest, 0),
        },
    }
}

fn all_digits_exec(s: &[u8]) -> (r: bool)
    ensures
        r == all_digits(s@),
{
    let mut i: usize = 0;
    while i < s.len()
        invariant
            i <= s@.len(),
            forall|j: int| 0 <= j < i ==> crate::bytes::is_digit(#[trigger] s@[j]),
        decreases s.len() - i,
    {
        if s[i] < 48u8 || s[i] > 57u8 {
            return false;
        }
        i = i + 1;
    }
    true
}

fn clock_exec(time: &[u8]) -> (r: Option<(i128, Vec<u8>)>)
    ensures
        match r {
            Some(c) => clock_value(time@) == Some((c.0 as int, c.1@)) && -0x10_0000_0000_0000_0000_0000
                < c.0 < 0x10_0000_0000_0000_0000_0000,
            None => clock_value(time@) is None,
        },
{
    let p = split_at_byte(time, 58u8);
    proof {
        lemma_pieces_nonempty(time@, 58u8);
    }
    if p.len() < 2 {
        return None;
    }
    let zero: Vec<u8> = vec![48u8];
    let sec_text: &[u8] = if p.len() > 2 { p[2].as_slice() } else { zero.as_slice() };
    assert(sec_text@ =~= (if p@.len() > 2 { pieces(time@, 58u8)[2] } else { seq![48u8] }));
    let sp = split_at_byte(sec_text, 46u8);
    proof {
        lemma_pieces_nonempty(sec_text@, 46u8);
    }
    let h = match parse_int(p[0].as_slice()) {
        Some(v) => v,
        None => return None,
    };
    let mi = match parse_int(p[1].as_slice()) {
        Some(v) => v,
        None => return None,
    };
    let sec = match parse_int(sp[0].as_slice()) {
        Some(v) => v,
        None => return None,
    };
    let mut frac: Vec<u8> = Vec::new();
    if sp.len() > 1 {
        if sp[1].len() == 0 || !all_digits_exec(sp[1].as_slice()) {
            return None;
        }
        frac = sp[1].clone();
    }
    Some((h as i128 * 3600 + mi as i128 * 60 + sec as i128, frac))
}

/// Reads the bytes of an ISO-8601 timestamp as epoch seconds; `None` when
/// it is malformed.
pub fn normalize_bytes(ts: &[u8]) -> (r: Option<EpochTime>)
    ensures
        match r {
            Some(t) => timestamp_value(ts@) == Some(t.view()),
            None => timestamp_value(ts@) is None,
        },
{
    let s = expand_utc_exec(ts);
    let t = match find_first(s.as_slice(), 84u8) {
        Some(t) => t,
        None => return None,
    };
    assert(t < s.len());
    let date = split_at_byte(slice_subrange(s.as_slice(), 0, t), 45u8);
    let (time, off) = split_offset_exec(slice_subrange(s.as_slice(), t + 1, s.len()));
    if date.len() != 3 {
        return None;
    }
    let year = match parse_int(date[0].as_slice()) {
        Some(v) => v,
        None => return None,
    };
    let month = match parse_int(date[1].as_slice()) {
        Some(v) => v,
        None => return None,
    };
    let day = match parse_int(date[2].as_slice()) {
        Some(v) => v,
        None => return None,
    };
    let (clock, fraction) = match clock_exec(time) {
        Some(c) => c,
        None => return None,
    };
    let days = days_from_epoch(year, month, day);
    Some(EpochTime { seconds: days * 86400 + clock - off, fraction })
}

/// Reads an ISO-8601 timestamp as epoch seconds; `None` when it is
/// malformed.
pub fn normalize(ts: &str) -> (r: Option<EpochTime>)
    ensures
        match r {
            Some(t) => timestamp_value(bytes_of(ts@)) == Some(t.view()),
            None => timestamp_value(bytes_of(ts@)) is None,
        },
{
    normalize_bytes(ts.as_bytes())
}

} // verus!
