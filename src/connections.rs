//! Established TCP connections out of `lsof -i -P -n` listing text.
use vstd::prelude::*;
use crate::bytes::parse_int;
use crate::bytes::parse_i64;
use crate::text::bytes_of;

verus! {

/// The lines of a text, as std splits them.
pub uninterp spec fn text_lines(s: Seq<char>) -> Seq<Seq<char>>;

/// Whether a regular expression compiles.
pub uninterp spec fn pattern_compiles(pattern: Seq<char>) -> bool;

/// Capture groups one to three of the first match of `pattern` in `line`,
/// when the pattern compiles, matches, and each group takes part.
pub uninterp spec fn connection_fields(pattern: Seq<char>, line: Seq<char>) -> Option<
    (Seq<char>, Seq<char>, Seq<char>),
>;

/// The listing line of an established IPv4 TCP connection: process name,
/// remote address and remote port are groups one to three.
pub const LSOF_PATTERN: &'static str =
    r"^(\S+)\s+\d+\s+\S+\s+\S+\s+IPv[46]\s+\S+\s+\S+\s+TCP\s+\S+->(\d+\.\d+\.\d+\.\d+):(\d+)\s+\(ESTABLISHED\)";

/// Relies on str::lines: the text cut at each line ending, in order.
#[verifier::external_body]
fn lines_of(s: &str) -> (r: Vec<&str>)
    ensures
        r@.len() == text_lines(s@).len(),
        forall|i: int| 0 <= i < r@.len() ==> #[trigger] r@[i]@ == text_lines(s@)[i],
{
    s.lines().collect()
}

/// Relies on regex::Regex::new, which fails on a malformed pattern, and
/// Regex::captures, which finds the first match and its groups.
#[verifier::external_body]
fn match_connection(pattern: &str, line: &str) -> (r: Option<(String, String, String)>)
    ensures
        match r {
            Some(t) => connection_fields(pattern@, line@) == Some((t.0@, t.1@, t.2@)),
            None => connection_fields(pattern@, line@) is None,
        },
        !pattern_compiles(pattern@) ==> r is None,
{
    let re = regex::Regex::new(pattern).ok()?;
    let caps = re.captures(line)?;
    let group = |i: usize| caps.get(i).map(|m| m.as_str().to_string());
    Some((group(1)?, group(2)?, group(3)?))
}

/// A port as std reads a `u16`, zero when it does not read.
pub open spec fn port_of(s: Seq<char>) -> u16 {
    let b = bytes_of(s);
    match parse_i64(b) {
        Some(v) => if b[0] != 45u8 && 0 <= v <= 65535 {
            v as u16
        } else {
            0
        },
        None => 0,
    }
}

/// The connection a listing line shows, if any.
pub open spec fn connection_of(line: Seq<char>) -> Option<(Seq<char>, Seq<char>, u16)> {
    match connection_fields(LSOF_PATTERN@, line) {
        Some(f) => Some((f.0, f.1, port_of(f.2))),
        None => None,
    }
}

pub open spec fn triple_view(t: (String, String, u16)) -> (Seq<char>, Seq<char>, u16) {
    (t.0@, t.1@, t.2)
}

/// Some line of `lines` shows connection `t`.
pub open spec fn shown(lines: Seq<Seq<char>>, t: (Seq<char>, Seq<char>, u16)) -> bool {
    exists|k: int| 0 <= k < lines.len() && connection_of(#[trigger] lines[k]) == Some(t)
}

fn port_number(s: &str) -> (r: u16)
    ensures
        r == port_of(s@),
{
    let b = s.as_bytes();
    match parse_int(b) {
        Some(v) => if b[0] != 45u8 && 0 <= v && v <= 65535 {
            v as u16
        } else {
            0
        },
        None => 0,
    }
}

fn contains_triple(v: &Vec<(String, String, u16)>, t: &(String, String, u16)) -> (r: bool)
    ensures
        r == exists|i: int| 0 <= i < v@.len() && triple_view(#[trigger] v@[i]) == triple_view(*t),
{
    let mut i: usize = 0;
    while i < v.len()
        invariant
            i <= v@.len(),
            forall|j: int| 0 <= j < i ==> triple_view(#[trigger] v@[j]) != triple_view(*t),
        decreases v.len() - i,
    {
        let e = &v[i];
        if e.0 == t.0 && e.1 == t.1 && e.2 == t.2 {
            return true;
        }
        i = i + 1;
    }
    false
}

/// The distinct established connections that the listing's lines show, as
/// (process name, remote address, remote port).
pub fn parse_lsof_output(output: &str) -> (r: Vec<(String, String, u16)>)
    ensures
        forall|i: int, j: int|
            0 <= i < j < r@.len() ==> triple_view(#[trigger] r@[i]) != triple_view(#[trigger] r@[j]),
        forall|i: int| 0 <= i < r@.len() ==> shown(text_lines(output@), triple_view(#[trigger] r@[i])),
        forall|k: int|
            0 <= k < text_lines(output@).len() && (#[trigger] connection_of(text_lines(output@)[k])) is Some
                ==> exists|i: int|
                0 <= i < r@.len() && triple_view(#[trigger] r@[i]) == connection_of(
                    text_lines(output@)[k],
                )->0,
{
    let lines = lines_of(output);
    let ghost ls = text_lines(output@);
    let mut out: Vec<(String, String, u16)> = Vec::new();
    let mut k: usize = 0;
    while k < lines.len()
        invariant
            k <= lines@.len(),
            lines@.len() == ls.len(),
            ls == text_lines(output@),
            forall|i: int| 0 <= i < lines@.len() ==> #[trigger] lines@[i]@ == ls[i],
            forall|i: int, j: int|
                0 <= i < j < out@.len() ==> triple_view(#[trigger] out@[i]) != triple_view(
                    #[trigger] out@[j],
                ),
            forall|i: int| 0 <= i < out@.len() ==> shown(ls, triple_view(#[trigger] out@[i])),
            forall|m: int|
                0 <= m < k && (#[trigger] connection_of(ls[m])) is Some ==> exists|i: int|
                    0 <= i < out@.len() && triple_view(#[trigger] out@[i]) == connection_of(
                        ls[m],
                    )->0,
        decreases lines.len() - k,
    {
        let line = lines[k];
        let ghost before = out@;
        match match_connection(LSOF_PATTERN, line) {
            Some(fields) => {
                let port = port_number(fields.2.as_str());
                let t = (fields.0, fields.1, port);
                let ghost tv = triple_view(t);
                assert(connection_of(ls[k as int]) == Some(tv));
                if !contains_triple(&out, &t) {
                    out.push(t);
                    assert(forall|i: int| 0 <= i < before.len() ==> out@[i] == before[i]);
                    assert(triple_view(out@[before.len() as int]) == tv);
                }
                assert forall|m: int|
                    0 <= m < k + 1 && (#[trigger] connection_of(ls[m])) is Some implies exists|
                    i: int,
                |
                    0 <= i < out@.len() && triple_view(#[trigger] out@[i]) == connection_of(
                        ls[m],
                    )->0 by {
                    if m < k {
                        let i = choose|i: int|
                            0 <= i < before.len() && triple_view(#[trigger] before[i])
                                == connection_of(ls[m])->0;
                        assert(out@[i] == before[i]);
                    }
                }
            },
            None => {
                assert(connection_of(ls[k as int]) is None);
            },
        }
        k = k + 1;
    }
    out
}

} // verus!
