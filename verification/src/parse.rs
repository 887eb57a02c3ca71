//! The report parser: classifies each line of the memory-map report and
//! extracts the region identifier and the counter values.
//!
//! Exactly one rule fires per line, in this priority: a line containing a
//! hyphen is a region header (its identifier is the sixth whitespace column
//! when present, the empty string otherwise); a line starting with `Size:`
//! is a mapped-size counter; a line starting with `Rss:` is a resident-size
//! counter; every other line is ignored.

use vstd::prelude::*;

use crate::bytes::{dec_value, is_u32_numeral, parse_u32, split_whitespace_bytes, split_ws};

verus! {

/// A byte sequence occurring somewhere in `s`.
pub open spec fn contains_byte(s: Seq<u8>, b: u8) -> bool {
    exists|i: int| 0 <= i < s.len() && s[i] == b
}

fn slice_contains_byte(s: &[u8], b: u8) -> (r: bool)
    ensures
        r == contains_byte(s@, b),
{
    let mut i: usize = 0;
    while i < s.len()
        invariant
            i <= s@.len(),
            forall|j: int| 0 <= j < i ==> s@[j] != b,
        decreases s@.len() - i,
    {
        if s[i] == b {
            return true;
        }
        i = i + 1;
    }
    false
}

/// Whether `p` is a prefix of `s`.
pub open spec fn starts_with(s: Seq<u8>, p: Seq<u8>) -> bool {
    p.len() <= s.len() && s.take(p.len() as int) == p
}

#[verifier::loop_isolation(false)]
pub fn has_prefix(s: &[u8], p: &[u8]) -> (r: bool)
    ensures
        r == starts_with(s@, p@),
{
    if p.len() > s.len() {
        proof {
            assert(!starts_with(s@, p@));
        }
        return false;
    }
    let mut i: usize = 0;
    while i < p.len()
        invariant
            i <= p@.len(),
            forall|j: int| 0 <= j < i ==> s@[j] == p@[j],
        decreases p@.len() - i,
    {
        if s[i] != p[i] {
            proof {
                assert(s@.take(p@.len() as int)[i as int] != p@[i as int]);
            }
            return false;
        }
        i = i + 1;
    }
    proof {
        assert(s@.take(p@.len() as int) =~= p@);
    }
    true
}

/// The bytes of `Size:`.
pub open spec fn size_prefix() -> Seq<u8> {
    seq![83u8, 105u8, 122u8, 101u8, 58u8]
}

/// The bytes of `Rss:`.
pub open spec fn rss_prefix() -> Seq<u8> {
    seq![82u8, 115u8, 115u8, 58u8]
}

fn size_prefix_vec() -> (p: Vec<u8>)
    ensures
        p@ == size_prefix(),
{
    let mut p: Vec<u8> = Vec::new();
    p.push(83);
    p.push(105);
    p.push(122);
    p.push(101);
    p.push(58);
    proof {
        assert(p@ =~= size_prefix());
    }
    p
}

fn rss_prefix_vec() -> (p: Vec<u8>)
    ensures
        p@ == rss_prefix(),
{
    let mut p: Vec<u8> = Vec::new();
    p.push(82);
    p.push(115);
    p.push(115);
    p.push(58);
    proof {
        assert(p@ =~= rss_prefix());
    }
    p
}

/// A region-header line: one that contains a hyphen (the address range).
pub open spec fn is_header_line(s: Seq<u8>) -> bool {
    contains_byte(s, 45)
}

/// A mapped-size counter line: starts with `Size:` and is not a header.
pub open spec fn is_size_counter_line(s: Seq<u8>) -> bool {
    !is_header_line(s) && starts_with(s, size_prefix())
}

/// A resident-size counter line: starts with `Rss:` and is not a header.
pub open spec fn is_rss_counter_line(s: Seq<u8>) -> bool {
    !is_header_line(s) && starts_with(s, rss_prefix())
}

/// The region identifier of a header line: its sixth whitespace-separated
/// column when the header has one, the empty string otherwise.
pub open spec fn header_name(s: Seq<u8>) -> Seq<u8> {
    if split_ws(s).len() > 5 {
        split_ws(s)[5]
    } else {
        Seq::empty()
    }
}

/// Whether a counter line carries a valid value: a second whitespace column
/// that is an unsigned decimal number in `u32` range.
pub open spec fn counter_ok(s: Seq<u8>) -> bool {
    split_ws(s).len() >= 2 && is_u32_numeral(split_ws(s)[1])
}

/// The value of a counter line, in kB.
pub open spec fn counter_value(s: Seq<u8>) -> nat {
    dec_value(split_ws(s)[1])
}

/// A counter line whose value column is missing or not a valid number.
pub open spec fn line_malformed(s: Seq<u8>) -> bool {
    (is_size_counter_line(s) || is_rss_counter_line(s)) && !counter_ok(s)
}

/// The one event a report line produces.
#[derive(Clone, Debug, PartialEq, Eq)]
pub enum LineEvent {
    /// A header opened a new region with this identifier.
    RegionHeader { name: Vec<u8> },
    /// The current region's total mapped size, in kB.
    SizeCounter { value: u32 },
    /// The current region's resident size, in kB; folding trigger.
    ResidentCounter { value: u32 },
    /// A line of no interpreted type.
    Ignored,
}

/// A counter line whose value column is missing or not a valid number.
#[derive(Clone, Copy, Debug, PartialEq, Eq, Structural)]
pub struct ParseError;

/// Classifies one line of the report and extracts what it carries.
pub fn parse_line(line: &[u8]) -> (r: Result<LineEvent, ParseError>)
    ensures
        r is Err <==> line_malformed(line@),
        is_header_line(line@) ==> (r matches Ok(LineEvent::RegionHeader { name })
            && name@ == header_name(line@)),
        is_size_counter_line(line@) && counter_ok(line@) ==> (r matches Ok(
            LineEvent::SizeCounter { value },
        ) && value as nat == counter_value(line@)),
        is_rss_counter_line(line@) && counter_ok(line@) ==> (r matches Ok(
            LineEvent::ResidentCounter { value },
        ) && value as nat == counter_value(line@)),
        !is_header_line(line@) && !is_size_counter_line(line@) && !is_rss_counter_line(line@)
            ==> r matches Ok(LineEvent::Ignored),
{
    if slice_contains_byte(line, 45) {
        let toks = split_whitespace_bytes(line);
        if toks.len() > 5 {
            let name = crate::bytes::copy_bytes(toks[5].as_slice());
            proof {
                assert(toks@.map_values(|t: Vec<u8>| t@)[5] == toks@[5]@);
            }
            Ok(LineEvent::RegionHeader { name })
        } else {
            Ok(LineEvent::RegionHeader { name: Vec::new() })
        }
    } else {
        let sp = size_prefix_vec();
        if has_prefix(line, sp.as_slice()) {
            match second_column_u32(line) {
                Some(value) => Ok(LineEvent::SizeCounter { value }),
                None => Err(ParseError),
            }
        } else {
            let rp = rss_prefix_vec();
            if has_prefix(line, rp.as_slice()) {
                match second_column_u32(line) {
                    Some(value) => Ok(LineEvent::ResidentCounter { value }),
                    None => Err(ParseError),
                }
            } else {
                Ok(LineEvent::Ignored)
            }
        }
    }
}

/// The value of a counter line's second column, when it is a valid number.
fn second_column_u32(line: &[u8]) -> (r: Option<u32>)
    ensures
        r is Some <==> counter_ok(line@),
        r matches Some(v) ==> v as nat == counter_value(line@),
{
    let toks = split_whitespace_bytes(line);
    if toks.len() < 2 {
        None
    } else {
        proof {
            assert(toks@.map_values(|t: Vec<u8>| t@)[1] == toks@[1]@);
        }
        parse_u32(toks[1].as_slice())
    }
}

} // verus!
