//! Invocation configuration: the target process identifier and exactly one
//! exclusion selector, `--size=<kB>` or `--name=<substring>`, taken from the
//! positional arguments.

use vstd::prelude::*;

use crate::bytes::{dec_value, is_u32_numeral, parse_u32};
use crate::parse::starts_with;

verus! {

/// A configuration the invocation must refuse.
#[derive(Clone, Copy, Debug, PartialEq, Eq, Structural)]
pub enum ConfigError {
    /// Fewer than two positional arguments.
    MissingArguments,
    /// The first positional argument is not an unsigned decimal number.
    InvalidPid,
    /// The second positional argument starts with neither selector.
    InvalidSelector,
    /// `--size=` is not followed by an unsigned decimal number.
    InvalidSize,
}

/// The bytes of `--size=`.
pub open spec fn size_selector_prefix() -> Seq<u8> {
    seq![45u8, 45u8, 115u8, 105u8, 122u8, 101u8, 61u8]
}

/// The bytes of `--name=`.
pub open spec fn name_selector_prefix() -> Seq<u8> {
    seq![45u8, 45u8, 110u8, 97u8, 109u8, 101u8, 61u8]
}

/// What the argument vector means: the process identifier and exactly one
/// exclusion parameter, or the error that refuses it. `args[0]` is the
/// program's own name; the positional arguments follow it.
pub open spec fn spec_parse_args(args: Seq<Seq<u8>>) -> Result<
    (nat, Option<nat>, Option<Seq<u8>>),
    ConfigError,
> {
    if args.len() < 3 {
        Err(ConfigError::MissingArguments)
    } else if !is_u32_numeral(args[1]) {
        Err(ConfigError::InvalidPid)
    } else if starts_with(args[2], size_selector_prefix()) {
        let rest = args[2].skip(size_selector_prefix().len() as int);
        if is_u32_numeral(rest) {
            Ok((dec_value(args[1]), Some(dec_value(rest)), None))
        } else {
            Err(ConfigError::InvalidSize)
        }
    } else if starts_with(args[2], name_selector_prefix()) {
        Ok((dec_value(args[1]), None, Some(args[2].skip(name_selector_prefix().len() as int))))
    } else {
        Err(ConfigError::InvalidSelector)
    }
}

fn selector_prefix_vecs() -> (p: (Vec<u8>, Vec<u8>))
    ensures
        p.0@ == size_selector_prefix(),
        p.1@ == name_selector_prefix(),
{
    let mut s: Vec<u8> = Vec::new();
    s.push(45);
    s.push(45);
    s.push(115);
    s.push(105);
    s.push(122);
    s.push(101);
    s.push(61);
    let mut n: Vec<u8> = Vec::new();
    n.push(45);
    n.push(45);
    n.push(110);
    n.push(97);
    n.push(109);
    n.push(101);
    n.push(61);
    proof {
        assert(s@ =~= size_selector_prefix());
        assert(n@ =~= name_selector_prefix());
    }
    (s, n)
}

/// Reads the invocation's arguments: the target process identifier, then
/// one selector, `--size=<kB>` or `--name=<substring>`. Anything else is a
/// configuration error, refused before any report is read.
pub fn parse_args(args: &Vec<Vec<u8>>) -> (r: Result<(u32, Option<u32>, Option<Vec<u8>>), ConfigError>)
    ensures
        r matches Ok(c) ==> (spec_parse_args(crate::aggregate::lines_view(args@)) matches Ok(t)
            && c.0 as nat == t.0
            && (match (c.1, t.1) {
                (Some(v), Some(w)) => v as nat == w,
                (None, None) => true,
                _ => false,
            })
            && (match (c.2, t.2) {
                (Some(v), Some(w)) => v@ == w,
                (None, None) => true,
                _ => false,
            })),
        r matches Err(e) ==> spec_parse_args(crate::aggregate::lines_view(args@)) == Err::<
            (nat, Option<nat>, Option<Seq<u8>>),
            ConfigError,
        >(e),
{
    let ghost av = crate::aggregate::lines_view(args@);
    if args.len() < 3 {
        return Err(ConfigError::MissingArguments);
    }
    proof {
        assert(av[1] == args@[1]@ && av[2] == args@[2]@);
    }
    let pid = match parse_u32(args[1].as_slice()) {
        Some(p) => p,
        None => {
            return Err(ConfigError::InvalidPid);
        },
    };
    let (size_sel, name_sel) = selector_prefix_vecs();
    let arg2 = args[2].as_slice();
    if crate::parse::has_prefix(arg2, size_sel.as_slice()) {
        let rest = vstd::slice::slice_subrange(arg2, 7, arg2.len());
        proof {
            assert(rest@ =~= av[2].skip(size_selector_prefix().len() as int));
        }
        match parse_u32(rest) {
            Some(v) => Ok((pid, Some(v), None)),
            None => Err(ConfigError::InvalidSize),
        }
    } else if crate::parse::has_prefix(arg2, name_sel.as_slice()) {
        let rest = vstd::slice::slice_subrange(arg2, 7, arg2.len());
        let name = crate::bytes::copy_bytes(rest);
        proof {
            assert(name@ =~= av[2].skip(name_selector_prefix().len() as int));
        }
        Ok((pid, None, Some(name)))
    } else {
        Err(ConfigError::InvalidSelector)
    }
}

} // verus!
