//! Tests of the line parser, the byte utilities, and argument handling.

use vmm_overhead::args::{parse_args, ConfigError};
use vmm_overhead::bytes::{parse_u32, slice_contains_sub, split_whitespace_bytes};
use vmm_overhead::parse::{parse_line, LineEvent};

fn args_of(xs: &[&str]) -> Vec<Vec<u8>> {
    xs.iter().map(|s| s.as_bytes().to_vec()).collect()
}

#[test]
fn split_whitespace_matches_columns() {
    let toks = split_whitespace_bytes(b"  a bb\tccc \n d  ");
    let toks: Vec<&[u8]> = toks.iter().map(|t| t.as_slice()).collect();
    assert_eq!(toks, vec![b"a".as_slice(), b"bb", b"ccc", b"d"]);
    assert!(split_whitespace_bytes(b"").is_empty());
    assert!(split_whitespace_bytes(b" \t ").is_empty());
}

#[test]
fn parse_u32_accepts_exactly_decimal_u32() {
    assert_eq!(parse_u32(b"0"), Some(0));
    assert_eq!(parse_u32(b"42"), Some(42));
    assert_eq!(parse_u32(b"007"), Some(7));
    assert_eq!(parse_u32(b"4294967295"), Some(u32::MAX));
    assert_eq!(parse_u32(b"4294967296"), None);
    assert_eq!(parse_u32(b"99999999999999999999"), None);
    assert_eq!(parse_u32(b""), None);
    assert_eq!(parse_u32(b"+1"), None);
    assert_eq!(parse_u32(b"-1"), None);
    assert_eq!(parse_u32(b"12a"), None);
    assert_eq!(parse_u32(b" 12"), None);
}

#[test]
fn substring_search_is_exact_and_case_sensitive() {
    assert!(slice_contains_sub(b"/dev/kvm-guest", b"guest"));
    assert!(slice_contains_sub(b"abc", b""));
    assert!(slice_contains_sub(b"", b""));
    assert!(!slice_contains_sub(b"abc", b"abcd"));
    assert!(!slice_contains_sub(b"Guest", b"guest"));
    assert!(slice_contains_sub(b"aab", b"ab"));
}

#[test]
fn header_line_yields_sixth_column_as_name() {
    let ev = parse_line(b"00400000-0040b000 r-xp 00000000 08:02 123 /bin/tool").unwrap();
    assert_eq!(
        ev,
        LineEvent::RegionHeader { name: b"/bin/tool".to_vec() }
    );
}

#[test]
fn short_header_line_yields_empty_name() {
    let ev = parse_line(b"ffffff-fff601000 --xp 00000000 00:00 0").unwrap();
    assert_eq!(ev, LineEvent::RegionHeader { name: Vec::new() });
}

#[test]
fn counter_lines_yield_their_second_column() {
    assert_eq!(
        parse_line(b"Size: 2184 kB").unwrap(),
        LineEvent::SizeCounter { value: 2184 }
    );
    assert_eq!(
        parse_line(b"Rss: 36 kB").unwrap(),
        LineEvent::ResidentCounter { value: 36 }
    );
}

#[test]
fn other_lines_are_ignored() {
    assert_eq!(parse_line(b"Swap: 4 kB").unwrap(), LineEvent::Ignored);
    assert_eq!(parse_line(b"VmFlags: rd wr").unwrap(), LineEvent::Ignored);
    assert_eq!(parse_line(b"").unwrap(), LineEvent::Ignored);
}

#[test]
fn hyphen_takes_priority_over_counter_prefixes() {
    // A hyphen anywhere makes the line a header, even after "Rss:".
    let ev = parse_line(b"Rss: 1-2 kB").unwrap();
    assert_eq!(ev, LineEvent::RegionHeader { name: Vec::new() });
}

#[test]
fn malformed_counter_lines_are_errors() {
    assert!(parse_line(b"Rss: notanumber kB").is_err());
    assert!(parse_line(b"Size: 10q kB").is_err());
    assert!(parse_line(b"Rss:").is_err());
    assert!(parse_line(b"Size: 4294967296 kB").is_err());
}

#[test]
fn parse_args_accepts_size_selector() {
    let r = parse_args(&args_of(&["tool", "1234", "--size=2048"])).unwrap();
    assert_eq!(r.0, 1234);
    assert_eq!(r.1, Some(2048));
    assert_eq!(r.2, None);
}

#[test]
fn parse_args_accepts_name_selector() {
    let r = parse_args(&args_of(&["tool", "7", "--name=guest"])).unwrap();
    assert_eq!(r.0, 7);
    assert_eq!(r.1, None);
    assert_eq!(r.2, Some(b"guest".to_vec()));
}

#[test]
fn parse_args_refuses_missing_arguments() {
    assert_eq!(
        parse_args(&args_of(&["tool", "1234"])),
        Err(ConfigError::MissingArguments)
    );
    assert_eq!(parse_args(&args_of(&[])), Err(ConfigError::MissingArguments));
}

#[test]
fn parse_args_refuses_bad_pid() {
    assert_eq!(
        parse_args(&args_of(&["tool", "12x4", "--size=10"])),
        Err(ConfigError::InvalidPid)
    );
}

#[test]
fn parse_args_refuses_unknown_selector() {
    assert_eq!(
        parse_args(&args_of(&["tool", "1", "--frob=10"])),
        Err(ConfigError::InvalidSelector)
    );
}

#[test]
fn parse_args_refuses_bad_size_value() {
    assert_eq!(
        parse_args(&args_of(&["tool", "1", "--size=ten"])),
        Err(ConfigError::InvalidSize)
    );
    assert_eq!(
        parse_args(&args_of(&["tool", "1", "--size="])),
        Err(ConfigError::InvalidSize)
    );
}
