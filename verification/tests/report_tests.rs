//! End-to-end tests of the aggregation pass and the finished report.

use vmm_overhead::aggregate::compute_overhead;
use vmm_overhead::report::{grand_total, overhead_report, sorted_entries};

fn to_lines(xs: &[&str]) -> Vec<Vec<u8>> {
    xs.iter().map(|s| s.as_bytes().to_vec()).collect()
}

fn region(name: &str, value: u64) -> (Vec<u8>, u64) {
    (name.as_bytes().to_vec(), value)
}

#[test]
fn total_without_exclusion_sums_every_rss() {
    let lines = to_lines(&[
        "00400000-0040b000 r-xp 00000000 08:02 123 /bin/tool",
        "Size: 44 kB",
        "Rss: 12 kB",
        "7f0000000000-7f0000021000 rw-p 00000000 00:00 0 [heap]",
        "Size: 132 kB",
        "Rss: 36 kB",
        "7fff00000000-7fff00021000 rw-p 00000000 00:00 0",
        "Size: 8 kB",
        "Rss: 4 kB",
    ]);
    let rep = overhead_report(&lines, None, &None).unwrap();
    assert_eq!(rep.total, 12 + 36 + 4);
    assert!(rep.skipped.is_empty());
}

#[test]
fn size_exclusion_removes_exact_matches_only() {
    let lines = to_lines(&[
        "a-b x 0 0 0 small",
        "Size: 1024 kB",
        "Rss: 10 kB",
        "c-d x 0 0 0 guest",
        "Size: 2048 kB",
        "Rss: 1500 kB",
        "e-f x 0 0 0 large",
        "Size: 4096 kB",
        "Rss: 20 kB",
    ]);
    let rep = overhead_report(&lines, Some(2048), &None).unwrap();
    assert_eq!(rep.total, 30);
    assert_eq!(rep.regions, vec![region("small", 10), region("large", 20)]);
    assert_eq!(rep.skipped, vec![("guest".as_bytes().to_vec(), 1500u32)]);
}

#[test]
fn name_exclusion_removes_regions_containing_substring() {
    let lines = to_lines(&[
        "a-b x 0 0 0 /dev/kvm-guest",
        "Size: 100 kB",
        "Rss: 50 kB",
        "c-d x 0 0 0 /lib/libc.so",
        "Size: 200 kB",
        "Rss: 25 kB",
        "e-f x 0 0 0",
        "Size: 300 kB",
        "Rss: 5 kB",
    ]);
    let guest = Some("guest".as_bytes().to_vec());
    let rep = overhead_report(&lines, None, &guest).unwrap();
    assert_eq!(rep.total, 30);
    assert_eq!(rep.regions, vec![region("", 5), region("/lib/libc.so", 25)]);
    assert_eq!(rep.skipped, vec![("/dev/kvm-guest".as_bytes().to_vec(), 50u32)]);
}

#[test]
fn empty_substring_excludes_every_region() {
    // The empty string occurs in every identifier, the unlabeled (empty)
    // one included, so nothing is counted.
    let lines = to_lines(&[
        "a-b x 0 0 0 named",
        "Rss: 10 kB",
        "c-d x 0 0 0",
        "Rss: 20 kB",
    ]);
    let guest = Some(Vec::new());
    let rep = overhead_report(&lines, None, &guest).unwrap();
    assert_eq!(rep.total, 0);
    assert!(rep.regions.is_empty());
    assert_eq!(rep.skipped.len(), 2);
}

#[test]
fn repeated_identifiers_accumulate_into_one_entry() {
    let lines = to_lines(&[
        "a-b x 0 0 0 libc.so",
        "Rss: 10 kB",
        "c-d x 0 0 0 libc.so",
        "Rss: 5 kB",
    ]);
    let (map, skipped) = compute_overhead(&lines, None, &None).unwrap();
    assert_eq!(map.len(), 1);
    assert_eq!(map.get(b"libc.so"), Some(15));
    assert!(skipped.is_empty());
    assert_eq!(grand_total(&map), 15);
}

#[test]
fn aggregation_is_deterministic() {
    let lines = to_lines(&[
        "a-b x 0 0 0 one",
        "Size: 10 kB",
        "Rss: 7 kB",
        "c-d x 0 0 0 two",
        "Size: 10 kB",
        "Rss: 7 kB",
        "e-f x 0 0 0 three",
        "Size: 20 kB",
        "Rss: 3 kB",
    ]);
    let first = overhead_report(&lines, Some(20), &None).unwrap();
    let second = overhead_report(&lines, Some(20), &None).unwrap();
    assert_eq!(first.regions, second.regions);
    assert_eq!(first.skipped, second.skipped);
    assert_eq!(first.total, second.total);
}

#[test]
fn empty_report_yields_empty_map_and_zero_total() {
    let lines: Vec<Vec<u8>> = Vec::new();
    let rep = overhead_report(&lines, None, &None).unwrap();
    assert!(rep.regions.is_empty());
    assert!(rep.skipped.is_empty());
    assert_eq!(rep.total, 0);
}

#[test]
fn report_without_counters_yields_zero_total() {
    let lines = to_lines(&[
        "a-b x 0 0 0 quiet",
        "Swap: 4 kB",
        "VmFlags: rd wr",
    ]);
    let rep = overhead_report(&lines, None, &None).unwrap();
    assert!(rep.regions.is_empty());
    assert_eq!(rep.total, 0);
}

#[test]
fn malformed_rss_value_is_a_parse_error() {
    let lines = to_lines(&[
        "a-b x 0 0 0 ok",
        "Size: 10 kB",
        "Rss: notanumber kB",
    ]);
    assert!(overhead_report(&lines, None, &None).is_err());
    assert!(compute_overhead(&lines, None, &None).is_err());
}

#[test]
fn malformed_size_value_is_a_parse_error() {
    let lines = to_lines(&["a-b x 0 0 0 ok", "Size: 10q kB", "Rss: 4 kB"]);
    assert!(overhead_report(&lines, None, &None).is_err());
}

#[test]
fn missing_counter_value_is_a_parse_error() {
    let lines = to_lines(&["a-b x 0 0 0 ok", "Rss:"]);
    assert!(overhead_report(&lines, None, &None).is_err());
}

#[test]
fn end_to_end_heap_kept_guest_ram_excluded() {
    let lines = to_lines(&[
        "55e000000000-55e000019000 rw-p 00000000 00:00 0 [heap]",
        "Size: 100 kB",
        "Rss: 40 kB",
        "7f4200000000-7f4280000000 rw-p 00000000 00:00 0",
        "Size: 2048 kB",
        "Rss: 2000 kB",
    ]);
    let rep = overhead_report(&lines, Some(2048), &None).unwrap();
    assert_eq!(rep.regions, vec![region("[heap]", 40)]);
    assert_eq!(rep.total, 40);
    assert_eq!(rep.skipped, vec![(Vec::new(), 2000u32)]);
}

#[test]
fn regions_sorted_ascending_by_resident_size() {
    let lines = to_lines(&[
        "a-b x 0 0 0 big",
        "Rss: 300 kB",
        "c-d x 0 0 0 tiny",
        "Rss: 1 kB",
        "e-f x 0 0 0 mid",
        "Rss: 40 kB",
    ]);
    let rep = overhead_report(&lines, None, &None).unwrap();
    assert_eq!(
        rep.regions,
        vec![region("tiny", 1), region("mid", 40), region("big", 300)]
    );
}

#[test]
fn equal_totals_keep_insertion_order() {
    let lines = to_lines(&[
        "a-b x 0 0 0 first",
        "Rss: 8 kB",
        "c-d x 0 0 0 second",
        "Rss: 8 kB",
        "e-f x 0 0 0 third",
        "Rss: 8 kB",
    ]);
    let (map, _) = compute_overhead(&lines, None, &None).unwrap();
    let sorted = sorted_entries(&map);
    assert_eq!(
        sorted,
        vec![region("first", 8), region("second", 8), region("third", 8)]
    );
}

#[test]
fn size_state_resets_on_each_header() {
    // The second region has no Size: line of its own, so the guest size
    // must not leak into it from the first region.
    let lines = to_lines(&[
        "a-b x 0 0 0 guest",
        "Size: 2048 kB",
        "Rss: 500 kB",
        "c-d x 0 0 0 other",
        "Rss: 9 kB",
    ]);
    let rep = overhead_report(&lines, Some(2048), &None).unwrap();
    assert_eq!(rep.regions, vec![region("other", 9)]);
    assert_eq!(rep.total, 9);
}

#[test]
fn rss_zero_still_creates_an_entry() {
    let lines = to_lines(&["a-b x 0 0 0 idle", "Rss: 0 kB"]);
    let (map, _) = compute_overhead(&lines, None, &None).unwrap();
    assert_eq!(map.len(), 1);
    assert_eq!(map.get(b"idle"), Some(0));
}

#[test]
fn both_criteria_apply_when_both_are_given() {
    let lines = to_lines(&[
        "a-b x 0 0 0 guest-ram",
        "Size: 100 kB",
        "Rss: 60 kB",
        "c-d x 0 0 0 plain",
        "Size: 2048 kB",
        "Rss: 30 kB",
        "e-f x 0 0 0 kept",
        "Size: 4 kB",
        "Rss: 2 kB",
    ]);
    let guest = Some("guest".as_bytes().to_vec());
    let rep = overhead_report(&lines, Some(2048), &guest).unwrap();
    assert_eq!(rep.regions, vec![region("kept", 2)]);
    assert_eq!(rep.total, 2);
    assert_eq!(rep.skipped.len(), 2);
}
