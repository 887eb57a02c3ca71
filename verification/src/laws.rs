//! Laws of the aggregation: what the single pass guarantees for every
//! report, stated against the model `agg_from` and proved by induction.

use vstd::prelude::*;

use crate::aggregate::{
    agg_from, aggregate, assoc_add, assoc_get, assoc_total, lemma_agg_err_iff_malformed,
    lemma_assoc_add_get, lemma_assoc_add_total, lemma_assoc_add_unique, spec_excluded,
    unique_keys, Entries,
};
use crate::bytes::contains_sub;
use crate::parse::{
    counter_value, header_name, is_header_line, is_rss_counter_line, is_size_counter_line,
    line_malformed,
};

verus! {

/// The sum of the `Rss:` values of the folds from line `i` on whose open
/// region `keep` accepts, tracking the region state exactly as the pass does.
pub open spec fn rss_filtered_from(
    lines: Seq<Seq<u8>>,
    i: int,
    name: Seq<u8>,
    size: nat,
    keep: spec_fn(Seq<u8>, nat) -> bool,
) -> nat
    decreases lines.len() - i,
{
    if i < 0 || i >= lines.len() {
        0
    } else {
        let l = lines[i];
        if is_header_line(l) {
            rss_filtered_from(lines, i + 1, header_name(l), 0, keep)
        } else if is_size_counter_line(l) {
            rss_filtered_from(lines, i + 1, name, counter_value(l), keep)
        } else if is_rss_counter_line(l) {
            (if keep(name, size) {
                counter_value(l)
            } else {
                0
            }) + rss_filtered_from(lines, i + 1, name, size, keep)
        } else {
            rss_filtered_from(lines, i + 1, name, size, keep)
        }
    }
}

/// The sum of the `Rss:` values of the whole report's kept folds.
pub open spec fn rss_total_filtered(lines: Seq<Seq<u8>>, keep: spec_fn(Seq<u8>, nat) -> bool) -> nat {
    rss_filtered_from(lines, 0, Seq::empty(), 0, keep)
}

/// The sum of every `Rss:` value in the report.
pub open spec fn rss_total(lines: Seq<Seq<u8>>) -> nat {
    rss_total_filtered(lines, |n: Seq<u8>, s: nat| true)
}

/// The regions an exclusion criterion keeps.
pub open spec fn kept(guest_size: Option<u32>, guest_name: Option<Seq<u8>>) -> spec_fn(
    Seq<u8>,
    nat,
) -> bool {
    |n: Seq<u8>, s: nat| !spec_excluded(n, s, guest_size, guest_name)
}

/// The filtered sum only reads `keep` pointwise.
proof fn lemma_rss_filtered_congruent(
    lines: Seq<Seq<u8>>,
    i: int,
    name: Seq<u8>,
    size: nat,
    k1: spec_fn(Seq<u8>, nat) -> bool,
    k2: spec_fn(Seq<u8>, nat) -> bool,
)
    requires
        forall|n: Seq<u8>, s: nat| #[trigger] k1(n, s) == k2(n, s),
    ensures
        rss_filtered_from(lines, i, name, size, k1) == rss_filtered_from(lines, i, name, size, k2),
    decreases lines.len() - i,
{
    if 0 <= i < lines.len() {
        let l = lines[i];
        if is_header_line(l) {
            lemma_rss_filtered_congruent(lines, i + 1, header_name(l), 0, k1, k2);
        } else if is_size_counter_line(l) {
            lemma_rss_filtered_congruent(lines, i + 1, name, counter_value(l), k1, k2);
        } else {
            lemma_rss_filtered_congruent(lines, i + 1, name, size, k1, k2);
        }
    }
}

/// The pass adds to the grand total exactly the kept folds' values.
proof fn lemma_agg_from_total(
    lines: Seq<Seq<u8>>,
    i: int,
    name: Seq<u8>,
    size: nat,
    acc: Entries,
    skips: Entries,
    guest_size: Option<u32>,
    guest_name: Option<Seq<u8>>,
    m: Entries,
    sk: Entries,
)
    requires
        0 <= i,
        agg_from(lines, i, name, size, acc, skips, guest_size, guest_name) == Some((m, sk)),
    ensures
        assoc_total(m) == assoc_total(acc) + rss_filtered_from(
            lines,
            i,
            name,
            size,
            kept(guest_size, guest_name),
        ),
    decreases lines.len() - i,
{
    let keep = kept(guest_size, guest_name);
    if i >= lines.len() {
    } else {
        let l = lines[i];
        if is_header_line(l) {
            lemma_agg_from_total(
                lines, i + 1, header_name(l), 0, acc, skips, guest_size, guest_name, m, sk);
        } else if is_size_counter_line(l) {
            lemma_agg_from_total(
                lines, i + 1, name, counter_value(l), acc, skips, guest_size, guest_name, m, sk);
        } else if is_rss_counter_line(l) {
            if spec_excluded(name, size, guest_size, guest_name) {
                lemma_agg_from_total(
                    lines, i + 1, name, size, acc, skips.push((name, counter_value(l))),
                    guest_size, guest_name, m, sk);
            } else {
                lemma_agg_from_total(
                    lines, i + 1, name, size, assoc_add(acc, name, counter_value(l)), skips,
                    guest_size, guest_name, m, sk);
                lemma_assoc_add_total(acc, name, counter_value(l));
            }
        } else {
            lemma_agg_from_total(
                lines, i + 1, name, size, acc, skips, guest_size, guest_name, m, sk);
        }
    }
}

/// With no exclusion configured, the grand total equals the sum of every
/// `Rss:` value in the report.
pub proof fn lemma_total_without_exclusion(lines: Seq<Seq<u8>>, m: Entries, sk: Entries)
    requires
        aggregate(lines, None, None) == Some((m, sk)),
    ensures
        assoc_total(m) == rss_total(lines),
{
    lemma_agg_from_total(
        lines, 0, Seq::empty(), 0, Seq::empty(), Seq::empty(), None, None, m, sk);
    assert(assoc_total(Seq::<(Seq<u8>, nat)>::empty()) == 0);
    lemma_rss_filtered_congruent(
        lines, 0, Seq::empty(), 0, kept(None, None), |n: Seq<u8>, s: nat| true);
}

/// Excluding by mapped size removes exactly the folds of regions whose
/// `Size:` equals the given value, and no others: the grand total is the sum
/// over the regions of every other size.
pub proof fn lemma_excluded_by_size(lines: Seq<Seq<u8>>, gs: u32, m: Entries, sk: Entries)
    requires
        aggregate(lines, Some(gs), None) == Some((m, sk)),
    ensures
        assoc_total(m) == rss_total_filtered(lines, |n: Seq<u8>, s: nat| s != gs as nat),
{
    lemma_agg_from_total(
        lines, 0, Seq::empty(), 0, Seq::empty(), Seq::empty(), Some(gs), None, m, sk);
    assert(assoc_total(Seq::<(Seq<u8>, nat)>::empty()) == 0);
    lemma_rss_filtered_congruent(
        lines, 0, Seq::empty(), 0, kept(Some(gs), None), |n: Seq<u8>, s: nat| s != gs as nat);
}

/// Excluding by name removes exactly the folds of regions whose identifier
/// contains the given substring (case-sensitive), and no others.
pub proof fn lemma_excluded_by_name(lines: Seq<Seq<u8>>, p: Seq<u8>, m: Entries, sk: Entries)
    requires
        aggregate(lines, None, Some(p)) == Some((m, sk)),
    ensures
        assoc_total(m) == rss_total_filtered(lines, |n: Seq<u8>, s: nat| !contains_sub(n, p)),
{
    lemma_agg_from_total(
        lines, 0, Seq::empty(), 0, Seq::empty(), Seq::empty(), None, Some(p), m, sk);
    assert(assoc_total(Seq::<(Seq<u8>, nat)>::empty()) == 0);
    lemma_rss_filtered_congruent(
        lines, 0, Seq::empty(), 0, kept(None, Some(p)), |n: Seq<u8>, s: nat| !contains_sub(n, p));
}

/// The empty substring occurs in every identifier, so excluding by it
/// excludes every region — labeled or not — and the grand total is 0.
pub proof fn lemma_empty_pattern_excludes_all(lines: Seq<Seq<u8>>, m: Entries, sk: Entries)
    requires
        aggregate(lines, None, Some(Seq::empty())) == Some((m, sk)),
    ensures
        assoc_total(m) == 0,
{
    lemma_agg_from_total(
        lines, 0, Seq::empty(), 0, Seq::empty(), Seq::empty(), None, Some(Seq::empty()), m, sk);
    assert(assoc_total(Seq::<(Seq<u8>, nat)>::empty()) == 0);
    assert forall|n: Seq<u8>, s: nat| #[trigger] kept(None, Some(Seq::<u8>::empty()))(n, s)
        == false by {
        let p = Seq::<u8>::empty();
        assert(n.subrange(0, 0 + p.len() as int) =~= p);
        assert(contains_sub(n, p));
    }
    lemma_rss_filtered_congruent(
        lines, 0, Seq::empty(), 0, kept(None, Some(Seq::empty())), |n: Seq<u8>, s: nat| false);
    lemma_rss_filtered_none(lines, 0, Seq::empty(), 0);
}

/// A filter that keeps nothing sums to nothing.
proof fn lemma_rss_filtered_none(lines: Seq<Seq<u8>>, i: int, name: Seq<u8>, size: nat)
    ensures
        rss_filtered_from(lines, i, name, size, |n: Seq<u8>, s: nat| false) == 0,
    decreases lines.len() - i,
{
    if 0 <= i < lines.len() {
        let l = lines[i];
        if is_header_line(l) {
            lemma_rss_filtered_none(lines, i + 1, header_name(l), 0);
        } else if is_size_counter_line(l) {
            lemma_rss_filtered_none(lines, i + 1, name, counter_value(l));
        } else {
            lemma_rss_filtered_none(lines, i + 1, name, size);
        }
    }
}

/// The kept folds of one region identifier from line `i` on: what the map's
/// entry under that identifier accumulates.
pub open spec fn key_rss_from(
    lines: Seq<Seq<u8>>,
    i: int,
    name: Seq<u8>,
    size: nat,
    k: Seq<u8>,
    guest_size: Option<u32>,
    guest_name: Option<Seq<u8>>,
) -> nat
    decreases lines.len() - i,
{
    if i < 0 || i >= lines.len() {
        0
    } else {
        let l = lines[i];
        if is_header_line(l) {
            key_rss_from(lines, i + 1, header_name(l), 0, k, guest_size, guest_name)
        } else if is_size_counter_line(l) {
            key_rss_from(lines, i + 1, name, counter_value(l), k, guest_size, guest_name)
        } else if is_rss_counter_line(l) {
            (if !spec_excluded(name, size, guest_size, guest_name) && name == k {
                counter_value(l)
            } else {
                0
            }) + key_rss_from(lines, i + 1, name, size, k, guest_size, guest_name)
        } else {
            key_rss_from(lines, i + 1, name, size, k, guest_size, guest_name)
        }
    }
}

/// The pass adds under each key exactly that key's kept folds.
proof fn lemma_agg_from_key(
    lines: Seq<Seq<u8>>,
    i: int,
    name: Seq<u8>,
    size: nat,
    acc: Entries,
    skips: Entries,
    guest_size: Option<u32>,
    guest_name: Option<Seq<u8>>,
    m: Entries,
    sk: Entries,
    k: Seq<u8>,
)
    requires
        0 <= i,
        agg_from(lines, i, name, size, acc, skips, guest_size, guest_name) == Some((m, sk)),
    ensures
        assoc_get(m, k) == assoc_get(acc, k) + key_rss_from(
            lines,
            i,
            name,
            size,
            k,
            guest_size,
            guest_name,
        ),
    decreases lines.len() - i,
{
    if i >= lines.len() {
    } else {
        let l = lines[i];
        if is_header_line(l) {
            lemma_agg_from_key(
                lines, i + 1, header_name(l), 0, acc, skips, guest_size, guest_name, m, sk, k);
        } else if is_size_counter_line(l) {
            lemma_agg_from_key(
                lines, i + 1, name, counter_value(l), acc, skips, guest_size, guest_name, m, sk,
                k);
        } else if is_rss_counter_line(l) {
            if spec_excluded(name, size, guest_size, guest_name) {
                lemma_agg_from_key(
                    lines, i + 1, name, size, acc, skips.push((name, counter_value(l))),
                    guest_size, guest_name, m, sk, k);
            } else {
                lemma_agg_from_key(
                    lines, i + 1, name, size, assoc_add(acc, name, counter_value(l)), skips,
                    guest_size, guest_name, m, sk, k);
                lemma_assoc_add_get(acc, name, counter_value(l), k);
            }
        } else {
            lemma_agg_from_key(
                lines, i + 1, name, size, acc, skips, guest_size, guest_name, m, sk, k);
        }
    }
}

/// The pass keeps the map's keys unique.
proof fn lemma_agg_from_unique(
    lines: Seq<Seq<u8>>,
    i: int,
    name: Seq<u8>,
    size: nat,
    acc: Entries,
    skips: Entries,
    guest_size: Option<u32>,
    guest_name: Option<Seq<u8>>,
    m: Entries,
    sk: Entries,
)
    requires
        0 <= i,
        unique_keys(acc),
        agg_from(lines, i, name, size, acc, skips, guest_size, guest_name) == Some((m, sk)),
    ensures
        unique_keys(m),
    decreases lines.len() - i,
{
    if i >= lines.len() {
    } else {
        let l = lines[i];
        if is_header_line(l) {
            lemma_agg_from_unique(
                lines, i + 1, header_name(l), 0, acc, skips, guest_size, guest_name, m, sk);
        } else if is_size_counter_line(l) {
            lemma_agg_from_unique(
                lines, i + 1, name, counter_value(l), acc, skips, guest_size, guest_name, m, sk);
        } else if is_rss_counter_line(l) {
            if spec_excluded(name, size, guest_size, guest_name) {
                lemma_agg_from_unique(
                    lines, i + 1, name, size, acc, skips.push((name, counter_value(l))),
                    guest_size, guest_name, m, sk);
            } else {
                lemma_assoc_add_unique(acc, name, counter_value(l));
                lemma_agg_from_unique(
                    lines, i + 1, name, size, assoc_add(acc, name, counter_value(l)), skips,
                    guest_size, guest_name, m, sk);
            }
        } else {
            lemma_agg_from_unique(
                lines, i + 1, name, size, acc, skips, guest_size, guest_name, m, sk);
        }
    }
}

/// A region identifier repeated across headers accumulates into one entry:
/// the map holds each identifier once, and its value is the sum of all kept
/// folds under that identifier.
pub proof fn lemma_repeated_names_accumulate(
    lines: Seq<Seq<u8>>,
    guest_size: Option<u32>,
    guest_name: Option<Seq<u8>>,
    m: Entries,
    sk: Entries,
    k: Seq<u8>,
)
    requires
        aggregate(lines, guest_size, guest_name) == Some((m, sk)),
    ensures
        unique_keys(m),
        assoc_get(m, k) == key_rss_from(lines, 0, Seq::empty(), 0, k, guest_size, guest_name),
{
    assert(assoc_get(Seq::<(Seq<u8>, nat)>::empty(), k) == 0);
    lemma_agg_from_key(
        lines, 0, Seq::empty(), 0, Seq::empty(), Seq::empty(), guest_size, guest_name, m, sk, k);
    lemma_agg_from_unique(
        lines, 0, Seq::empty(), 0, Seq::empty(), Seq::empty(), guest_size, guest_name, m, sk);
}

/// The aggregation is a function of the report and the criterion alone: two
/// runs over the same lines yield the same map and the same skip log.
pub proof fn lemma_aggregation_deterministic(
    lines: Seq<Seq<u8>>,
    guest_size: Option<u32>,
    guest_name: Option<Seq<u8>>,
    r1: (Entries, Entries),
    r2: (Entries, Entries),
)
    requires
        aggregate(lines, guest_size, guest_name) == Some(r1),
        aggregate(lines, guest_size, guest_name) == Some(r2),
    ensures
        r1 == r2,
{
}

/// A report with no resident counter yields the empty map and a total of 0.
proof fn lemma_agg_from_no_rss(
    lines: Seq<Seq<u8>>,
    i: int,
    name: Seq<u8>,
    size: nat,
    acc: Entries,
    skips: Entries,
    guest_size: Option<u32>,
    guest_name: Option<Seq<u8>>,
)
    requires
        0 <= i,
        forall|j: int|
            i <= j < lines.len() ==> !is_rss_counter_line(#[trigger] lines[j]) && !line_malformed(
                lines[j],
            ),
    ensures
        agg_from(lines, i, name, size, acc, skips, guest_size, guest_name) == Some((acc, skips)),
    decreases lines.len() - i,
{
    if i < lines.len() {
        let l = lines[i];
        if is_header_line(l) {
            lemma_agg_from_no_rss(
                lines, i + 1, header_name(l), 0, acc, skips, guest_size, guest_name);
        } else if is_size_counter_line(l) {
            lemma_agg_from_no_rss(
                lines, i + 1, name, counter_value(l), acc, skips, guest_size, guest_name);
        } else {
            lemma_agg_from_no_rss(lines, i + 1, name, size, acc, skips, guest_size, guest_name);
        }
    }
}

/// A report with zero regions — none of its lines is a resident counter, and
/// none is malformed — yields the empty map, an empty skip log, and so a
/// grand total of 0. The empty report is the simplest such report.
pub proof fn lemma_no_regions_no_overhead(
    lines: Seq<Seq<u8>>,
    guest_size: Option<u32>,
    guest_name: Option<Seq<u8>>,
)
    requires
        forall|j: int|
            0 <= j < lines.len() ==> !is_rss_counter_line(#[trigger] lines[j]) && !line_malformed(
                lines[j],
            ),
    ensures
        aggregate(lines, guest_size, guest_name) == Some(
            (Seq::<(Seq<u8>, nat)>::empty(), Seq::<(Seq<u8>, nat)>::empty()),
        ),
        assoc_total(Seq::<(Seq<u8>, nat)>::empty()) == 0,
{
    lemma_agg_from_no_rss(
        lines, 0, Seq::empty(), 0, Seq::empty(), Seq::empty(), guest_size, guest_name);
}

/// The aggregation fails exactly on the reports that hold a malformed
/// counter line, whatever the exclusion criterion.
pub proof fn lemma_error_iff_malformed(
    lines: Seq<Seq<u8>>,
    guest_size: Option<u32>,
    guest_name: Option<Seq<u8>>,
)
    ensures
        aggregate(lines, guest_size, guest_name) is None <==> exists|j: int|
            0 <= j < lines.len() && #[trigger] line_malformed(lines[j]),
{
    lemma_agg_err_iff_malformed(
        lines, 0, Seq::empty(), 0, Seq::empty(), Seq::empty(), guest_size, guest_name);
}

} // verus!
