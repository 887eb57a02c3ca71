//! The finished report: regions sorted ascending by accumulated resident
//! size (stable, so ties keep insertion order), the skip log, and the grand
//! total.

use vstd::prelude::*;

use crate::aggregate::{
    aggregate, assoc_total, compute_overhead, entries_view, lines_view, opt_name_view, skips_view,
    Entries, OverheadMap,
};
use crate::parse::{line_malformed, ParseError};

verus! {

broadcast use vstd::seq_lib::group_to_multiset_ensures;

/// Entries in ascending order of accumulated resident size.
pub open spec fn sorted_by_value(s: Entries) -> bool {
    forall|i: int, j: int| 0 <= i < j < s.len() ==> s[i].1 <= s[j].1
}

/// Insertion of one entry behind every entry of equal or smaller value.
pub open spec fn insert_sorted(s: Entries, e: (Seq<u8>, nat)) -> Entries
    decreases s.len(),
{
    if s.len() == 0 {
        seq![e]
    } else if s[0].1 <= e.1 {
        seq![s[0]] + insert_sorted(s.drop_first(), e)
    } else {
        seq![e] + s
    }
}

/// The stable ascending-by-value sort: entries inserted left to right, each
/// behind its equals, so ties keep their insertion order.
pub open spec fn stable_sort_by_value(s: Entries) -> Entries
    decreases s.len(),
{
    if s.len() == 0 {
        Seq::empty()
    } else {
        insert_sorted(stable_sort_by_value(s.drop_last()), s.last())
    }
}

/// Inserting behind every entry of equal or smaller value is an insertion at
/// the first position holding a strictly larger value.
proof fn lemma_insert_sorted_at(s: Entries, e: (Seq<u8>, nat), pos: int)
    requires
        0 <= pos <= s.len(),
        forall|j: int| 0 <= j < pos ==> s[j].1 <= e.1,
        pos == s.len() || s[pos].1 > e.1,
    ensures
        insert_sorted(s, e) == s.insert(pos, e),
    decreases pos,
{
    if pos == 0 {
        assert(insert_sorted(s, e) =~= s.insert(0, e));
    } else {
        assert(s[0].1 <= e.1);
        let t = s.drop_first();
        assert forall|j: int| 0 <= j < pos - 1 implies t[j].1 <= e.1 by {
            assert(t[j] == s[j + 1]);
        }
        if pos - 1 < t.len() {
            assert(t[pos - 1] == s[pos]);
        }
        lemma_insert_sorted_at(t, e, pos - 1);
        assert(insert_sorted(s, e) =~= s.insert(pos, e));
    }
}

/// Appending an entry raises the grand total by exactly its value.
proof fn lemma_total_push(s: Entries, e: (Seq<u8>, nat))
    ensures
        assoc_total(s.push(e)) == assoc_total(s) + e.1,
    decreases s.len(),
{
    let r = s.push(e);
    if s.len() == 0 {
        assert(r.len() == 1 && r[0] == e);
        assert(r.drop_first() =~= Seq::<(Seq<u8>, nat)>::empty());
        assert(assoc_total(r.drop_first()) == 0);
        assert(assoc_total(r) == r[0].1 + assoc_total(r.drop_first()));
    } else {
        assert(r[0] == s[0]);
        assert(r.drop_first() =~= s.drop_first().push(e));
        lemma_total_push(s.drop_first(), e);
        assert(assoc_total(r) == r[0].1 + assoc_total(r.drop_first()));
        assert(assoc_total(s) == s[0].1 + assoc_total(s.drop_first()));
    }
}

/// A prefix's total never exceeds the whole total.
proof fn lemma_total_take_le(s: Entries, i: int)
    requires
        0 <= i <= s.len(),
    ensures
        assoc_total(s.take(i)) <= assoc_total(s),
    decreases s.len() - i,
{
    if i < s.len() {
        assert(s.take(i + 1) =~= s.take(i).push(s[i]));
        lemma_total_push(s.take(i), s[i]);
        lemma_total_take_le(s, i + 1);
    } else {
        assert(s.take(i) =~= s);
    }
}

/// Removing an entry lowers the grand total by exactly its value.
proof fn lemma_total_remove(s: Entries, i: int)
    requires
        0 <= i < s.len(),
    ensures
        assoc_total(s) == assoc_total(s.remove(i)) + s[i].1,
    decreases i,
{
    if i == 0 {
        assert(s.remove(0) =~= s.drop_first());
        assert(assoc_total(s) == s[0].1 + assoc_total(s.drop_first()));
    } else {
        assert(s.remove(i)[0] == s[0]);
        assert(s.remove(i).drop_first() =~= s.drop_first().remove(i - 1));
        assert(s.drop_first()[i - 1] == s[i]);
        lemma_total_remove(s.drop_first(), i - 1);
        assert(assoc_total(s) == s[0].1 + assoc_total(s.drop_first()));
        assert(assoc_total(s.remove(i)) == s.remove(i)[0].1 + assoc_total(s.remove(i).drop_first()));
    }
}

/// The grand total reads the entries as a bag: any reordering — the sort
/// included — leaves it unchanged.
pub proof fn lemma_total_order_independent(a: Entries, b: Entries)
    requires
        a.to_multiset() == b.to_multiset(),
    ensures
        assoc_total(a) == assoc_total(b),
    decreases a.len(),
{
    if a.len() == 0 {
        assert(b.to_multiset().len() == 0);
        assert(b.len() == 0);
    } else {
        let e = a[0];
        assert(a.contains(e));
        assert(b.to_multiset().count(e) > 0);
        assert(b.contains(e));
        let j = choose|j: int| 0 <= j < b.len() && b[j] == e;
        assert(a.remove(0).to_multiset() == a.to_multiset().remove(e));
        assert(b.remove(j).to_multiset() == b.to_multiset().remove(e));
        assert(a.remove(0) =~= a.drop_first());
        lemma_total_order_independent(a.drop_first(), b.remove(j));
        lemma_total_remove(b, j);
        assert(assoc_total(a) == a[0].1 + assoc_total(a.drop_first()));
    }
}

/// The sum of all accumulated resident sizes, in kB.
pub fn grand_total(m: &OverheadMap) -> (t: u64)
    requires
        assoc_total(m@) <= u64::MAX,
    ensures
        t as nat == assoc_total(m@),
{
    let mut t: u64 = 0;
    let mut i: usize = 0;
    let n = m.len();
    proof {
        assert(m@.take(0) =~= Seq::<(Seq<u8>, nat)>::empty());
    }
    while i < n
        invariant
            i <= m@.len(),
            n == m@.len(),
            assoc_total(m@) <= u64::MAX,
            t as nat == assoc_total(m@.take(i as int)),
        decreases m@.len() - i,
    {
        let e = m.entry_at(i);
        proof {
            lemma_total_push(m@.take(i as int), m@[i as int]);
            assert(m@.take(i + 1) =~= m@.take(i as int).push(m@[i as int]));
            lemma_total_take_le(m@, i + 1);
        }
        t = t + e.1;
        i = i + 1;
    }
    proof {
        assert(m@.take(m@.len() as int) =~= m@);
    }
    t
}

/// The map's entries sorted ascending by accumulated resident size. The sort
/// is stable: each entry is inserted after every entry of equal or smaller
/// value, so equal values keep their insertion order.
#[verifier::loop_isolation(false)]
pub fn sorted_entries(m: &OverheadMap) -> (r: Vec<(Vec<u8>, u64)>)
    ensures
        entries_view(r@) == stable_sort_by_value(m@),
        sorted_by_value(entries_view(r@)),
        entries_view(r@).to_multiset() == m@.to_multiset(),
{
    let mut out: Vec<(Vec<u8>, u64)> = Vec::new();
    let mut i: usize = 0;
    let n = m.len();
    proof {
        assert(entries_view(out@) =~~= Seq::<(Seq<u8>, nat)>::empty());
        assert(m@.take(0) =~= Seq::<(Seq<u8>, nat)>::empty());
        assert(entries_view(out@).to_multiset() =~= m@.take(0).to_multiset());
    }
    while i < n
        invariant
            i <= m@.len(),
            sorted_by_value(entries_view(out@)),
            entries_view(out@) == stable_sort_by_value(m@.take(i as int)),
            entries_view(out@).to_multiset() == m@.take(i as int).to_multiset(),
        decreases m@.len() - i,
    {
        let e = m.entry_at(i);
        let pair = (crate::bytes::copy_bytes(e.0.as_slice()), e.1);
        let ghost pv = m@[i as int];
        proof {
            assert((pair.0@, pair.1 as nat) == pv);
        }
        let value = pair.1;
        let mut pos: usize = 0;
        while pos < out.len() && out[pos].1 <= value
            invariant
                pos <= out@.len(),
                forall|j: int| 0 <= j < pos ==> entries_view(out@)[j].1 <= value as nat,
            decreases out@.len() - pos,
        {
            pos = pos + 1;
        }
        let ghost before = entries_view(out@);
        out.insert(pos, pair);
        proof {
            assert(entries_view(out@) =~~= before.insert(pos as int, pv));
            assert(m@.take(i + 1) =~= m@.take(i as int).push(pv));
            assert(m@.take(i + 1).drop_last() =~= m@.take(i as int));
            lemma_insert_sorted_at(before, pv, pos as int);
            assert(stable_sort_by_value(m@.take(i + 1)) == insert_sorted(before, pv));
            vstd::seq_lib::to_multiset_insert(before, pos as int, pv);
            assert(sorted_by_value(entries_view(out@))) by {
                let now = entries_view(out@);
                assert forall|a: int, b: int| 0 <= a < b < now.len() implies now[a].1
                    <= now[b].1 by {
                    if a < pos && b == pos {
                        assert(now[a] == before[a]);
                    } else if a == pos && b > pos {
                        assert(now[b] == before[b - 1]);
                        assert(before[pos as int].1 <= before[b - 1].1);
                    } else if a < pos && b > pos {
                        assert(now[a] == before[a] && now[b] == before[b - 1]);
                    } else if a > pos && b > pos {
                        assert(now[a] == before[a - 1] && now[b] == before[b - 1]);
                    }
                }
            }
        }
        i = i + 1;
    }
    proof {
        assert(m@.take(m@.len() as int) =~= m@);
    }
    out
}

/// The finished overhead report of one invocation.
pub struct OverheadReport {
    /// Region identifier and accumulated resident size, ascending by size.
    pub regions: Vec<(Vec<u8>, u64)>,
    /// One entry per excluded fold, in report order: identifier and the
    /// resident size that was skipped.
    pub skipped: Vec<(Vec<u8>, u32)>,
    /// The grand total: the sum of all accumulated resident sizes, in kB.
    pub total: u64,
}

/// Parses the whole report and aggregates it under the given exclusion:
/// the single entry point from report text to finished report.
pub fn overhead_report(
    lines: &Vec<Vec<u8>>,
    guest_memory_size: Option<u32>,
    guest_memory_name: &Option<Vec<u8>>,
) -> (r: Result<OverheadReport, ParseError>)
    requires
        lines@.len() <= u32::MAX,
    ensures
        r matches Ok(rep) ==> (aggregate(
            lines_view(lines@),
            guest_memory_size,
            opt_name_view(*guest_memory_name),
        ) matches Some(p) && {
            &&& p.1 == skips_view(rep.skipped@)
            &&& entries_view(rep.regions@) == stable_sort_by_value(p.0)
            &&& sorted_by_value(entries_view(rep.regions@))
            &&& entries_view(rep.regions@).to_multiset() == p.0.to_multiset()
            &&& rep.total as nat == assoc_total(p.0)
            &&& rep.total as nat == assoc_total(entries_view(rep.regions@))
        }),
        r is Err <==> exists|j: int|
            0 <= j < lines@.len() && #[trigger] line_malformed(lines_view(lines@)[j]),
{
    match compute_overhead(lines, guest_memory_size, guest_memory_name) {
        Err(e) => Err(e),
        Ok((map, skipped)) => {
            proof {
                assert(lines@.len() * 0xFFFF_FFFF <= 0xFFFF_FFFFu64 * 0xFFFF_FFFF);
            }
            let total = grand_total(&map);
            let regions = sorted_entries(&map);
            proof {
                lemma_total_order_independent(entries_view(regions@), map@);
            }
            Ok(OverheadReport { regions, skipped, total })
        },
    }
}

} // verus!
