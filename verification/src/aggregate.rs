//! The overhead aggregator: walks the report once, tracks the open region,
//! and folds each non-excluded `Rss:` value into a map keyed by region
//! identifier. The pass is specified by the recursive model `agg_from`.

use vstd::prelude::*;

use crate::bytes::{contains_sub, slice_contains_sub};
use crate::parse::{
    counter_ok, counter_value, header_name, is_header_line, is_rss_counter_line,
    is_size_counter_line, line_malformed, parse_line, LineEvent, ParseError,
};

verus! {

/// The map under construction: region identifier to accumulated resident
/// size, in insertion order, keys unique. Also the shape of the skip log.
pub type Entries = Seq<(Seq<u8>, nat)>;

/// Whether some entry has key `k`.
pub open spec fn assoc_has(m: Entries, k: Seq<u8>) -> bool {
    exists|i: int| 0 <= i < m.len() && m[i].0 == k
}

/// The value under key `k`, 0 when absent.
pub open spec fn assoc_get(m: Entries, k: Seq<u8>) -> nat
    decreases m.len(),
{
    if m.len() == 0 {
        0
    } else if m[0].0 == k {
        m[0].1
    } else {
        assoc_get(m.drop_first(), k)
    }
}

/// Adds `v` under key `k`: accumulates into the existing entry, or appends a
/// new one.
pub open spec fn assoc_add(m: Entries, k: Seq<u8>, v: nat) -> Entries
    decreases m.len(),
{
    if m.len() == 0 {
        seq![(k, v)]
    } else if m[0].0 == k {
        seq![(m[0].0, (m[0].1 + v) as nat)] + m.drop_first()
    } else {
        seq![m[0]] + assoc_add(m.drop_first(), k, v)
    }
}

/// The sum of all values: the grand total.
pub open spec fn assoc_total(m: Entries) -> nat
    decreases m.len(),
{
    if m.len() == 0 {
        0
    } else {
        (m[0].1 + assoc_total(m.drop_first())) as nat
    }
}

/// No two entries share a key.
pub open spec fn unique_keys(m: Entries) -> bool {
    forall|i: int, j: int| 0 <= i < j < m.len() ==> m[i].0 != m[j].0
}

/// The exclusion criterion: a region is guest RAM when its identifier
/// contains `guest_name`, or its mapped size equals `guest_size` kB.
pub open spec fn spec_excluded(
    name: Seq<u8>,
    size: nat,
    guest_size: Option<u32>,
    guest_name: Option<Seq<u8>>,
) -> bool {
    (match guest_name {
        Some(p) => contains_sub(name, p),
        None => false,
    }) || (match guest_size {
        Some(gs) => size == gs as nat,
        None => false,
    })
}

/// The model of the single pass from line `i` on: `name` and `size` are the
/// open region's fields, `acc` the map built so far, `skips` the excluded
/// folds so far. Yields the final map and skip log, or `None` at the first
/// malformed counter line.
pub open spec fn agg_from(
    lines: Seq<Seq<u8>>,
    i: int,
    name: Seq<u8>,
    size: nat,
    acc: Entries,
    skips: Entries,
    guest_size: Option<u32>,
    guest_name: Option<Seq<u8>>,
) -> Option<(Entries, Entries)>
    decreases lines.len() - i,
{
    if i < 0 || i >= lines.len() {
        Some((acc, skips))
    } else {
        let l = lines[i];
        if is_header_line(l) {
            agg_from(lines, i + 1, header_name(l), 0, acc, skips, guest_size, guest_name)
        } else if is_size_counter_line(l) {
            if counter_ok(l) {
                agg_from(lines, i + 1, name, counter_value(l), acc, skips, guest_size, guest_name)
            } else {
                None
            }
        } else if is_rss_counter_line(l) {
            if counter_ok(l) {
                if spec_excluded(name, size, guest_size, guest_name) {
                    agg_from(
                        lines,
                        i + 1,
                        name,
                        size,
                        acc,
                        skips.push((name, counter_value(l))),
                        guest_size,
                        guest_name,
                    )
                } else {
                    agg_from(
                        lines,
                        i + 1,
                        name,
                        size,
                        assoc_add(acc, name, counter_value(l)),
                        skips,
                        guest_size,
                        guest_name,
                    )
                }
            } else {
                None
            }
        } else {
            agg_from(lines, i + 1, name, size, acc, skips, guest_size, guest_name)
        }
    }
}

/// The whole pass: no region open, both accumulators empty.
pub open spec fn aggregate(
    lines: Seq<Seq<u8>>,
    guest_size: Option<u32>,
    guest_name: Option<Seq<u8>>,
) -> Option<(Entries, Entries)> {
    agg_from(lines, 0, Seq::empty(), 0, Seq::empty(), Seq::empty(), guest_size, guest_name)
}

/// The mathematical value of a sequence of report lines.
pub open spec fn lines_view(s: Seq<Vec<u8>>) -> Seq<Seq<u8>> {
    s.map_values(|v: Vec<u8>| v@)
}

/// The mathematical value of an optional guest-region name.
pub open spec fn opt_name_view(o: Option<Vec<u8>>) -> Option<Seq<u8>> {
    match o {
        Some(v) => Some(v@),
        None => None,
    }
}

/// The mathematical value of the skip log: each excluded fold's region
/// identifier and resident size.
pub open spec fn skips_view(s: Seq<(Vec<u8>, u32)>) -> Entries {
    s.map_values(|e: (Vec<u8>, u32)| (e.0@, e.1 as nat))
}

/// The pass fails exactly when a malformed counter line lies ahead.
pub proof fn lemma_agg_err_iff_malformed(
    lines: Seq<Seq<u8>>,
    i: int,
    name: Seq<u8>,
    size: nat,
    acc: Entries,
    skips: Entries,
    guest_size: Option<u32>,
    guest_name: Option<Seq<u8>>,
)
    requires
        0 <= i <= lines.len(),
    ensures
        agg_from(lines, i, name, size, acc, skips, guest_size, guest_name) is None <==> exists|j: int|
            i <= j < lines.len() && #[trigger] line_malformed(lines[j]),
    decreases lines.len() - i,
{
    if i < lines.len() {
        let l = lines[i];
        if is_header_line(l) {
            lemma_agg_err_iff_malformed(
                lines, i + 1, header_name(l), 0, acc, skips, guest_size, guest_name);
        } else if is_size_counter_line(l) {
            if counter_ok(l) {
                lemma_agg_err_iff_malformed(
                    lines, i + 1, name, counter_value(l), acc, skips, guest_size, guest_name);
            } else {
                assert(line_malformed(lines[i]));
            }
        } else if is_rss_counter_line(l) {
            if counter_ok(l) {
                if spec_excluded(name, size, guest_size, guest_name) {
                    lemma_agg_err_iff_malformed(
                        lines, i + 1, name, size, acc,
                        skips.push((name, counter_value(l))), guest_size, guest_name);
                } else {
                    lemma_agg_err_iff_malformed(
                        lines, i + 1, name, size,
                        assoc_add(acc, name, counter_value(l)), skips, guest_size, guest_name);
                }
            } else {
                assert(line_malformed(lines[i]));
            }
        } else {
            lemma_agg_err_iff_malformed(
                lines, i + 1, name, size, acc, skips, guest_size, guest_name);
        }
    }
}

/// Whether the open region is guest RAM under the active criterion.
pub fn is_excluded(
    name: &[u8],
    size: u32,
    guest_size: Option<u32>,
    guest_name: &Option<Vec<u8>>,
) -> (r: bool)
    ensures
        r == spec_excluded(name@, size as nat, guest_size, opt_name_view(*guest_name)),
{
    let by_name = match guest_name {
        Some(p) => slice_contains_sub(name, p.as_slice()),
        None => false,
    };
    let by_size = match guest_size {
        Some(gs) => size == gs,
        None => false,
    };
    by_name || by_size
}

/// One pass over the report: parses each line, tracks the open region, and
/// folds every non-excluded `Rss:` value into the map. Returns the map and
/// the skip log (one entry per excluded fold, in report order), or the error
/// at the first malformed counter line.
#[verifier::loop_isolation(false)]
pub fn compute_overhead(
    lines: &Vec<Vec<u8>>,
    guest_memory_size: Option<u32>,
    guest_memory_name: &Option<Vec<u8>>,
) -> (r: Result<(OverheadMap, Vec<(Vec<u8>, u32)>), ParseError>)
    requires
        lines@.len() <= u32::MAX,
    ensures
        r matches Ok(p) ==> {
            &&& p.0.wf()
            &&& aggregate(lines_view(lines@), guest_memory_size, opt_name_view(*guest_memory_name))
                == Some((p.0@, skips_view(p.1@)))
            &&& assoc_total(p.0@) <= lines@.len() * 0xFFFF_FFFF
        },
        r is Err <==> exists|j: int|
            0 <= j < lines@.len() && #[trigger] line_malformed(lines_view(lines@)[j]),
{
    let ghost ld = lines_view(lines@);
    let ghost gnv = opt_name_view(*guest_memory_name);
    let mut map = OverheadMap::new();
    let mut skips: Vec<(Vec<u8>, u32)> = Vec::new();
    let mut cur_name: Vec<u8> = Vec::new();
    let mut cur_size: u32 = 0;
    let mut i: usize = 0;
    proof {
        assert(skips_view(skips@) =~= Seq::<(Seq<u8>, nat)>::empty());
    }
    while i < lines.len()
        invariant
            i <= lines@.len(),
            map.wf(),
            assoc_total(map@) <= i * 0xFFFF_FFFF,
            agg_from(ld, i as int, cur_name@, cur_size as nat, map@, skips_view(skips@),
                guest_memory_size, gnv) == aggregate(ld, guest_memory_size, gnv),
        decreases lines@.len() - i,
    {
        let ghost prev_name = cur_name@;
        let ghost prev_size = cur_size as nat;
        let ghost prev_map = map@;
        let ghost prev_skips = skips_view(skips@);
        let line = &lines[i];
        proof {
            assert(ld[i as int] == line@);
        }
        match parse_line(line.as_slice()) {
            Err(e) => {
                proof {
                    assert(agg_from(ld, i as int, prev_name, prev_size, prev_map, prev_skips,
                        guest_memory_size, gnv) is None);
                    lemma_agg_err_iff_malformed(ld, 0, Seq::empty(), 0, Seq::empty(),
                        Seq::empty(), guest_memory_size, gnv);
                }
                return Err(e);
            },
            Ok(LineEvent::RegionHeader { name }) => {
                cur_name = name;
                cur_size = 0;
            },
            Ok(LineEvent::SizeCounter { value }) => {
                cur_size = value;
            },
            Ok(LineEvent::ResidentCounter { value }) => {
                if is_excluded(cur_name.as_slice(), cur_size, guest_memory_size,
                    guest_memory_name) {
                    let entry = (crate::bytes::copy_bytes(cur_name.as_slice()), value);
                    skips.push(entry);
                    proof {
                        assert(skips_view(skips@) =~~= prev_skips.push((prev_name, value as nat)));
                    }
                } else {
                    proof {
                        lemma_assoc_add_total(prev_map, prev_name, value as nat);
                    }
                    map.add(cur_name.as_slice(), value);
                }
            },
            Ok(LineEvent::Ignored) => {},
        }
        i = i + 1;
        proof {
            assert(agg_from(ld, i - 1, prev_name, prev_size, prev_map, prev_skips,
                guest_memory_size, gnv) == agg_from(ld, i as int, cur_name@, cur_size as nat,
                map@, skips_view(skips@), guest_memory_size, gnv));
        }
    }
    proof {
        assert(agg_from(ld, i as int, cur_name@, cur_size as nat, map@, skips_view(skips@),
            guest_memory_size, gnv) == Some((map@, skips_view(skips@))));
        lemma_agg_err_iff_malformed(ld, 0, Seq::empty(), 0, Seq::empty(), Seq::empty(),
            guest_memory_size, gnv);
    }
    Ok((map, skips))
}

/// A value under one key never exceeds the sum of all values.
proof fn lemma_assoc_get_le_total(m: Entries, k: Seq<u8>)
    ensures
        assoc_get(m, k) <= assoc_total(m),
    decreases m.len(),
{
    if m.len() > 0 && m[0].0 != k {
        lemma_assoc_get_le_total(m.drop_first(), k);
    }
}

/// Adding `v` raises the grand total by exactly `v`.
pub proof fn lemma_assoc_add_total(m: Entries, k: Seq<u8>, v: nat)
    ensures
        assoc_total(assoc_add(m, k, v)) == assoc_total(m) + v,
    decreases m.len(),
{
    let r = assoc_add(m, k, v);
    if m.len() == 0 {
        assert(r.len() == 1 && r[0] == (k, v));
        assert(r.drop_first() =~= Seq::<(Seq<u8>, nat)>::empty());
        assert(assoc_total(r.drop_first()) == 0);
        assert(assoc_total(r) == r[0].1 + assoc_total(r.drop_first()));
    } else if m[0].0 == k {
        assert(r.len() == m.len() && r[0] == (m[0].0, (m[0].1 + v) as nat));
        assert(r.drop_first() =~= m.drop_first());
        assert(assoc_total(r) == r[0].1 + assoc_total(r.drop_first()));
        assert(assoc_total(m) == m[0].1 + assoc_total(m.drop_first()));
    } else {
        lemma_assoc_add_total(m.drop_first(), k, v);
        assert(r.len() == assoc_add(m.drop_first(), k, v).len() + 1 && r[0] == m[0]);
        assert(r.drop_first() =~= assoc_add(m.drop_first(), k, v));
        assert(assoc_total(r) == r[0].1 + assoc_total(r.drop_first()));
        assert(assoc_total(m) == m[0].1 + assoc_total(m.drop_first()));
    }
}

/// Adding under `k` changes the value under `k` by `v` and no other.
pub proof fn lemma_assoc_add_get(m: Entries, k: Seq<u8>, v: nat, q: Seq<u8>)
    ensures
        assoc_get(assoc_add(m, k, v), q) == assoc_get(m, q) + (if q == k {
            v as int
        } else {
            0
        }),
    decreases m.len(),
{
    let r = assoc_add(m, k, v);
    if m.len() == 0 {
        assert(r.len() == 1 && r[0] == (k, v));
        assert(r.drop_first() =~= Seq::<(Seq<u8>, nat)>::empty());
        assert(assoc_get(r.drop_first(), q) == 0);
        assert(assoc_get(r, q) == if r[0].0 == q {
            r[0].1 as int
        } else {
            assoc_get(r.drop_first(), q) as int
        });
    } else if m[0].0 == k {
        assert(r.len() == m.len() && r[0] == (m[0].0, (m[0].1 + v) as nat));
        assert(r.drop_first() =~= m.drop_first());
        assert(assoc_get(r, q) == if r[0].0 == q {
            r[0].1 as int
        } else {
            assoc_get(r.drop_first(), q) as int
        });
        assert(assoc_get(m, q) == if m[0].0 == q {
            m[0].1 as int
        } else {
            assoc_get(m.drop_first(), q) as int
        });
    } else {
        lemma_assoc_add_get(m.drop_first(), k, v, q);
        assert(r.len() == assoc_add(m.drop_first(), k, v).len() + 1 && r[0] == m[0]);
        assert(r.drop_first() =~= assoc_add(m.drop_first(), k, v));
        assert(assoc_get(r, q) == if r[0].0 == q {
            r[0].1 as int
        } else {
            assoc_get(r.drop_first(), q) as int
        });
        assert(assoc_get(m, q) == if m[0].0 == q {
            m[0].1 as int
        } else {
            assoc_get(m.drop_first(), q) as int
        });
    }
}

/// Adding a value keeps exactly the old keys plus `k`.
proof fn lemma_assoc_add_has(m: Entries, k: Seq<u8>, v: nat, q: Seq<u8>)
    ensures
        assoc_has(assoc_add(m, k, v), q) == (assoc_has(m, q) || q == k),
    decreases m.len(),
{
    let r = assoc_add(m, k, v);
    if m.len() == 0 {
        assert(r[0].0 == k);
        if assoc_has(r, q) && q != k {
            let i = choose|i: int| 0 <= i < r.len() && r[i].0 == q;
            assert(i == 0);
        }
    } else if m[0].0 == k {
        assert(r.len() == m.len());
        assert(forall|i: int| 0 <= i < m.len() ==> r[i].0 == m[i].0);
        if assoc_has(m, q) {
            let i = choose|i: int| 0 <= i < m.len() && m[i].0 == q;
            assert(r[i].0 == q);
        }
        if assoc_has(r, q) {
            let i = choose|i: int| 0 <= i < r.len() && r[i].0 == q;
            assert(m[i].0 == q);
        }
    } else {
        lemma_assoc_add_has(m.drop_first(), k, v, q);
        let sub = assoc_add(m.drop_first(), k, v);
        assert(r =~= seq![m[0]] + sub);
        assert(r[0] == m[0]);
        assert(forall|i: int| 0 <= i < sub.len() ==> r[i + 1] == sub[i]);
        if assoc_has(r, q) {
            let i = choose|i: int| 0 <= i < r.len() && r[i].0 == q;
            if i > 0 {
                assert(sub[i - 1].0 == q);
            }
        }
        if assoc_has(m, q) {
            let i = choose|i: int| 0 <= i < m.len() && m[i].0 == q;
            if i > 0 {
                assert(m.drop_first()[i - 1].0 == q);
                assert(assoc_has(m.drop_first(), q));
            }
        }
        if assoc_has(sub, q) {
            let i = choose|i: int| 0 <= i < sub.len() && sub[i].0 == q;
            assert(r[i + 1].0 == q);
        }
        if assoc_has(m.drop_first(), q) {
            let i = choose|i: int| 0 <= i < m.drop_first().len() && m.drop_first()[i].0 == q;
            assert(m[i + 1].0 == q);
        }
    }
}

/// Accumulating into a map with unique keys keeps its keys unique.
pub proof fn lemma_assoc_add_unique(m: Entries, k: Seq<u8>, v: nat)
    requires
        unique_keys(m),
    ensures
        unique_keys(assoc_add(m, k, v)),
    decreases m.len(),
{
    let r = assoc_add(m, k, v);
    if m.len() == 0 {
    } else if m[0].0 == k {
        assert(forall|i: int| 0 <= i < m.len() ==> r[i].0 == m[i].0);
    } else {
        assert(unique_keys(m.drop_first())) by {
            assert(forall|i: int, j: int|
                0 <= i < j < m.drop_first().len() ==> m.drop_first()[i].0 == m[i + 1].0
                    && m.drop_first()[j].0 == m[j + 1].0);
        }
        lemma_assoc_add_unique(m.drop_first(), k, v);
        let sub = assoc_add(m.drop_first(), k, v);
        assert(!assoc_has(m.drop_first(), m[0].0)) by {
            if assoc_has(m.drop_first(), m[0].0) {
                let i = choose|i: int|
                    0 <= i < m.drop_first().len() && m.drop_first()[i].0 == m[0].0;
                assert(m[i + 1].0 == m[0].0);
            }
        }
        lemma_assoc_add_has(m.drop_first(), k, v, m[0].0);
        assert forall|i: int, j: int| 0 <= i < j < r.len() implies r[i].0 != r[j].0 by {
            if i == 0 {
                assert(r[j].0 == sub[j - 1].0);
                assert(assoc_has(sub, sub[j - 1].0));
            } else {
                assert(r[i].0 == sub[i - 1].0 && r[j].0 == sub[j - 1].0);
            }
        }
    }
}

/// A map from region identifier to accumulated resident size in kB, keys
/// unique, in insertion order.
pub struct OverheadMap {
    entries: Vec<(Vec<u8>, u64)>,
}

/// The mathematical value of a sequence of owned entries.
pub open spec fn entries_view(s: Seq<(Vec<u8>, u64)>) -> Entries {
    s.map_values(|e: (Vec<u8>, u64)| (e.0@, e.1 as nat))
}

impl View for OverheadMap {
    type V = Entries;

    closed spec fn view(&self) -> Entries {
        entries_view(self.entries@)
    }
}

impl OverheadMap {
    /// Keys are unique: a region identifier appears at most once.
    pub open spec fn wf(&self) -> bool {
        unique_keys(self@)
    }

    pub fn new() -> (r: Self)
        ensures
            r@ == Seq::<(Seq<u8>, nat)>::empty(),
            r.wf(),
    {
        let r = OverheadMap { entries: Vec::new() };
        proof {
            assert(r@ =~= Seq::<(Seq<u8>, nat)>::empty());
        }
        r
    }

    /// The index of the entry with key `k`, when one exists.
    fn find(&self, k: &[u8]) -> (r: Option<usize>)
        ensures
            r matches Some(i) ==> i < self@.len() && self@[i as int].0 == k@,
            r is None ==> !assoc_has(self@, k@),
    {
        let mut i: usize = 0;
        while i < self.entries.len()
            invariant
                i <= self.entries@.len(),
                forall|j: int| 0 <= j < i ==> self@[j].0 != k@,
            decreases self.entries@.len() - i,
        {
            if crate::bytes::bytes_eq(self.entries[i].0.as_slice(), k) {
                return Some(i);
            }
            i = i + 1;
        }
        None
    }

    /// Accumulates `v` under key `k`, creating the entry when absent.
    pub fn add(&mut self, k: &[u8], v: u32)
        requires
            old(self).wf(),
            assoc_total(old(self)@) + v <= u64::MAX,
        ensures
            final(self).wf(),
            final(self)@ == assoc_add(old(self)@, k@, v as nat),
    {
        proof {
            lemma_assoc_add_unique(old(self)@, k@, v as nat);
        }
        match self.find(k) {
            Some(i) => {
                proof {
                    lemma_assoc_get_at(self@, i as int);
                    lemma_assoc_get_le_total(self@, k@);
                    lemma_assoc_add_found(self@, k@, v as nat, i as int);
                }
                let pair = self.entries.remove(i);
                let value = pair.1 + (v as u64);
                self.entries.insert(i, (pair.0, value));
                proof {
                    assert(self.entries@ =~= old(self).entries@.update(
                        i as int,
                        (old(self).entries@[i as int].0, value),
                    ));
                    assert(self@ =~~= assoc_add(old(self)@, k@, v as nat));
                }
            },
            None => {
                proof {
                    lemma_assoc_add_absent(self@, k@, v as nat);
                }
                let key = crate::bytes::copy_bytes(k);
                self.entries.push((key, v as u64));
                proof {
                    assert(self@ =~~= assoc_add(old(self)@, k@, v as nat));
                }
            },
        }
    }

    /// The accumulated value under a region identifier, when one exists.
    pub fn get(&self, k: &[u8]) -> (r: Option<u64>)
        requires
            self.wf(),
        ensures
            r matches Some(v) ==> assoc_has(self@, k@) && v as nat == assoc_get(self@, k@),
            r is None ==> !assoc_has(self@, k@),
    {
        match self.find(k) {
            Some(i) => {
                proof {
                    lemma_assoc_get_at(self@, i as int);
                }
                Some(self.entries[i].1)
            },
            None => None,
        }
    }

    /// How many region identifiers the map holds.
    pub fn len(&self) -> (n: usize)
        ensures
            n == self@.len(),
    {
        self.entries.len()
    }

    /// The entry at a position, in insertion order.
    pub fn entry_at(&self, i: usize) -> (r: &(Vec<u8>, u64))
        requires
            i < self@.len(),
        ensures
            (r.0@, r.1 as nat) == self@[i as int],
    {
        &self.entries[i]
    }
}

/// Under unique keys, the value under the key at `i` is the value at `i`.
proof fn lemma_assoc_get_at(m: Entries, i: int)
    requires
        unique_keys(m),
        0 <= i < m.len(),
    ensures
        assoc_get(m, m[i].0) == m[i].1,
    decreases i,
{
    if i > 0 {
        assert(unique_keys(m.drop_first())) by {
            assert(forall|p: int, q: int|
                0 <= p < q < m.drop_first().len() ==> m.drop_first()[p].0 == m[p + 1].0
                    && m.drop_first()[q].0 == m[q + 1].0);
        }
        assert(m.drop_first()[i - 1] == m[i]);
        lemma_assoc_get_at(m.drop_first(), i - 1);
    }
}

/// When key `k` sits at `i`, accumulation is an update in place.
proof fn lemma_assoc_add_found(m: Entries, k: Seq<u8>, v: nat, i: int)
    requires
        unique_keys(m),
        0 <= i < m.len(),
        m[i].0 == k,
    ensures
        assoc_add(m, k, v) == m.update(i, (k, (m[i].1 + v) as nat)),
    decreases i,
{
    if i == 0 {
        assert(assoc_add(m, k, v) =~= m.update(0, (k, (m[0].1 + v) as nat)));
    } else {
        assert(unique_keys(m.drop_first())) by {
            assert(forall|p: int, q: int|
                0 <= p < q < m.drop_first().len() ==> m.drop_first()[p].0 == m[p + 1].0
                    && m.drop_first()[q].0 == m[q + 1].0);
        }
        assert(m.drop_first()[i - 1] == m[i]);
        lemma_assoc_add_found(m.drop_first(), k, v, i - 1);
        assert(m[0].0 != k);
        assert(assoc_add(m, k, v) =~= m.update(i, (k, (m[i].1 + v) as nat)));
    }
}

/// When key `k` is absent, accumulation appends a new entry.
proof fn lemma_assoc_add_absent(m: Entries, k: Seq<u8>, v: nat)
    requires
        !assoc_has(m, k),
    ensures
        assoc_add(m, k, v) == m.push((k, v)),
    decreases m.len(),
{
    if m.len() == 0 {
        assert(assoc_add(m, k, v) =~= m.push((k, v)));
    } else {
        assert(m[0].0 != k);
        assert(!assoc_has(m.drop_first(), k)) by {
            if assoc_has(m.drop_first(), k) {
                let i = choose|i: int| 0 <= i < m.drop_first().len() && m.drop_first()[i].0 == k;
                assert(m[i + 1].0 == k);
            }
        }
        lemma_assoc_add_absent(m.drop_first(), k, v);
        assert(assoc_add(m, k, v) =~= m.push((k, v)));
    }
}

} // verus!
