//! The encoded lookup table: per family, a sorted array of range upper
//! bounds and a parallel array of dictionary-index triples, plus the
//! lower-bound binary search that serves point queries.

use vstd::prelude::*;

use crate::dict::{spec_intern, Dictionary};
use crate::ingest::RangeRecord;

verus! {

/// One family's encoded table: `upper_bounds[i]` is the inclusive end of
/// the `i`-th range, `triples[i]` its (country, province, city) indices.
pub struct EncodedTable {
    pub upper_bounds: Vec<u128>,
    pub triples: Vec<[usize; 3]>,
}

pub open spec fn strictly_increasing(s: Seq<u128>) -> bool {
    forall|i: int, j: int| #![trigger s[i], s[j]] 0 <= i < j < s.len() ==> s[i] < s[j]
}

/// One entry of a dictionary table, resolved defensively: an out-of-range
/// index resolves to the empty string.
pub open spec fn resolve_entry(es: Seq<Seq<char>>, idx: int) -> Seq<char> {
    if 0 <= idx < es.len() {
        es[idx]
    } else {
        Seq::<char>::empty()
    }
}

/// One dictionary table extends another: the old entries are a prefix.
pub open spec fn entries_extend(new: Seq<Seq<char>>, prev: Seq<Seq<char>>) -> bool {
    &&& prev.len() <= new.len()
    &&& forall|k: int| 0 <= k < prev.len() ==> new[k] == prev[k]
}

/// The triple `tr` points at exactly the three strings of record `r` in
/// the three dictionary tables.
pub open spec fn triple_matches(
    tr: [usize; 3],
    ces: Seq<Seq<char>>,
    pes: Seq<Seq<char>>,
    cies: Seq<Seq<char>>,
    r: RangeRecord,
) -> bool {
    &&& (tr[0] as int) < ces.len() && ces[tr[0] as int] == r.country@
    &&& (tr[1] as int) < pes.len() && pes[tr[1] as int] == r.province@
    &&& (tr[2] as int) < cies.len() && cies[tr[2] as int] == r.city@
}

/// The first `n` triples match the first `n` records.
#[verifier::opaque]
pub open spec fn triples_match_prefix(
    n: int,
    trs: Seq<[usize; 3]>,
    ces: Seq<Seq<char>>,
    pes: Seq<Seq<char>>,
    cies: Seq<Seq<char>>,
    ranges: Seq<RangeRecord>,
) -> bool {
    forall|i: int|
        #![trigger trs[i]]
        0 <= i < n ==> triple_matches(trs[i], ces, pes, cies, ranges[i])
}

pub proof fn lemma_triples_prefix_extend_dicts(
    n: int,
    trs: Seq<[usize; 3]>,
    ces0: Seq<Seq<char>>,
    pes0: Seq<Seq<char>>,
    cies0: Seq<Seq<char>>,
    ces1: Seq<Seq<char>>,
    pes1: Seq<Seq<char>>,
    cies1: Seq<Seq<char>>,
    ranges: Seq<RangeRecord>,
)
    requires
        triples_match_prefix(n, trs, ces0, pes0, cies0, ranges),
        entries_extend(ces1, ces0),
        entries_extend(pes1, pes0),
        entries_extend(cies1, cies0),
    ensures
        triples_match_prefix(n, trs, ces1, pes1, cies1, ranges),
{
    reveal(triples_match_prefix);
}

proof fn lemma_triples_prefix_push(
    n: int,
    trs: Seq<[usize; 3]>,
    tr: [usize; 3],
    ces: Seq<Seq<char>>,
    pes: Seq<Seq<char>>,
    cies: Seq<Seq<char>>,
    ranges: Seq<RangeRecord>,
)
    requires
        triples_match_prefix(n, trs, ces, pes, cies, ranges),
        n == trs.len(),
        0 <= n < ranges.len(),
        triple_matches(tr, ces, pes, cies, ranges[n]),
    ensures
        triples_match_prefix(n + 1, trs.push(tr), ces, pes, cies, ranges),
{
    reveal(triples_match_prefix);
    let trs1 = trs.push(tr);
    assert(forall|i: int| 0 <= i < trs.len() ==> #[trigger] trs1[i] == trs[i]);
    assert(trs1[n] == tr);
}

/// Encodes ingested ranges: interns each record's three strings and emits
/// the parallel bound and triple arrays. The ranges must arrive sorted by
/// their upper bound, which the ingestor guarantees.
#[verifier::rlimit(100)]
#[verifier::spinoff_prover]
pub fn encode(
    ranges: &Vec<RangeRecord>,
    country: &mut Dictionary,
    province: &mut Dictionary,
    city: &mut Dictionary,
) -> (t: EncodedTable)
    requires
        old(country).wf(),
        old(province).wf(),
        old(city).wf(),
        forall|i: int, j: int|
            #![trigger ranges@[i], ranges@[j]]
            0 <= i < j < ranges@.len() ==> ranges@[i].end < ranges@[j].end,
    ensures
        final(country).wf(),
        final(province).wf(),
        final(city).wf(),
        entries_extend(final(country).view_entries(), old(country).view_entries()),
        entries_extend(final(province).view_entries(), old(province).view_entries()),
        entries_extend(final(city).view_entries(), old(city).view_entries()),
        t.upper_bounds@.len() == ranges@.len(),
        t.triples@.len() == ranges@.len(),
        forall|i: int| 0 <= i < ranges@.len() ==> t.upper_bounds@[i] == (#[trigger] ranges@[i]).end,
        strictly_increasing(t.upper_bounds@),
        triples_match_prefix(
            ranges@.len() as int,
            t.triples@,
            final(country).view_entries(),
            final(province).view_entries(),
            final(city).view_entries(),
            ranges@,
        ),
{
    let mut upper_bounds: Vec<u128> = Vec::new();
    let mut triples: Vec<[usize; 3]> = Vec::new();
    proof {
        reveal(triples_match_prefix);
        assert(triples_match_prefix(
            0,
            triples@,
            country.view_entries(),
            province.view_entries(),
            city.view_entries(),
            ranges@,
        ));
    }
    let mut i: usize = 0;
    while i < ranges.len()
        invariant
            country.wf(),
            province.wf(),
            city.wf(),
            entries_extend(country.view_entries(), old(country).view_entries()),
            entries_extend(province.view_entries(), old(province).view_entries()),
            entries_extend(city.view_entries(), old(city).view_entries()),
            forall|a: int, b: int|
                #![trigger ranges@[a], ranges@[b]]
                0 <= a < b < ranges@.len() ==> ranges@[a].end < ranges@[b].end,
            i <= ranges@.len(),
            upper_bounds@.len() == i,
            triples@.len() == i,
            forall|k: int|
                0 <= k < i ==> upper_bounds@[k] == (#[trigger] ranges@[k]).end,
            strictly_increasing(upper_bounds@),
            triples_match_prefix(
                i as int,
                triples@,
                country.view_entries(),
                province.view_entries(),
                city.view_entries(),
                ranges@,
            ),
        decreases ranges@.len() - i,
    {
        let r = &ranges[i];
        let ghost ces0 = country.view_entries();
        let ghost pes0 = province.view_entries();
        let ghost cies0 = city.view_entries();
        let c_idx = country.intern(&r.country);
        let p_idx = province.intern(&r.province);
        let ci_idx = city.intern(&r.city);
        proof {
            lemma_intern_extends(ces0, r.country@);
            lemma_intern_extends(pes0, r.province@);
            lemma_intern_extends(cies0, r.city@);
            lemma_triples_prefix_extend_dicts(
                i as int,
                triples@,
                ces0,
                pes0,
                cies0,
                country.view_entries(),
                province.view_entries(),
                city.view_entries(),
                ranges@,
            );
        }
        let ghost ub0 = upper_bounds@;
        upper_bounds.push(r.end);
        let tr: [usize; 3] = [c_idx, p_idx, ci_idx];
        proof {
            assert(tr[0] == c_idx && tr[1] == p_idx && tr[2] == ci_idx);
            lemma_triples_prefix_push(
                i as int,
                triples@,
                tr,
                country.view_entries(),
                province.view_entries(),
                city.view_entries(),
                ranges@,
            );
            assert(forall|k: int| 0 <= k < ub0.len() ==> #[trigger] upper_bounds@[k] == ub0[k]);
            assert(upper_bounds@[i as int] == ranges@[i as int].end);
            assert forall|a: int, b: int|
                #![trigger upper_bounds@[a], upper_bounds@[b]]
                0 <= a < b < upper_bounds@.len() implies upper_bounds@[a] < upper_bounds@[b] by {
                if b < ub0.len() {
                    assert(ub0[a] < ub0[b]);
                } else {
                    assert(upper_bounds@[a] == ranges@[a].end);
                    assert(ranges@[a].end < ranges@[i as int].end);
                }
            }
        }
        triples.push(tr);
        i = i + 1;
    }
    EncodedTable { upper_bounds, triples }
}

/// A dictionary never shrinks under interning, and the entries it already
/// holds keep their indices and values.
pub proof fn lemma_intern_extends(es: Seq<Seq<char>>, s: Seq<char>)
    ensures
        entries_extend(spec_intern(es, s).0, es),
{
    if !es.contains(s) {
        assert(forall|k: int| 0 <= k < es.len() ==> #[trigger] es.push(s)[k] == es[k]);
    }
}

/// `i` is the lower-bound position of `v` in `ub`: the first index whose
/// value is at least `v`.
pub open spec fn is_lb(ub: Seq<u128>, v: int, i: int) -> bool {
    &&& 0 <= i < ub.len()
    &&& v <= ub[i]
    &&& forall|j: int| 0 <= j < i ==> (#[trigger] ub[j]) < v
}

/// The lower-bound position of `v` in `ub`, where one exists.
pub open spec fn lb_index(ub: Seq<u128>, v: int) -> int {
    choose|i: int| is_lb(ub, v, i)
}

/// The lower-bound position is unique.
pub proof fn lemma_lb_unique(ub: Seq<u128>, v: int, i1: int, i2: int)
    requires
        is_lb(ub, v, i1),
        is_lb(ub, v, i2),
    ensures
        i1 == i2,
{
    if i1 < i2 {
        assert(ub[i1] < v);
    }
    if i2 < i1 {
        assert(ub[i2] < v);
    }
}

/// Any address inside the `i`-th range of a sorted table — above the
/// previous bound, at or below its own — lower-bounds to exactly `i`.
pub proof fn lemma_range_lookup(ub: Seq<u128>, v: int, i: int)
    requires
        strictly_increasing(ub),
        0 <= i < ub.len(),
        v <= ub[i],
        i == 0 ==> 0 <= v,
        i > 0 ==> ub[i - 1] < v,
    ensures
        is_lb(ub, v, i),
{
    assert forall|j: int| 0 <= j < i implies (#[trigger] ub[j]) < v by {
        if j < i - 1 {
            assert(ub[j] < ub[i - 1]);
        }
    }
}

/// Finds the first index whose bound is at least `v` by binary search.
pub fn lower_bound(ub: &Vec<u128>, v: u128) -> (i: usize)
    requires
        strictly_increasing(ub@),
        ub@.len() >= 1,
        v <= ub@[ub@.len() - 1],
    ensures
        is_lb(ub@, v as int, i as int),
{
    let mut lo: usize = 0;
    let mut hi: usize = ub.len() - 1;
    while lo < hi
        invariant
            strictly_increasing(ub@),
            lo <= hi < ub@.len(),
            v <= ub@[hi as int],
            forall|j: int| 0 <= j < lo ==> (#[trigger] ub@[j]) < v,
        decreases hi - lo,
    {
        let mid = lo + (hi - lo) / 2;
        if ub[mid] < v {
            proof {
                assert forall|j: int| 0 <= j < mid + 1 implies (#[trigger] ub@[j]) < v by {
                    if j < mid {
                        assert(ub@[j] < ub@[mid as int]);
                    }
                }
            }
            lo = mid + 1;
        } else {
            hi = mid;
        }
    }
    lo
}

} // verus!
