//! Range ingestion: turning a sorted sequence of address-range records
//! into a complete partition of the address space. Gaps between records,
//! before the first record and after the last one are filled with
//! placeholder ranges whose location fields are empty.

use vstd::prelude::*;

verus! {

#[derive(Clone, Copy, PartialEq, Eq, Structural)]
pub enum Family {
    V4,
    V6,
}

/// The largest address value of a family's domain.
pub open spec fn family_max(f: Family) -> int {
    if f is V4 {
        0xffff_ffff
    } else {
        0xffff_ffff_ffff_ffff_ffff_ffff_ffff_ffff
    }
}

pub fn family_max_value(f: Family) -> (m: u128)
    ensures
        m as int == family_max(f),
{
    match f {
        Family::V4 => 0xffff_ffffu128,
        Family::V6 => 0xffff_ffff_ffff_ffff_ffff_ffff_ffff_ffffu128,
    }
}

/// An inclusive interval of addresses of one family, mapped to a location
/// triple; empty strings mean "unknown".
pub struct RangeRecord {
    pub family: Family,
    pub begin: u128,
    pub end: u128,
    pub country: String,
    pub province: String,
    pub city: String,
}

/// A placeholder range: all three location fields empty.
pub open spec fn is_filler(r: RangeRecord) -> bool {
    &&& r.country@ == Seq::<char>::empty()
    &&& r.province@ == Seq::<char>::empty()
    &&& r.city@ == Seq::<char>::empty()
}

/// Every record belongs to family `f` and is a well-formed interval of
/// that family's domain.
pub open spec fn records_wf(rs: Seq<RangeRecord>, f: Family) -> bool {
    forall|i: int|
        0 <= i < rs.len() ==> {
            &&& (#[trigger] rs[i]).family == f
            &&& rs[i].begin <= rs[i].end
            &&& rs[i].end <= family_max(f)
        }
}

/// Records are sorted and pairwise disjoint: each starts strictly after
/// the previous one ends.
pub open spec fn sorted_disjoint(rs: Seq<RangeRecord>) -> bool {
    forall|i: int, j: int|
        #![trigger rs[i], rs[j]]
        0 <= i && j == i + 1 && j < rs.len() ==> rs[i].end < rs[j].begin
}

/// Each range starts right after the previous one ends.
pub open spec fn chained(rs: Seq<RangeRecord>) -> bool {
    forall|i: int, j: int|
        #![trigger rs[i], rs[j]]
        0 <= i && j == i + 1 && j < rs.len() ==> rs[i].end + 1 == rs[j].begin
}

/// The full-coverage invariant: the sequence begins at address 0, ends at
/// the family maximum, and each range starts right after the previous one.
pub open spec fn contiguous_cover(rs: Seq<RangeRecord>, f: Family) -> bool {
    &&& rs.len() >= 1
    &&& rs[0].begin == 0
    &&& rs[rs.len() - 1].end == family_max(f)
    &&& chained(rs)
}

/// The first `n` of `records` all appear in `rs`.
#[verifier::opaque]
pub open spec fn appears(records: Seq<RangeRecord>, n: int, rs: Seq<RangeRecord>) -> bool {
    forall|k: int|
        #![trigger records[k]]
        0 <= k < n ==> exists|j: int| 0 <= j < rs.len() && rs[j] == records[k]
}

/// Every element of `rs` is either one of `records` or a placeholder.
#[verifier::opaque]
pub open spec fn covered_by(rs: Seq<RangeRecord>, records: Seq<RangeRecord>) -> bool {
    forall|j: int|
        0 <= j < rs.len() ==> (exists|k: int| 0 <= k < records.len() && rs[j] == records[k])
            || is_filler(#[trigger] rs[j])
}

pub proof fn lemma_push_wf(rs: Seq<RangeRecord>, x: RangeRecord, f: Family)
    requires
        records_wf(rs, f),
        x.family == f,
        x.begin <= x.end,
        x.end <= family_max(f),
    ensures
        records_wf(rs.push(x), f),
{
    assert(forall|j: int| 0 <= j < rs.len() ==> #[trigger] rs.push(x)[j] == rs[j]);
    assert(rs.push(x)[rs.len() as int] == x);
}

/// Appending a range that starts strictly after the last one keeps the
/// sequence sorted and disjoint.
pub proof fn lemma_push_sorted(rs: Seq<RangeRecord>, x: RangeRecord)
    requires
        sorted_disjoint(rs),
        rs.len() >= 1 ==> rs[rs.len() - 1].end < x.begin,
    ensures
        sorted_disjoint(rs.push(x)),
{
    let rs1 = rs.push(x);
    assert(forall|j: int| 0 <= j < rs.len() ==> #[trigger] rs1[j] == rs[j]);
    assert(rs1[rs.len() as int] == x);
    assert forall|i: int, j: int|
        #![trigger rs1[i], rs1[j]]
        0 <= i && j == i + 1 && j < rs1.len() implies rs1[i].end < rs1[j].begin by {
        if j < rs.len() {
            assert(rs[i].end < rs[j].begin);
        } else {
            assert(rs1[j] == x);
        }
    }
}

proof fn lemma_push_chained(rs: Seq<RangeRecord>, x: RangeRecord)
    requires
        chained(rs),
        rs.len() >= 1 ==> x.begin == rs[rs.len() - 1].end + 1,
    ensures
        chained(rs.push(x)),
{
    let rs1 = rs.push(x);
    assert(forall|j: int| 0 <= j < rs.len() ==> #[trigger] rs1[j] == rs[j]);
    assert(rs1[rs.len() as int] == x);
    assert forall|i: int, j: int|
        #![trigger rs1[i], rs1[j]]
        0 <= i && j == i + 1 && j < rs1.len() implies rs1[i].end + 1 == rs1[j].begin by {
        if j < rs.len() {
            assert(rs[i].end + 1 == rs[j].begin);
        } else {
            assert(rs1[j] == x);
        }
    }
}

proof fn lemma_push_preserves(
    rs: Seq<RangeRecord>,
    x: RangeRecord,
    records: Seq<RangeRecord>,
    n: int,
)
    requires
        appears(records, n, rs),
        covered_by(rs, records),
        is_filler(x) || exists|k: int| 0 <= k < records.len() && x == records[k],
    ensures
        appears(records, n, rs.push(x)),
        covered_by(rs.push(x), records),
{
    reveal(appears);
    reveal(covered_by);
    let rs1 = rs.push(x);
    assert(forall|j: int| 0 <= j < rs.len() ==> #[trigger] rs1[j] == rs[j]);
    assert(rs1[rs.len() as int] == x);
    assert forall|k: int| #![trigger records[k]] 0 <= k < n implies exists|j: int|
        0 <= j < rs1.len() && rs1[j] == records[k] by {
        let j0 = choose|j: int| 0 <= j < rs.len() && rs[j] == records[k];
        assert(rs1[j0] == records[k]);
    }
    assert forall|j: int| 0 <= j < rs1.len() implies (exists|k: int|
        0 <= k < records.len() && rs1[j] == records[k]) || is_filler(#[trigger] rs1[j]) by {
        if j < rs.len() {
            assert(rs1[j] == rs[j]);
        }
    }
}

proof fn lemma_appears_extend(records: Seq<RangeRecord>, n: int, rs: Seq<RangeRecord>)
    requires
        appears(records, n, rs),
        0 <= n < records.len(),
        exists|j: int| 0 <= j < rs.len() && rs[j] == records[n],
    ensures
        appears(records, n + 1, rs),
{
    reveal(appears);
}

fn filler(family: Family, begin: u128, end: u128) -> (r: RangeRecord)
    ensures
        r.family == family,
        r.begin == begin,
        r.end == end,
        is_filler(r),
{
    RangeRecord {
        family,
        begin,
        end,
        country: String::new(),
        province: String::new(),
        city: String::new(),
    }
}

fn copy_record(r: &RangeRecord) -> (c: RangeRecord)
    ensures
        c == *r,
{
    RangeRecord {
        family: r.family,
        begin: r.begin,
        end: r.end,
        country: r.country.clone(),
        province: r.province.clone(),
        city: r.city.clone(),
    }
}

/// Ingests one family's records: the result is a contiguous, sorted,
/// non-overlapping cover of the whole address domain in which every input
/// record appears unchanged and every other range is a placeholder.
#[verifier::rlimit(100)]
#[verifier::spinoff_prover]
pub fn ingest(records: &Vec<RangeRecord>, family: Family) -> (out: Vec<RangeRecord>)
    requires
        records_wf(records@, family),
        sorted_disjoint(records@),
    ensures
        records_wf(out@, family),
        contiguous_cover(out@, family),
        appears(records@, records@.len() as int, out@),
        covered_by(out@, records@),
{
    let fmax = family_max_value(family);
    let mut out: Vec<RangeRecord> = Vec::new();
    proof {
        reveal(appears);
        reveal(covered_by);
        assert(appears(records@, 0, out@));
        assert(covered_by(out@, records@));
    }
    let mut next: u128 = 0;
    let mut full: bool = false;
    let mut i: usize = 0;
    while i < records.len()
        invariant
            records_wf(records@, family),
            sorted_disjoint(records@),
            fmax as int == family_max(family),
            i <= records@.len(),
            records_wf(out@, family),
            chained(out@),
            full ==> i == records@.len(),
            full ==> out@.len() >= 1 && out@[out@.len() - 1].end == fmax,
            !full ==> next <= fmax,
            !full && out@.len() >= 1 ==> next == out@[out@.len() - 1].end + 1,
            !full && out@.len() == 0 ==> next == 0,
            !full && i < records@.len() ==> next <= records@[i as int].begin,
            out@.len() >= 1 ==> out@[0].begin == 0,
            appears(records@, i as int, out@),
            covered_by(out@, records@),
        decreases records@.len() - i,
    {
        let r = &records[i];
        let ghost out0 = out@;
        let copied = copy_record(r);
        proof {
            assert(copied == records@[i as int]);
        }
        if r.begin > next {
            let gap = filler(family, next, r.begin - 1);
            out.push(gap);
            proof {
                lemma_push_wf(out0, gap, family);
                lemma_push_chained(out0, gap);
                lemma_push_preserves(out0, gap, records@, i as int);
            }
        }
        let ghost mid = out@;
        out.push(copied);
        proof {
            lemma_push_wf(mid, copied, family);
            lemma_push_chained(mid, copied);
            lemma_push_preserves(mid, copied, records@, i as int);
            assert(out@[out@.len() - 1] == records@[i as int]);
            lemma_appears_extend(records@, i as int, out@);
        }
        if r.end == fmax {
            full = true;
            proof {
                if i + 1 < records@.len() {
                    assert(records@[i as int].end < records@[i + 1].begin);
                    assert(records@[i + 1].begin <= records@[i + 1].end);
                    assert(records@[i + 1].end <= family_max(family));
                    assert(false);
                }
            }
        } else {
            next = r.end + 1;
            proof {
                if i + 1 < records@.len() {
                    assert(records@[i as int].end < records@[i + 1].begin);
                }
            }
        }
        i = i + 1;
    }
    if !full {
        let ghost out1 = out@;
        let tail = filler(family, next, fmax);
        out.push(tail);
        proof {
            lemma_push_wf(out1, tail, family);
            lemma_push_chained(out1, tail);
            lemma_push_preserves(out1, tail, records@, records@.len() as int);
        }
    }
    out
}

} // verus!
