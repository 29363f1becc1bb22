//! The build pipeline: raw tabular rows of (begin, end, country, province,
//! unused, city) text columns become parsed range records, gap-filled
//! contiguous covers, interned dictionaries and encoded tables — the whole
//! database that the lookup engine serves from.

use vstd::prelude::*;

use crate::addr::{
    lemma_ipv4_value_bound, lemma_ipv6_value_bound, lemma_pow16_8_value, parse_ipv4, parse_ipv6,
    spec_parse_ipv4, spec_parse_ipv6,
};
use crate::dict::Dictionary;
use crate::ingest::{
    appears, chained, contiguous_cover, covered_by, family_max, ingest, is_filler,
    lemma_push_sorted, lemma_push_wf, records_wf, sorted_disjoint, Family, RangeRecord,
};
use crate::ip::IpDatabase;
use crate::table::{
    encode, resolve_entry, strictly_increasing, triple_matches, triples_match_prefix,
};

verus! {

/// Why a build failed: a row that does not parse as a record of its file's
/// family, or rows whose ranges are out of order or overlapping.
#[derive(Clone, Copy, Debug, PartialEq, Eq, Structural)]
pub enum BuildError {
    SourceParse,
    SourceOrder,
}

/// Parsing an address under a chosen family.
pub open spec fn spec_parse_addr(f: Family, s: Seq<char>) -> Option<int> {
    if f is V4 {
        spec_parse_ipv4(s)
    } else {
        spec_parse_ipv6(s)
    }
}

/// Parses one address as the given family.
pub fn parse_addr(family: Family, s: &str) -> (o: Option<u128>)
    ensures
        match o {
            Some(v) => spec_parse_addr(family, s@) == Some(v as int),
            None => spec_parse_addr(family, s@) is None,
        },
{
    match family {
        Family::V4 => {
            match parse_ipv4(s) {
                Some(v) => Some(v as u128),
                None => None,
            }
        },
        Family::V6 => parse_ipv6(s),
    }
}

/// A raw row is usable for family `f`: it has the six expected columns,
/// both address texts parse under `f`, and the interval is not inverted.
pub open spec fn row_ok(row: Seq<String>, f: Family) -> bool {
    &&& row.len() >= 6
    &&& spec_parse_addr(f, row[0]@) is Some
    &&& spec_parse_addr(f, row[1]@) is Some
    &&& spec_parse_addr(f, row[0]@)->0 <= spec_parse_addr(f, row[1]@)->0
}

/// The record `r` carries exactly what the row says: the parsed interval
/// and the country, province and city columns (the fifth column is unused).
pub open spec fn row_record_matches(row: Seq<String>, f: Family, r: RangeRecord) -> bool {
    &&& r.family == f
    &&& r.begin as int == spec_parse_addr(f, row[0]@)->0
    &&& r.end as int == spec_parse_addr(f, row[1]@)->0
    &&& r.country@ == row[2]@
    &&& r.province@ == row[3]@
    &&& r.city@ == row[5]@
}

/// Parses one raw row into a range record of family `family`; any missing
/// column, unparseable address or inverted interval is a parse failure.
pub fn parse_record(row: &Vec<String>, family: Family) -> (r: Result<RangeRecord, BuildError>)
    ensures
        r is Ok <==> row_ok(row@, family),
        match r {
            Ok(rec) => {
                &&& row_record_matches(row@, family, rec)
                &&& rec.begin <= rec.end
                &&& rec.end as int <= family_max(family)
            },
            Err(e) => e == BuildError::SourceParse,
        },
{
    if row.len() < 6 {
        return Err(BuildError::SourceParse);
    }
    let begin = match parse_addr(family, row[0].as_str()) {
        Some(b) => b,
        None => {
            return Err(BuildError::SourceParse);
        },
    };
    let end = match parse_addr(family, row[1].as_str()) {
        Some(e) => e,
        None => {
            return Err(BuildError::SourceParse);
        },
    };
    if begin > end {
        return Err(BuildError::SourceParse);
    }
    proof {
        if family is V4 {
            lemma_ipv4_value_bound(row@[1]@);
        } else {
            lemma_ipv6_value_bound(row@[1]@);
            lemma_pow16_8_value();
        }
    }
    Ok(
        RangeRecord {
            family,
            begin,
            end,
            country: row[2].clone(),
            province: row[3].clone(),
            city: row[5].clone(),
        },
    )
}

/// How many of `n` rows a record limit admits; a zero limit is unbounded.
pub open spec fn used_rows(n: int, limit: int) -> int {
    if limit == 0 || n <= limit {
        n
    } else {
        limit
    }
}

/// The first `used` rows all parse for family `f`.
pub open spec fn rows_ok(rows: Seq<Vec<String>>, f: Family, used: int) -> bool {
    forall|k: int| 0 <= k < used ==> row_ok((#[trigger] rows[k])@, f)
}

/// The first `used` rows are sorted and disjoint: each row's range starts
/// strictly after the previous row's range ends.
pub open spec fn rows_sorted(rows: Seq<Vec<String>>, f: Family, used: int) -> bool {
    forall|k: int, l: int|
        #![trigger rows[k], rows[l]]
        0 <= k && l == k + 1 && l < used ==> spec_parse_addr(f, rows[k]@[1]@)->0 < spec_parse_addr(
            f,
            rows[l]@[0]@,
        )->0
}

/// Parses the admitted prefix of one family's rows into records, rejecting
/// the build on the first bad or out-of-order row.
#[verifier::rlimit(100)]
#[verifier::spinoff_prover]
pub fn build_family_records(rows: &Vec<Vec<String>>, family: Family, limit: usize) -> (r: Result<
    Vec<RangeRecord>,
    BuildError,
>)
    ensures
        ({
            let used = used_rows(rows@.len() as int, limit as int);
            &&& (r is Ok <==> rows_ok(rows@, family, used) && rows_sorted(rows@, family, used))
            &&& match r {
                Ok(recs) => {
                    &&& recs@.len() == used
                    &&& records_wf(recs@, family)
                    &&& sorted_disjoint(recs@)
                    &&& forall|k: int|
                        #![trigger recs@[k]]
                        0 <= k < used ==> row_record_matches(rows@[k]@, family, recs@[k])
                },
                Err(e) => {
                    &&& (e == BuildError::SourceParse ==> !rows_ok(rows@, family, used))
                    &&& (e == BuildError::SourceOrder ==> !rows_sorted(rows@, family, used))
                },
            }
        }),
{
    let ghost used_g = used_rows(rows@.len() as int, limit as int);
    let n = rows.len();
    let used: usize = if limit == 0 || n <= limit {
        n
    } else {
        limit
    };
    let mut recs: Vec<RangeRecord> = Vec::new();
    let mut prev_end: u128 = 0;
    let mut k: usize = 0;
    while k < used
        invariant
            used as int == used_g,
            used_g == used_rows(rows@.len() as int, limit as int),
            used <= rows@.len(),
            k <= used,
            recs@.len() == k,
            records_wf(recs@, family),
            sorted_disjoint(recs@),
            forall|t: int|
                #![trigger recs@[t]]
                0 <= t < k ==> row_record_matches(rows@[t]@, family, recs@[t]),
            forall|t: int| 0 <= t < k ==> row_ok((#[trigger] rows@[t])@, family),
            k > 0 ==> prev_end == recs@[k - 1].end,
        decreases used - k,
    {
        let row = &rows[k];
        let rec = match parse_record(row, family) {
            Ok(rc) => rc,
            Err(_) => {
                proof {
                    assert(!rows_ok(rows@, family, used_g)) by {
                        if rows_ok(rows@, family, used_g) {
                            assert(row_ok(rows@[k as int]@, family));
                        }
                    }
                }
                return Err(BuildError::SourceParse);
            },
        };
        if k > 0 && rec.begin <= prev_end {
            proof {
                assert(!rows_sorted(rows@, family, used_g)) by {
                    if rows_sorted(rows@, family, used_g) {
                        assert(rows@[k - 1] == rows@[k - 1]);
                        assert(spec_parse_addr(family, rows@[k - 1]@[1]@)->0 < spec_parse_addr(
                            family,
                            rows@[k as int]@[0]@,
                        )->0);
                        assert(recs@[k - 1].end as int == spec_parse_addr(
                            family,
                            rows@[k - 1]@[1]@,
                        )->0);
                    }
                }
            }
            return Err(BuildError::SourceOrder);
        }
        proof {
            lemma_push_wf(recs@, rec, family);
            lemma_push_sorted(recs@, rec);
            assert(forall|t: int| 0 <= t < recs@.len() ==> #[trigger] recs@.push(rec)[t]
                == recs@[t]);
            assert(recs@.push(rec)[k as int] == rec);
        }
        prev_end = rec.end;
        recs.push(rec);
        k = k + 1;
    }
    proof {
        assert(rows_ok(rows@, family, used_g));
        assert forall|t: int, l: int|
            #![trigger rows@[t], rows@[l]]
            0 <= t && l == t + 1 && l < used_g implies spec_parse_addr(family, rows@[t]@[1]@)->0
            < spec_parse_addr(family, rows@[l]@[0]@)->0 by {
            assert(recs@[t].end < recs@[l].begin);
            assert(row_record_matches(rows@[t]@, family, recs@[t]));
            assert(row_record_matches(rows@[l]@, family, recs@[l]));
        }
    }
    Ok(recs)
}

/// Slot `i` of an encoded table realises `row`: the bounds delimit exactly
/// the row's interval and the triple resolves to the row's three strings.
pub open spec fn slot_of_row(
    row: Seq<String>,
    f: Family,
    ub: Seq<u128>,
    trs: Seq<[usize; 3]>,
    ces: Seq<Seq<char>>,
    pes: Seq<Seq<char>>,
    cies: Seq<Seq<char>>,
    i: int,
) -> bool {
    &&& 0 <= i < ub.len()
    &&& ub[i] as int == spec_parse_addr(f, row[1]@)->0
    &&& (if i == 0 {
        0int
    } else {
        ub[i - 1] as int + 1
    }) == spec_parse_addr(f, row[0]@)->0
    &&& resolve_entry(ces, trs[i][0] as int) == row[2]@
    &&& resolve_entry(pes, trs[i][1] as int) == row[3]@
    &&& resolve_entry(cies, trs[i][2] as int) == row[5]@
}

/// The slot that realises `row`, where one exists.
pub open spec fn row_slot_index(
    row: Seq<String>,
    f: Family,
    ub: Seq<u128>,
    trs: Seq<[usize; 3]>,
    ces: Seq<Seq<char>>,
    pes: Seq<Seq<char>>,
    cies: Seq<Seq<char>>,
) -> int {
    choose|i: int| slot_of_row(row, f, ub, trs, ces, pes, cies, i)
}

/// Slot `i` resolves to three empty strings: a synthesized gap filler.
pub open spec fn slot_empty(
    trs: Seq<[usize; 3]>,
    ces: Seq<Seq<char>>,
    pes: Seq<Seq<char>>,
    cies: Seq<Seq<char>>,
    i: int,
) -> bool {
    &&& resolve_entry(ces, trs[i][0] as int) == Seq::<char>::empty()
    &&& resolve_entry(pes, trs[i][1] as int) == Seq::<char>::empty()
    &&& resolve_entry(cies, trs[i][2] as int) == Seq::<char>::empty()
}

/// In a contiguous cover, the range ends are strictly increasing.
pub proof fn lemma_cover_ends_sorted(rs: Seq<RangeRecord>, f: Family)
    requires
        records_wf(rs, f),
        chained(rs),
    ensures
        forall|i: int, j: int|
            #![trigger rs[i], rs[j]]
            0 <= i < j < rs.len() ==> rs[i].end < rs[j].end,
{
    assert forall|i: int, j: int|
        #![trigger rs[i], rs[j]]
        0 <= i < j < rs.len() implies rs[i].end < rs[j].end by {
        lemma_ends_lt(rs, f, i, j);
    }
}

proof fn lemma_ends_lt(rs: Seq<RangeRecord>, f: Family, i: int, j: int)
    requires
        records_wf(rs, f),
        chained(rs),
        0 <= i < j < rs.len(),
    ensures
        rs[i].end < rs[j].end,
    decreases j - i,
{
    if j == i + 1 {
        assert(rs[i].end + 1 == rs[j].begin);
        assert(rs[j].begin <= rs[j].end);
    } else {
        lemma_ends_lt(rs, f, i, j - 1);
        assert(rs[j - 1].end + 1 == rs[j].begin);
        assert(rs[j].begin <= rs[j].end);
    }
}

/// An output slot holding input record `k` realises row `k`.
proof fn lemma_slot_from_record(
    rows: Seq<Vec<String>>,
    used: int,
    f: Family,
    recs: Seq<RangeRecord>,
    out: Seq<RangeRecord>,
    ub: Seq<u128>,
    trs: Seq<[usize; 3]>,
    ces: Seq<Seq<char>>,
    pes: Seq<Seq<char>>,
    cies: Seq<Seq<char>>,
    k: int,
    i: int,
)
    requires
        used == recs.len(),
        used <= rows.len(),
        forall|t: int|
            #![trigger recs[t]]
            0 <= t < used ==> row_record_matches(rows[t]@, f, recs[t]),
        contiguous_cover(out, f),
        ub.len() == out.len(),
        trs.len() == out.len(),
        forall|j: int| 0 <= j < out.len() ==> ub[j] == (#[trigger] out[j]).end,
        triples_match_prefix(out.len() as int, trs, ces, pes, cies, out),
        0 <= k < used,
        0 <= i < out.len(),
        out[i] == recs[k],
    ensures
        slot_of_row(rows[k]@, f, ub, trs, ces, pes, cies, i),
{
    reveal(triples_match_prefix);
    assert(row_record_matches(rows[k]@, f, recs[k]));
    assert(triple_matches(trs[i], ces, pes, cies, out[i]));
    assert(ub[i] == out[i].end);
    if i == 0 {
        assert(out[0].begin == 0);
    } else {
        assert(out[i - 1].end + 1 == out[i].begin);
        assert(ub[i - 1] == out[i - 1].end);
    }
}

/// Every admitted row occupies a slot of the encoded table, and every
/// slot either realises an admitted row or resolves to empty strings.
proof fn lemma_family_slots(
    rows: Seq<Vec<String>>,
    used: int,
    f: Family,
    recs: Seq<RangeRecord>,
    out: Seq<RangeRecord>,
    ub: Seq<u128>,
    trs: Seq<[usize; 3]>,
    ces: Seq<Seq<char>>,
    pes: Seq<Seq<char>>,
    cies: Seq<Seq<char>>,
)
    requires
        used == recs.len(),
        used <= rows.len(),
        forall|t: int|
            #![trigger recs[t]]
            0 <= t < used ==> row_record_matches(rows[t]@, f, recs[t]),
        contiguous_cover(out, f),
        appears(recs, used, out),
        covered_by(out, recs),
        ub.len() == out.len(),
        trs.len() == out.len(),
        forall|j: int| 0 <= j < out.len() ==> ub[j] == (#[trigger] out[j]).end,
        triples_match_prefix(out.len() as int, trs, ces, pes, cies, out),
    ensures
        forall|k: int|
            #![trigger rows[k]]
            0 <= k < used ==> slot_of_row(
                rows[k]@,
                f,
                ub,
                trs,
                ces,
                pes,
                cies,
                row_slot_index(rows[k]@, f, ub, trs, ces, pes, cies),
            ),
        forall|i: int|
            0 <= i < ub.len() ==> (exists|k: int|
                0 <= k < used && slot_of_row((#[trigger] rows[k])@, f, ub, trs, ces, pes, cies, i))
                || slot_empty(trs, ces, pes, cies, i),
{
    reveal(appears);
    reveal(covered_by);
    assert forall|k: int| #![trigger rows[k]] 0 <= k < used implies slot_of_row(
        rows[k]@,
        f,
        ub,
        trs,
        ces,
        pes,
        cies,
        row_slot_index(rows[k]@, f, ub, trs, ces, pes, cies),
    ) by {
        // mention recs[k] so the `appears` quantifier yields its witness
        assert(recs[k] == recs[k]);
        let j = choose|j: int| 0 <= j < out.len() && out[j] == recs[k];
        lemma_slot_from_record(rows, used, f, recs, out, ub, trs, ces, pes, cies, k, j);
        assert(slot_of_row(rows[k]@, f, ub, trs, ces, pes, cies, j));
        assert(exists|i: int| slot_of_row(rows[k]@, f, ub, trs, ces, pes, cies, i));
    }
    assert forall|i: int| 0 <= i < ub.len() implies (exists|k: int|
        0 <= k < used && slot_of_row((#[trigger] rows[k])@, f, ub, trs, ces, pes, cies, i))
        || slot_empty(trs, ces, pes, cies, i) by {
        // mention out[i] so the `covered_by` quantifier applies to this slot
        assert(out[i] == out[i]);
        if exists|k: int| 0 <= k < recs.len() && out[i] == recs[k] {
            let k = choose|k: int| 0 <= k < recs.len() && out[i] == recs[k];
            lemma_slot_from_record(rows, used, f, recs, out, ub, trs, ces, pes, cies, k, i);
        } else {
            assert(is_filler(out[i]));
            reveal(triples_match_prefix);
            assert(triple_matches(trs[i], ces, pes, cies, out[i]));
        }
    }
}

/// Any address whose value lies inside the interval of a realised slot
/// looks up to exactly that slot: its lower-bound position in the bounds
/// array is the slot's own index, so the lookup engine resolves precisely
/// the row's three strings.
pub proof fn lemma_lookup_hits_slot(
    db: IpDatabase,
    f: Family,
    row: Seq<String>,
    i: int,
    v: int,
)
    requires
        db.wf(),
        slot_of_row(
            row,
            f,
            db.table_of(f).upper_bounds@,
            db.table_of(f).triples@,
            db.country.view_entries(),
            db.province.view_entries(),
            db.city.view_entries(),
            i,
        ),
        spec_parse_addr(f, row[0]@)->0 <= v,
        v <= spec_parse_addr(f, row[1]@)->0,
    ensures
        crate::table::is_lb(db.table_of(f).upper_bounds@, v, i),
        crate::table::lb_index(db.table_of(f).upper_bounds@, v) == i,
        resolve_entry(db.country.view_entries(), db.table_of(f).triples@[i][0] as int) == row[2]@,
        resolve_entry(db.province.view_entries(), db.table_of(f).triples@[i][1] as int)
            == row[3]@,
        resolve_entry(db.city.view_entries(), db.table_of(f).triples@[i][2] as int) == row[5]@,
{
    let ub = db.table_of(f).upper_bounds@;
    assert(strictly_increasing(ub)) by {
        if f is V4 {
            assert(crate::ip::table_wf(db.v4, Family::V4));
        } else {
            assert(crate::ip::table_wf(db.v6, Family::V6));
        }
    }
    crate::table::lemma_range_lookup(ub, v, i);
    let i0 = crate::table::lb_index(ub, v);
    assert(crate::table::is_lb(ub, v, i0)) by {
        assert(exists|j: int| crate::table::is_lb(ub, v, j));
    }
    crate::table::lemma_lb_unique(ub, v, i0, i);
}

/// An address inside no admitted row's interval falls into a synthesized
/// gap filler: the slot it looks up to resolves to three empty strings.
pub proof fn lemma_gap_lookup_empty(
    rows: Seq<Vec<String>>,
    used: int,
    f: Family,
    db: IpDatabase,
    v: int,
    i: int,
)
    requires
        db.wf(),
        forall|j: int|
            0 <= j < db.table_of(f).upper_bounds@.len() ==> (exists|k: int|
                0 <= k < used && slot_of_row(
                    (#[trigger] rows[k])@,
                    f,
                    db.table_of(f).upper_bounds@,
                    db.table_of(f).triples@,
                    db.country.view_entries(),
                    db.province.view_entries(),
                    db.city.view_entries(),
                    j,
                )) || slot_empty(
                db.table_of(f).triples@,
                db.country.view_entries(),
                db.province.view_entries(),
                db.city.view_entries(),
                j,
            ),
        0 <= v,
        crate::table::is_lb(db.table_of(f).upper_bounds@, v, i),
        forall|k: int|
            #![trigger rows[k]]
            0 <= k < used ==> !(spec_parse_addr(f, rows[k]@[0]@)->0 <= v && v <= spec_parse_addr(
                f,
                rows[k]@[1]@,
            )->0),
    ensures
        slot_empty(
            db.table_of(f).triples@,
            db.country.view_entries(),
            db.province.view_entries(),
            db.city.view_entries(),
            i,
        ),
{
    let ub = db.table_of(f).upper_bounds@;
    if exists|k: int|
        0 <= k < used && slot_of_row(
            (#[trigger] rows[k])@,
            f,
            ub,
            db.table_of(f).triples@,
            db.country.view_entries(),
            db.province.view_entries(),
            db.city.view_entries(),
            i,
        ) {
        let k = choose|k: int|
            0 <= k < used && slot_of_row(
                (#[trigger] rows[k])@,
                f,
                ub,
                db.table_of(f).triples@,
                db.country.view_entries(),
                db.province.view_entries(),
                db.city.view_entries(),
                i,
            );
        // slot `i` spans exactly row `k`'s interval, and `v` lies inside it
        assert(ub[i] as int == spec_parse_addr(f, rows[k]@[1]@)->0);
        if i > 0 {
            assert(ub[i - 1] < v);
        }
        assert(spec_parse_addr(f, rows[k]@[0]@)->0 <= v);
        assert(false);
    }
}

/// Builds the whole database from the two families' raw rows: parse,
/// gap-fill, intern and encode. On success the database is well-formed,
/// every admitted row is realised by exactly its own slot, and every other
/// slot resolves to empty strings.
#[verifier::rlimit(100)]
#[verifier::spinoff_prover]
pub fn build_database(
    v4_rows: &Vec<Vec<String>>,
    v6_rows: &Vec<Vec<String>>,
    limit: usize,
) -> (r: Result<IpDatabase, BuildError>)
    ensures
        ({
            let used4 = used_rows(v4_rows@.len() as int, limit as int);
            let used6 = used_rows(v6_rows@.len() as int, limit as int);
            &&& (r is Ok <==> rows_ok(v4_rows@, Family::V4, used4) && rows_sorted(
                v4_rows@,
                Family::V4,
                used4,
            ) && rows_ok(v6_rows@, Family::V6, used6) && rows_sorted(v6_rows@, Family::V6, used6))
            &&& match r {
                Ok(db) => {
                    let ces = db.country.view_entries();
                    let pes = db.province.view_entries();
                    let cies = db.city.view_entries();
                    &&& db.wf()
                    &&& forall|k: int|
                        #![trigger v4_rows@[k]]
                        0 <= k < used4 ==> slot_of_row(
                            v4_rows@[k]@,
                            Family::V4,
                            db.v4.upper_bounds@,
                            db.v4.triples@,
                            ces,
                            pes,
                            cies,
                            row_slot_index(
                                v4_rows@[k]@,
                                Family::V4,
                                db.v4.upper_bounds@,
                                db.v4.triples@,
                                ces,
                                pes,
                                cies,
                            ),
                        )
                    &&& forall|i: int|
                        0 <= i < db.v4.upper_bounds@.len() ==> (exists|k: int|
                            0 <= k < used4 && slot_of_row(
                                (#[trigger] v4_rows@[k])@,
                                Family::V4,
                                db.v4.upper_bounds@,
                                db.v4.triples@,
                                ces,
                                pes,
                                cies,
                                i,
                            )) || slot_empty(db.v4.triples@, ces, pes, cies, i)
                    &&& forall|k: int|
                        #![trigger v6_rows@[k]]
                        0 <= k < used6 ==> slot_of_row(
                            v6_rows@[k]@,
                            Family::V6,
                            db.v6.upper_bounds@,
                            db.v6.triples@,
                            ces,
                            pes,
                            cies,
                            row_slot_index(
                                v6_rows@[k]@,
                                Family::V6,
                                db.v6.upper_bounds@,
                                db.v6.triples@,
                                ces,
                                pes,
                                cies,
                            ),
                        )
                    &&& forall|i: int|
                        0 <= i < db.v6.upper_bounds@.len() ==> (exists|k: int|
                            0 <= k < used6 && slot_of_row(
                                (#[trigger] v6_rows@[k])@,
                                Family::V6,
                                db.v6.upper_bounds@,
                                db.v6.triples@,
                                ces,
                                pes,
                                cies,
                                i,
                            )) || slot_empty(db.v6.triples@, ces, pes, cies, i)
                },
                Err(e) => {
                    &&& (e == BuildError::SourceParse ==> !rows_ok(v4_rows@, Family::V4, used4)
                        || !rows_ok(v6_rows@, Family::V6, used6))
                    &&& (e == BuildError::SourceOrder ==> !rows_sorted(
                        v4_rows@,
                        Family::V4,
                        used4,
                    ) || !rows_sorted(v6_rows@, Family::V6, used6))
                },
            }
        }),
{
    let recs4 = match build_family_records(v4_rows, Family::V4, limit) {
        Ok(rs) => rs,
        Err(e) => {
            return Err(e);
        },
    };
    let recs6 = match build_family_records(v6_rows, Family::V6, limit) {
        Ok(rs) => rs,
        Err(e) => {
            return Err(e);
        },
    };
    let out4 = ingest(&recs4, Family::V4);
    let out6 = ingest(&recs6, Family::V6);
    let mut country = Dictionary::new();
    let mut province = Dictionary::new();
    let mut city = Dictionary::new();
    proof {
        lemma_cover_ends_sorted(out4@, Family::V4);
        lemma_cover_ends_sorted(out6@, Family::V6);
    }
    let t4 = encode(&out4, &mut country, &mut province, &mut city);
    let ghost ces4 = country.view_entries();
    let ghost pes4 = province.view_entries();
    let ghost cies4 = city.view_entries();
    let t6 = encode(&out6, &mut country, &mut province, &mut city);
    let db = IpDatabase { v4: t4, v6: t6, country, province, city };
    proof {
        let ces = db.country.view_entries();
        let pes = db.province.view_entries();
        let cies = db.city.view_entries();
        crate::table::lemma_triples_prefix_extend_dicts(
            out4@.len() as int,
            t4.triples@,
            ces4,
            pes4,
            cies4,
            ces,
            pes,
            cies,
            out4@,
        );
        lemma_family_slots(
            v4_rows@,
            recs4@.len() as int,
            Family::V4,
            recs4@,
            out4@,
            t4.upper_bounds@,
            t4.triples@,
            ces,
            pes,
            cies,
        );
        lemma_family_slots(
            v6_rows@,
            recs6@.len() as int,
            Family::V6,
            recs6@,
            out6@,
            t6.upper_bounds@,
            t6.triples@,
            ces,
            pes,
            cies,
        );
        assert(db.v4.upper_bounds@[db.v4.upper_bounds@.len() - 1] == out4@[out4@.len()
            - 1].end);
        assert(db.v6.upper_bounds@[db.v6.upper_bounds@.len() - 1] == out6@[out6@.len()
            - 1].end);
    }
    Ok(db)
}

} // verus!
