//! The lookup engine: an immutable database of per-family encoded tables
//! and shared string dictionaries, queried by textual address. A colon in
//! the query selects the IPv6 family, otherwise IPv4; a malformed address
//! is the only failure, and any well-formed address resolves.

use vstd::prelude::*;

use crate::addr::{
    contains_colon, lemma_ipv4_value_bound, lemma_ipv6_value_bound, lemma_pow16_8_value,
    parse_ipv4, parse_ipv6, spec_parse_ipv4, spec_parse_ipv6,
};
use crate::dict::Dictionary;
use crate::ingest::{family_max, Family};
use crate::table::{
    is_lb, lb_index, lemma_lb_unique, lower_bound, resolve_entry, strictly_increasing,
    EncodedTable,
};

verus! {

/// The error returned for text that is not a valid address of the family
/// its shape selects.
#[derive(PartialEq, Eq, Structural)]
pub struct AddressParseError;

/// A resolved location for one queried address. Empty strings mean
/// "unknown/unmapped".
pub struct Location {
    pub ip: String,
    pub country: String,
    pub province: String,
    pub city: String,
}

/// The family that a query's shape selects: IPv6 when a colon occurs.
pub open spec fn spec_addr_family(s: Seq<char>) -> Family {
    if s.contains(':') {
        Family::V6
    } else {
        Family::V4
    }
}

/// The integer value of a query, under the family its shape selects.
pub open spec fn spec_addr_value(s: Seq<char>) -> Option<int> {
    if s.contains(':') {
        spec_parse_ipv6(s)
    } else {
        spec_parse_ipv4(s)
    }
}

/// A well-formed table for family `f`: parallel arrays, strictly
/// increasing bounds, and full coverage up to the family maximum.
pub open spec fn table_wf(t: EncodedTable, f: Family) -> bool {
    &&& t.upper_bounds@.len() == t.triples@.len()
    &&& t.upper_bounds@.len() >= 1
    &&& strictly_increasing(t.upper_bounds@)
    &&& (t.upper_bounds@[t.upper_bounds@.len() - 1] as int) == family_max(f)
}

/// The serving-side database: one encoded table per family and the three
/// shared string dictionaries.
pub struct IpDatabase {
    pub v4: EncodedTable,
    pub v6: EncodedTable,
    pub country: Dictionary,
    pub province: Dictionary,
    pub city: Dictionary,
}

impl IpDatabase {
    pub open spec fn wf(self) -> bool {
        &&& table_wf(self.v4, Family::V4)
        &&& table_wf(self.v6, Family::V6)
        &&& self.country.wf()
        &&& self.province.wf()
        &&& self.city.wf()
    }

    pub open spec fn table_of(self, f: Family) -> EncodedTable {
        if f is V4 {
            self.v4
        } else {
            self.v6
        }
    }

    /// Resolves a country index; out-of-range indices give the empty string.
    pub fn get_country(&self, index: usize) -> (r: String)
        ensures
            r@ == resolve_entry(self.country.view_entries(), index as int),
    {
        self.country.get(index)
    }

    /// Resolves a province index; out-of-range indices give the empty string.
    pub fn get_province(&self, index: usize) -> (r: String)
        ensures
            r@ == resolve_entry(self.province.view_entries(), index as int),
    {
        self.province.get(index)
    }

    /// Resolves a city index; out-of-range indices give the empty string.
    pub fn get_city(&self, index: usize) -> (r: String)
        ensures
            r@ == resolve_entry(self.city.view_entries(), index as int),
    {
        self.city.get(index)
    }

    /// Resolves an optional index triple to a location with an empty `ip`
    /// field; a missing triple resolves to all-empty fields.
    pub fn get_location_info(&self, data: Option<&[usize; 3]>) -> (loc: Location)
        ensures
            loc.ip@ == Seq::<char>::empty(),
            match data {
                Some(tr) => {
                    &&& loc.country@ == resolve_entry(
                        self.country.view_entries(),
                        tr[0] as int,
                    )
                    &&& loc.province@ == resolve_entry(
                        self.province.view_entries(),
                        tr[1] as int,
                    )
                    &&& loc.city@ == resolve_entry(self.city.view_entries(), tr[2] as int)
                },
                None => {
                    &&& loc.country@ == Seq::<char>::empty()
                    &&& loc.province@ == Seq::<char>::empty()
                    &&& loc.city@ == Seq::<char>::empty()
                },
            },
    {
        match data {
            Some(tr) => Location {
                ip: String::new(),
                country: self.get_country(tr[0]),
                province: self.get_province(tr[1]),
                city: self.get_city(tr[2]),
            },
            None => Location {
                ip: String::new(),
                country: String::new(),
                province: String::new(),
                city: String::new(),
            },
        }
    }

    /// Looks up a textual address: parses it under the family its shape
    /// selects, finds the first range whose upper bound is at least its
    /// value, and resolves that range's triple. Exactly the syntactically
    /// valid addresses succeed.
    pub fn get_location(&self, ip: &str) -> (r: Result<Location, AddressParseError>)
        requires
            self.wf(),
        ensures
            r is Ok <==> spec_addr_value(ip@) is Some,
            r matches Ok(loc) ==> ({
                let t = self.table_of(spec_addr_family(ip@));
                let v = spec_addr_value(ip@)->0;
                let i = lb_index(t.upper_bounds@, v);
                &&& loc.ip@ == ip@
                &&& is_lb(t.upper_bounds@, v, i)
                &&& loc.country@ == resolve_entry(
                    self.country.view_entries(),
                    t.triples@[i][0] as int,
                )
                &&& loc.province@ == resolve_entry(
                    self.province.view_entries(),
                    t.triples@[i][1] as int,
                )
                &&& loc.city@ == resolve_entry(self.city.view_entries(), t.triples@[i][2] as int)
            }),
    {
        if contains_colon(ip) {
            match parse_ipv6(ip) {
                Some(value) => {
                    proof {
                        lemma_ipv6_value_bound(ip@);
                        lemma_pow16_8_value();
                    }
                    let index = lower_bound(&self.v6.upper_bounds, value);
                    let tr = &self.v6.triples[index];
                    let info = self.get_location_info(Some(tr));
                    proof {
                        let ub = self.v6.upper_bounds@;
                        let i0 = lb_index(ub, value as int);
                        assert(is_lb(ub, value as int, index as int));
                        assert(is_lb(ub, value as int, i0)) by {
                            assert(exists|i: int| is_lb(ub, value as int, i));
                        }
                        lemma_lb_unique(ub, value as int, i0, index as int);
                    }
                    Ok(
                        Location {
                            ip: ip.to_owned(),
                            country: info.country,
                            province: info.province,
                            city: info.city,
                        },
                    )
                },
                None => Err(AddressParseError),
            }
        } else {
            match parse_ipv4(ip) {
                Some(value32) => {
                    proof {
                        lemma_ipv4_value_bound(ip@);
                    }
                    let value = value32 as u128;
                    let index = lower_bound(&self.v4.upper_bounds, value);
                    let tr = &self.v4.triples[index];
                    let info = self.get_location_info(Some(tr));
                    proof {
                        let ub = self.v4.upper_bounds@;
                        let i0 = lb_index(ub, value as int);
                        assert(is_lb(ub, value as int, index as int));
                        assert(is_lb(ub, value as int, i0)) by {
                            assert(exists|i: int| is_lb(ub, value as int, i));
                        }
                        lemma_lb_unique(ub, value as int, i0, index as int);
                    }
                    Ok(
                        Location {
                            ip: ip.to_owned(),
                            country: info.country,
                            province: info.province,
                            city: info.city,
                        },
                    )
                },
                None => Err(AddressParseError),
            }
        }
    }
}

} // verus!
