//! A verified IP-geolocation core: ingestion of address ranges into a
//! complete partition of the address space, string interning, an encoded
//! lookup table, and point lookups by binary search.

pub mod addr;
pub mod dict;
pub mod gen;
pub mod ingest;
pub mod ip;
pub mod table;
