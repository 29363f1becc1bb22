use ip_location::gen::{build_database, BuildError};

fn row(begin: &str, end: &str, country: &str, province: &str, city: &str) -> Vec<String> {
    vec![
        begin.to_string(),
        end.to_string(),
        country.to_string(),
        province.to_string(),
        String::new(),
        city.to_string(),
    ]
}

#[test]
fn gap_filled_lookup_scenario() {
    // one real range 1000..=1999 -> (US, CA, LA); gaps are synthesized
    let v4 = vec![row("0.0.3.232", "0.0.7.207", "US", "CA", "LA")];
    let v6: Vec<Vec<String>> = Vec::new();
    let db = build_database(&v4, &v6, 0).unwrap_or_else(|_| panic!("build failed"));

    let low = db.get_location("0.0.0.0").unwrap_or_else(|_| panic!("lookup failed"));
    assert_eq!(low.country, "");
    assert_eq!(low.province, "");
    assert_eq!(low.city, "");

    // 1500 = 0.0.5.220
    let mid = db.get_location("0.0.5.220").unwrap_or_else(|_| panic!("lookup failed"));
    assert_eq!(mid.ip, "0.0.5.220");
    assert_eq!(mid.country, "US");
    assert_eq!(mid.province, "CA");
    assert_eq!(mid.city, "LA");

    // 2000 = 0.0.7.208: first address past the real range
    let high = db.get_location("0.0.7.208").unwrap_or_else(|_| panic!("lookup failed"));
    assert_eq!(high.country, "");
    assert_eq!(high.province, "");
    assert_eq!(high.city, "");
}

#[test]
fn range_boundaries_resolve_to_their_range() {
    let v4 = vec![row("0.0.3.232", "0.0.7.207", "US", "CA", "LA")];
    let v6: Vec<Vec<String>> = Vec::new();
    let db = build_database(&v4, &v6, 0).unwrap_or_else(|_| panic!("build failed"));
    let begin = db.get_location("0.0.3.232").unwrap_or_else(|_| panic!("lookup failed"));
    assert_eq!(begin.country, "US");
    let end = db.get_location("0.0.7.207").unwrap_or_else(|_| panic!("lookup failed"));
    assert_eq!(end.country, "US");
    let just_before = db.get_location("0.0.3.231").unwrap_or_else(|_| panic!("lookup failed"));
    assert_eq!(just_before.country, "");
}

#[test]
fn identical_country_strings_intern_once() {
    let v4 = vec![
        row("0.0.0.0", "0.0.0.9", "US", "CA", "LA"),
        row("0.0.0.10", "0.0.0.19", "US", "WA", "Seattle"),
    ];
    let v6: Vec<Vec<String>> = Vec::new();
    let db = build_database(&v4, &v6, 0).unwrap_or_else(|_| panic!("build failed"));
    // "" plus one "US": the second occurrence reuses the first index
    assert_eq!(db.country.entries.len(), 2);
    assert_eq!(db.province.entries.len(), 3);
}

#[test]
fn malformed_lookup_is_a_parse_error() {
    let v4 = vec![row("0.0.3.232", "0.0.7.207", "US", "CA", "LA")];
    let v6: Vec<Vec<String>> = Vec::new();
    let db = build_database(&v4, &v6, 0).unwrap_or_else(|_| panic!("build failed"));
    assert!(db.get_location("not-an-ip").is_err());
    assert!(db.get_location("1.2.3.256").is_err());
    assert!(db.get_location("::zz").is_err());
    assert!(db.get_location("").is_err());
}

#[test]
fn tables_cover_the_whole_domain() {
    let v4 = vec![row("0.0.3.232", "0.0.7.207", "US", "CA", "LA")];
    let v6 = vec![row("::10", "::1f", "CN", "Beijing", "Beijing")];
    let db = build_database(&v4, &v6, 0).unwrap_or_else(|_| panic!("build failed"));
    assert_eq!(db.v4.upper_bounds.first(), Some(&999u128));
    assert_eq!(db.v4.upper_bounds.last(), Some(&(u32::MAX as u128)));
    assert_eq!(db.v6.upper_bounds.last(), Some(&u128::MAX));
    let mut prev: Option<u128> = None;
    for b in db.v4.upper_bounds.iter() {
        if let Some(p) = prev {
            assert!(p < *b);
        }
        prev = Some(*b);
    }
    assert_eq!(db.v4.upper_bounds.len(), db.v4.triples.len());
}

#[test]
fn ipv6_lookup_resolves() {
    let v4: Vec<Vec<String>> = Vec::new();
    let v6 = vec![row("::10", "::1f", "CN", "Beijing", "Beijing")];
    let db = build_database(&v4, &v6, 0).unwrap_or_else(|_| panic!("build failed"));
    let hit = db.get_location("::1a").unwrap_or_else(|_| panic!("lookup failed"));
    assert_eq!(hit.country, "CN");
    assert_eq!(hit.city, "Beijing");
    let miss = db.get_location("::2f").unwrap_or_else(|_| panic!("lookup failed"));
    assert_eq!(miss.country, "");
}

#[test]
fn bad_row_fails_the_whole_build() {
    let v4 = vec![
        row("0.0.0.0", "0.0.0.9", "US", "CA", "LA"),
        row("0.0.0.x", "0.0.0.19", "US", "WA", "Seattle"),
    ];
    let v6: Vec<Vec<String>> = Vec::new();
    assert!(matches!(build_database(&v4, &v6, 0), Err(BuildError::SourceParse)));
}

#[test]
fn short_row_fails_the_build() {
    let v4 = vec![vec!["0.0.0.0".to_string(), "0.0.0.9".to_string()]];
    let v6: Vec<Vec<String>> = Vec::new();
    assert!(matches!(build_database(&v4, &v6, 0), Err(BuildError::SourceParse)));
}

#[test]
fn inverted_interval_fails_the_build() {
    let v4 = vec![row("0.0.0.9", "0.0.0.0", "US", "CA", "LA")];
    let v6: Vec<Vec<String>> = Vec::new();
    assert!(matches!(build_database(&v4, &v6, 0), Err(BuildError::SourceParse)));
}

#[test]
fn overlapping_rows_fail_the_build() {
    let v4 = vec![
        row("0.0.0.0", "0.0.0.9", "US", "CA", "LA"),
        row("0.0.0.5", "0.0.0.19", "US", "WA", "Seattle"),
    ];
    let v6: Vec<Vec<String>> = Vec::new();
    assert!(matches!(build_database(&v4, &v6, 0), Err(BuildError::SourceOrder)));
}

#[test]
fn record_limit_truncates_input() {
    let v4 = vec![
        row("0.0.0.0", "0.0.0.9", "US", "CA", "LA"),
        row("0.0.0.10", "0.0.0.19", "CN", "Beijing", "Beijing"),
    ];
    let v6: Vec<Vec<String>> = Vec::new();
    let db = build_database(&v4, &v6, 1).unwrap_or_else(|_| panic!("build failed"));
    // only the first row is admitted; the second row's range is a filler
    let hit = db.get_location("0.0.0.15").unwrap_or_else(|_| panic!("lookup failed"));
    assert_eq!(hit.country, "");
    let db_all = build_database(&v4, &v6, 0).unwrap_or_else(|_| panic!("build failed"));
    let hit_all = db_all.get_location("0.0.0.15").unwrap_or_else(|_| panic!("lookup failed"));
    assert_eq!(hit_all.country, "CN");
}

#[test]
fn full_domain_single_row() {
    let v4 = vec![row("0.0.0.0", "255.255.255.255", "US", "", "")];
    let v6: Vec<Vec<String>> = Vec::new();
    let db = build_database(&v4, &v6, 0).unwrap_or_else(|_| panic!("build failed"));
    assert_eq!(db.v4.upper_bounds.len(), 1);
    let hit = db.get_location("9.9.9.9").unwrap_or_else(|_| panic!("lookup failed"));
    assert_eq!(hit.country, "US");
    assert_eq!(hit.province, "");
}

#[test]
fn any_valid_address_resolves() {
    // even an empty source still covers both full domains with fillers
    let v4: Vec<Vec<String>> = Vec::new();
    let v6: Vec<Vec<String>> = Vec::new();
    let db = build_database(&v4, &v6, 0).unwrap_or_else(|_| panic!("build failed"));
    for ip in [
        "0.0.0.0",
        "127.0.0.1",
        "255.255.255.255",
        "::",
        "::1",
        "2001:db8::8a2e:370:7334",
        "ffff:ffff:ffff:ffff:ffff:ffff:ffff:ffff",
    ] {
        let loc = db.get_location(ip).unwrap_or_else(|_| panic!("lookup failed"));
        assert_eq!(loc.ip, ip);
        assert_eq!(loc.country, "");
    }
}

#[test]
fn defensive_index_resolution() {
    let v4: Vec<Vec<String>> = Vec::new();
    let v6: Vec<Vec<String>> = Vec::new();
    let db = build_database(&v4, &v6, 0).unwrap_or_else(|_| panic!("build failed"));
    assert_eq!(db.get_country(0), "");
    assert_eq!(db.get_country(42), "");
    assert_eq!(db.get_province(7), "");
    assert_eq!(db.get_city(7), "");
    let info = db.get_location_info(None);
    assert_eq!(info.country, "");
    assert_eq!(info.ip, "");
}
