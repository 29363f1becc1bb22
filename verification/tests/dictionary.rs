use ip_location::dict::Dictionary;

#[test]
fn empty_string_is_index_zero() {
    let mut d = Dictionary::new();
    assert_eq!(d.intern(&String::new()), 0);
    assert_eq!(d.intern(&String::from("")), 0);
}

#[test]
fn interning_twice_yields_same_index() {
    let mut d = Dictionary::new();
    let first = d.intern(&String::from("US"));
    let second = d.intern(&String::from("US"));
    assert_eq!(first, second);
    assert_eq!(first, 1);
}

#[test]
fn first_seen_order_assigns_indices() {
    let mut d = Dictionary::new();
    assert_eq!(d.intern(&String::from("CN")), 1);
    assert_eq!(d.intern(&String::from("US")), 2);
    assert_eq!(d.intern(&String::from("CN")), 1);
    assert_eq!(d.intern(&String::from("FR")), 3);
}

#[test]
fn get_resolves_and_defends_out_of_range() {
    let mut d = Dictionary::new();
    d.intern(&String::from("US"));
    assert_eq!(d.get(0), "");
    assert_eq!(d.get(1), "US");
    assert_eq!(d.get(99), "");
}
