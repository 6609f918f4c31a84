use heckel_diff::{hash_str, Occurrences, Symbol, SymbolTable};
use std::collections::hash_map::DefaultHasher;
use std::hash::Hasher;

#[test]
fn increment_goes_zero_one_many() {
    let mut o = Occurrences::Zero;
    o.increment();
    assert_eq!(o, Occurrences::One);
    o.increment();
    assert_eq!(o, Occurrences::Many);
    o.increment();
    assert_eq!(o, Occurrences::Many);
}

#[test]
fn as_entry_mut_reaches_the_handle() {
    let mut s = Symbol::Entry(4);
    *s.as_entry_mut() = 9;
    assert_eq!(s, Symbol::Entry(9));
}

#[test]
fn hash_str_is_the_default_hash_of_the_bytes() {
    let mut h = DefaultHasher::new();
    h.write("heckel".as_bytes());
    assert_eq!(hash_str("heckel"), h.finish());
    assert_eq!(hash_str("heckel"), hash_str("heckel"));
    assert_ne!(hash_str("heckel"), hash_str("heckle"));
}

#[test]
fn table_shares_one_record_per_line() {
    let mut t = SymbolTable::new();
    let a = t.observe_new(&"a".to_string());
    let b = t.observe_new(&"b".to_string());
    let a2 = t.observe_new(&"a".to_string());
    assert_eq!(a, a2);
    assert_ne!(a, b);
    assert_eq!(t.len(), 2);
    assert_eq!(t.entry(a).nc, Occurrences::Many);
    assert_eq!(t.entry(a).oc, Occurrences::Zero);
    assert_eq!(t.entry(b).nc, Occurrences::One);
}

#[test]
fn table_records_the_old_line_number() {
    let mut t = SymbolTable::new();
    let b = t.observe_new(&"b".to_string());
    let c = t.observe_old(&"c".to_string(), 1);
    let b2 = t.observe_old(&"b".to_string(), 2);
    assert_eq!(b, b2);
    assert_eq!(t.entry(b).oc, Occurrences::One);
    assert_eq!(t.entry(b).nc, Occurrences::One);
    assert_eq!(t.entry(b).olno, Some(2));
    assert_eq!(t.entry(c).oc, Occurrences::One);
    assert_eq!(t.entry(c).nc, Occurrences::Zero);
    assert_eq!(t.entry(c).olno, Some(1));
    assert_eq!(t.find(&"b".to_string()), Some(b));
    assert_eq!(t.find(&"z".to_string()), None);
    assert_eq!(t.entry(c).line, "c");
}
