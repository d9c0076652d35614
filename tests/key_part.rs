use std::cmp::Ordering;

use prefix_tree_map::KeyPart;

#[test]
fn key_part_predicates() {
    let exact: KeyPart<u64, u64> = KeyPart::Exact(3);
    let wildcard: KeyPart<u64, u64> = KeyPart::Wildcard(3);
    assert!(exact.is_exact());
    assert!(!exact.is_wildcard());
    assert!(wildcard.is_wildcard());
    assert!(!wildcard.is_exact());
    assert_eq!(wildcard.unwrap_wildcard(), 3);
}

#[test]
fn key_part_as_ref_borrows_payload() {
    let exact: KeyPart<String, u8> = KeyPart::Exact(String::from("user"));
    assert_eq!(exact.as_ref(), KeyPart::Exact(&String::from("user")));
    let wildcard: KeyPart<String, u8> = KeyPart::Wildcard(4);
    assert_eq!(wildcard.as_ref(), KeyPart::Wildcard(&4));
}

#[test]
fn wildcards_sort_before_exact_parts() {
    let w_hi: KeyPart<u64, u64> = KeyPart::Wildcard(u64::MAX);
    let e_lo: KeyPart<u64, u64> = KeyPart::Exact(0);
    assert_eq!(w_hi.compare(&e_lo), Ordering::Less);
    assert_eq!(e_lo.compare(&w_hi), Ordering::Greater);
    assert_eq!(KeyPart::<u64, u64>::Exact(2).compare(&KeyPart::Exact(5)), Ordering::Less);
    assert_eq!(KeyPart::<u64, u64>::Wildcard(6).compare(&KeyPart::Wildcard(5)), Ordering::Greater);
    assert_eq!(KeyPart::<u64, u64>::Exact(5).compare(&KeyPart::Exact(5)), Ordering::Equal);
    assert_eq!(KeyPart::<u64, u64>::Wildcard(5).compare(&KeyPart::Wildcard(5)), Ordering::Equal);
}
