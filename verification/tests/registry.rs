use orbit_playground::body::{BodyId, BodyList, IdRegistry};

#[test]
fn identities_start_at_one_and_grow() {
    let mut registry = IdRegistry::new();
    assert_eq!(registry.issued_count(), 0);
    let a = BodyId::next_id(&mut registry);
    let b = BodyId::next_id(&mut registry);
    assert_eq!(a.get_id(), 1);
    assert_eq!(b.get_id(), 2);
    assert!(a < b);
    assert_ne!(a, b);
    assert_eq!(registry.issued_count(), 2);
    assert!(!registry.is_exhausted());
}

#[test]
fn identities_are_never_issued_twice() {
    let mut registry = IdRegistry::new();
    let mut seen: Vec<usize> = Vec::new();
    for _ in 0..1000 {
        let id = BodyId::next_id(&mut registry);
        assert!(id.get_id() >= 1);
        assert!(!seen.contains(&id.get_id()));
        seen.push(id.get_id());
    }
    assert_eq!(registry.issued_count(), 1000);
}

#[test]
fn registry_knows_what_it_issued() {
    let mut registry = IdRegistry::new();
    let mut other = IdRegistry::new();
    let a = BodyId::next_id(&mut registry);
    let b = BodyId::next_id(&mut registry);
    assert!(registry.knows(a));
    assert!(registry.knows(b));
    let first_of_other = BodyId::next_id(&mut other);
    assert!(other.knows(first_of_other));
    assert!(!other.knows(b));
}

#[test]
fn a_copy_of_an_identity_is_the_same_identity() {
    let mut registry = IdRegistry::new();
    let a = BodyId::next_id(&mut registry);
    let copy = a;
    assert_eq!(a, copy);
    let mut list: BodyList<u32> = BodyList::new();
    list.insert(a, 5);
    assert_eq!(list.get(copy), Some(&5));
}
