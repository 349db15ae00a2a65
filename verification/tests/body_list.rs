use orbit_playground::body::{BodyId, BodyList, IdRegistry};

fn three_ids() -> (IdRegistry, BodyId, BodyId, BodyId) {
    let mut registry = IdRegistry::new();
    let a = BodyId::next_id(&mut registry);
    let b = BodyId::next_id(&mut registry);
    let c = BodyId::next_id(&mut registry);
    (registry, a, b, c)
}

fn ids_of<B>(list: &BodyList<B>) -> Vec<usize> {
    list.iter().into_iter().map(|(id, _)| id.get_id()).collect()
}

#[test]
fn a_new_list_is_empty() {
    let list: BodyList<String> = BodyList::new();
    assert_eq!(list.len(), 0);
    assert!(list.is_empty());
    let by_default: BodyList<String> = BodyList::default();
    assert!(by_default.is_empty());
    assert!(by_default.iter().is_empty());
}

#[test]
fn insert_then_get_returns_the_body() {
    let (_, a, b, _) = three_ids();
    let mut list: BodyList<String> = BodyList::new();
    list.insert(a, "earth".to_string());
    assert_eq!(list.get(a), Some(&"earth".to_string()));
    assert_eq!(list.get(b), None);
    assert_eq!(list.len(), 1);
    assert!(!list.is_empty());
}

#[test]
fn remove_then_get_finds_nothing() {
    let (_, a, b, _) = three_ids();
    let mut list: BodyList<u32> = BodyList::new();
    list.insert(a, 10);
    list.insert(b, 20);
    assert_eq!(list.remove(a), Some(10));
    assert_eq!(list.get(a), None);
    assert_eq!(list.get(b), Some(&20));
    assert_eq!(list.len(), 1);
}

#[test]
fn removing_an_absent_identity_changes_nothing() {
    let (_, a, b, c) = three_ids();
    let mut list: BodyList<u32> = BodyList::new();
    list.insert(a, 10);
    list.insert(c, 30);
    assert_eq!(list.remove(b), None);
    assert_eq!(list.len(), 2);
    assert_eq!(ids_of(&list), vec![1, 3]);
    let mut empty: BodyList<u32> = BodyList::new();
    assert_eq!(empty.remove(a), None);
}

#[test]
fn insert_keeps_the_identities_ascending() {
    let (_, a, b, c) = three_ids();
    let mut list: BodyList<char> = BodyList::new();
    list.insert(c, 'c');
    list.insert(a, 'a');
    list.insert(b, 'b');
    assert_eq!(ids_of(&list), vec![1, 2, 3]);
    let bodies: Vec<char> = list.iter().into_iter().map(|(_, body)| *body).collect();
    assert_eq!(bodies, vec!['a', 'b', 'c']);
    assert_eq!(list.get(a), Some(&'a'));
    assert_eq!(list.get(b), Some(&'b'));
    assert_eq!(list.get(c), Some(&'c'));
}

#[test]
fn remove_keeps_the_order_of_the_rest() {
    let (_, a, b, c) = three_ids();
    let mut list: BodyList<char> = BodyList::new();
    list.insert(a, 'a');
    list.insert(b, 'b');
    list.insert(c, 'c');
    assert_eq!(list.remove(b), Some('b'));
    assert_eq!(ids_of(&list), vec![1, 3]);
    assert_eq!(list.remove(a), Some('a'));
    assert_eq!(ids_of(&list), vec![3]);
    assert_eq!(list.remove(c), Some('c'));
    assert!(list.is_empty());
}

#[test]
fn push_issues_a_new_identity_each_time() {
    let mut registry = IdRegistry::new();
    let mut list: BodyList<&str> = BodyList::new();
    let sun = list.push(&mut registry, "sun");
    let moon = list.push(&mut registry, "moon");
    assert_eq!(sun.get_id(), 1);
    assert_eq!(moon.get_id(), 2);
    assert_eq!(list.get(sun), Some(&"sun"));
    assert_eq!(list.get(moon), Some(&"moon"));
    assert_eq!(ids_of(&list), vec![1, 2]);
    assert_eq!(registry.issued_count(), 2);
}

#[test]
fn push_after_remove_does_not_reuse_an_identity() {
    let mut registry = IdRegistry::new();
    let mut list: BodyList<u8> = BodyList::new();
    let first = list.push(&mut registry, 1);
    assert_eq!(list.remove(first), Some(1));
    let second = list.push(&mut registry, 2);
    assert_ne!(first, second);
    assert_eq!(second.get_id(), 2);
    assert_eq!(list.get(first), None);
}

#[test]
fn get_mut_changes_the_body_in_place() {
    let (_, a, b, c) = three_ids();
    let mut list: BodyList<i64> = BodyList::new();
    list.insert(a, 1);
    list.insert(b, 2);
    match list.get_mut(b) {
        Some(body) => *body = 20,
        None => panic!("the body is in the list"),
    }
    assert_eq!(list.get(a), Some(&1));
    assert_eq!(list.get(b), Some(&20));
    assert!(list.get_mut(c).is_none());
    assert_eq!(list.len(), 2);
}

#[test]
fn reserve_keeps_the_contents() {
    let (_, a, b, _) = three_ids();
    let mut list: BodyList<i64> = BodyList::new();
    list.insert(a, 1);
    list.insert(b, 2);
    list.reserve(100);
    assert_eq!(ids_of(&list), vec![1, 2]);
    assert_eq!(list.get(a), Some(&1));
    assert_eq!(list.get(b), Some(&2));
}

#[test]
fn disjoint_lookup_hands_out_each_body_once() {
    let (_, a, b, c) = three_ids();
    let mut list: BodyList<i64> = BodyList::new();
    list.insert(a, 1);
    list.insert(b, 2);
    list.insert(c, 3);
    let [first, second, third] = list.maybe_get_disjoint_mut([Some(c), Some(a), Some(c)]);
    assert!(third.is_none());
    let first = first.unwrap();
    let second = second.unwrap();
    assert_eq!(*first, 3);
    assert_eq!(*second, 1);
    *first = 30;
    *second = 10;
    assert_eq!(list.get(a), Some(&10));
    assert_eq!(list.get(b), Some(&2));
    assert_eq!(list.get(c), Some(&30));
}

#[test]
fn disjoint_lookup_of_the_same_body_twice_gives_the_first_only() {
    let (_, a, _, _) = three_ids();
    let mut list: BodyList<i64> = BodyList::new();
    list.insert(a, 1);
    let [selected, focused] = list.maybe_get_disjoint_mut([Some(a), Some(a)]);
    assert!(selected.is_some());
    assert!(focused.is_none());
    *selected.unwrap() = 7;
    assert_eq!(list.get(a), Some(&7));
}

#[test]
fn disjoint_lookup_of_absent_and_unasked_positions_gives_nothing() {
    let (_, a, b, c) = three_ids();
    let mut list: BodyList<i64> = BodyList::new();
    list.insert(a, 1);
    list.insert(c, 3);
    let [none_asked, absent, present, again_absent] = list.maybe_get_disjoint_mut([None, Some(b), Some(c), Some(b)]);
    assert!(none_asked.is_none());
    assert!(absent.is_none());
    assert!(again_absent.is_none());
    assert_eq!(present.map(|body| *body), Some(3));
    let nothing: [Option<&mut i64>; 0] = list.maybe_get_disjoint_mut([]);
    assert_eq!(nothing.len(), 0);
    assert_eq!(ids_of(&list), vec![1, 3]);
}

#[test]
fn disjoint_lookup_after_an_absent_request_still_grants_a_later_one() {
    let (_, a, b, _) = three_ids();
    let mut list: BodyList<i64> = BodyList::new();
    list.insert(a, 1);
    let [first, second, third] = list.maybe_get_disjoint_mut([Some(b), Some(a), Some(a)]);
    assert!(first.is_none());
    assert_eq!(second.map(|body| *body), Some(1));
    assert!(third.is_none());
}

#[test]
fn get_disjoint_mut_resolves_every_identity() {
    let (_, a, b, c) = three_ids();
    let mut list: BodyList<i64> = BodyList::new();
    list.insert(a, 1);
    list.insert(b, 2);
    let [x, y, z, w] = list.get_disjoint_mut([b, c, a, b]);
    assert!(y.is_none());
    assert!(w.is_none());
    let x = x.unwrap();
    let z = z.unwrap();
    core::mem::swap(x, z);
    assert_eq!(list.get(a), Some(&2));
    assert_eq!(list.get(b), Some(&1));
}

#[test]
fn iter_lists_the_entries_in_ascending_order() {
    let (_, a, b, c) = three_ids();
    let mut list: BodyList<&str> = BodyList::new();
    list.insert(b, "b");
    list.insert(c, "c");
    list.insert(a, "a");
    let items = list.iter();
    assert_eq!(items.len(), 3);
    assert_eq!(items[0], (a, &"a"));
    assert_eq!(items[1], (b, &"b"));
    assert_eq!(items[2], (c, &"c"));
}

#[test]
fn iter_mut_reaches_every_body() {
    let (_, a, b, c) = three_ids();
    let mut list: BodyList<i64> = BodyList::new();
    list.insert(a, 1);
    list.insert(b, 2);
    list.insert(c, 3);
    for (id, body) in list.iter_mut() {
        *body = *body * 10 + id.get_id() as i64;
    }
    assert_eq!(list.get(a), Some(&11));
    assert_eq!(list.get(b), Some(&22));
    assert_eq!(list.get(c), Some(&33));
    let mut empty: BodyList<i64> = BodyList::new();
    assert!(empty.iter_mut().is_empty());
}

fn meet(ia: BodyId, a: &Vec<usize>, ib: BodyId, b: &Vec<usize>) -> (Vec<usize>, Vec<usize>) {
    let mut a = a.clone();
    let mut b = b.clone();
    a.push(ib.get_id());
    b.push(ia.get_id());
    (a, b)
}

#[test]
fn pairs_meet_once_each_in_ascending_order() {
    let mut registry = IdRegistry::new();
    let mut list: BodyList<Vec<usize>> = BodyList::new();
    let mut ids = Vec::new();
    for _ in 0..4 {
        ids.push(list.push(&mut registry, Vec::new()));
    }
    list.iter_mut_pairs(meet);
    assert_eq!(list.get(ids[0]), Some(&vec![2, 3, 4]));
    assert_eq!(list.get(ids[1]), Some(&vec![1, 3, 4]));
    assert_eq!(list.get(ids[2]), Some(&vec![1, 2, 4]));
    assert_eq!(list.get(ids[3]), Some(&vec![1, 2, 3]));
    assert_eq!(ids_of(&list), vec![1, 2, 3, 4]);
}

fn pour(_ia: BodyId, a: &i64, _ib: BodyId, b: &i64) -> (i64, i64) {
    (*a - 1, *b + *a)
}

#[test]
fn a_pair_sees_what_earlier_pairs_made_of_its_bodies() {
    let mut registry = IdRegistry::new();
    let mut list: BodyList<i64> = BodyList::new();
    let a = list.push(&mut registry, 10);
    let b = list.push(&mut registry, 100);
    let c = list.push(&mut registry, 1000);
    // (a, b): a = 9, b = 110; (a, c): a = 8, c = 1009; (b, c): b = 109, c = 1119.
    list.iter_mut_pairs(pour);
    assert_eq!(list.get(a), Some(&8));
    assert_eq!(list.get(b), Some(&109));
    assert_eq!(list.get(c), Some(&1119));
}

#[test]
fn fewer_than_two_bodies_have_no_pairs() {
    let mut registry = IdRegistry::new();
    let mut list: BodyList<i64> = BodyList::new();
    list.iter_mut_pairs(pour);
    assert!(list.is_empty());
    let a = list.push(&mut registry, 10);
    list.iter_mut_pairs(pour);
    assert_eq!(list.get(a), Some(&10));
}

#[test]
fn a_clone_has_the_same_identities_and_bodies() {
    let (_, a, b, _) = three_ids();
    let mut list: BodyList<String> = BodyList::new();
    list.insert(b, "b".to_string());
    list.insert(a, "a".to_string());
    let mut copy = list.clone();
    assert_eq!(ids_of(&copy), vec![1, 2]);
    assert_eq!(copy.get(a), Some(&"a".to_string()));
    assert_eq!(copy.get(b), Some(&"b".to_string()));
    copy.remove(a);
    assert_eq!(list.len(), 2);
    assert_eq!(list.get(a), Some(&"a".to_string()));
}
