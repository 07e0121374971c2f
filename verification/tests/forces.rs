use forcefield::Forces;

#[test]
fn insert_replaces_in_place_and_keeps_order() {
    let mut f: Forces<u32> = Forces::new();
    f.insert("charge".to_string(), 1);
    f.insert("link".to_string(), 2);
    f.insert("charge".to_string(), 3);
    assert_eq!(f.names(), &["charge".to_string(), "link".to_string()]);
    assert_eq!(f.get("charge"), Some(&3));
    assert_eq!(f.len(), 2);
    assert_eq!(*f.item(1), 2);
}

#[test]
fn remove_closes_the_slot() {
    let mut f: Forces<u32> = Forces::new();
    f.insert("a".to_string(), 1);
    f.insert("b".to_string(), 2);
    f.insert("c".to_string(), 3);
    assert_eq!(f.remove("b"), Some(2));
    assert_eq!(f.remove("b"), None);
    assert_eq!(f.names(), &["a".to_string(), "c".to_string()]);
    assert_eq!(f.position("c"), Some(1));
    assert_eq!(f.position("zz"), None);
}

#[test]
fn insert_then_remove_restores() {
    let mut f: Forces<u32> = Forces::new();
    f.insert("a".to_string(), 1);
    f.insert("x".to_string(), 9);
    f.remove("x");
    assert_eq!(f.names(), &["a".to_string()]);
    assert_eq!(f.get("a"), Some(&1));
}

#[test]
fn item_mut_updates_in_place() {
    let mut f: Forces<u32> = Forces::new();
    f.insert("a".to_string(), 1);
    *f.item_mut(0) += 5;
    assert_eq!(f.get("a"), Some(&6));
}
