use limmat::assoc::Assoc;
use limmat::ident::Ident;

#[test]
fn later_values_replace_earlier_ones() {
    let mut map: Assoc<String, i32> = Assoc::new();
    assert_eq!(map.len(), 0);
    map.insert("a".to_owned(), 1);
    map.insert("b".to_owned(), 2);
    map.insert("a".to_owned(), 3);
    assert_eq!(map.len(), 2);
    assert_eq!(map.get(&"a".to_owned()), Some(&3));
    assert_eq!(map.get(&"b".to_owned()), Some(&2));
    assert_eq!(map.get(&"c".to_owned()), None);
    assert!(map.contains_key(&"b".to_owned()));
    // The order is that of the first insertions.
    assert_eq!(map.key_at(0), "a");
    assert_eq!(map.value_at(1), &2);
    assert_eq!(map.replace(&"b".to_owned(), 7), 2);
    assert_eq!(map.pop(), Some(("b".to_owned(), 7)));
    assert_eq!(map.pop(), Some(("a".to_owned(), 3)));
    assert_eq!(map.pop(), None);
}

#[test]
fn identifiers_are_shown_as_in_messages() {
    assert_eq!(3usize.debug(), "3");
    assert_eq!("a\"b\n".to_owned().debug(), "\"a\\\"b\\n\"");
    assert!(5usize.same(&5));
    assert!("x".to_owned().same(&"x".to_owned().duplicate()));
}
