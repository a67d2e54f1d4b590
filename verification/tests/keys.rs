use std::collections::HashSet;
use std::rc::Rc;
use vtree::key::key;
use vtree::key::Key;

#[test]
fn key_text_of_each_kind() {
    assert_eq!(Key::U64(42).to_string(), "u42");
    assert_eq!(Key::U64(0).to_string(), "u0");
    assert_eq!(Key::U64(u64::MAX).to_string(), "u18446744073709551615");
    assert_eq!(Key::I64(12).to_string(), "i12");
    assert_eq!(Key::I64(-7).to_string(), "i-7");
    assert_eq!(Key::I64(i64::MIN).to_string(), "i-9223372036854775808");
    assert_eq!(Key::I64(i64::MAX).to_string(), "i9223372036854775807");
    assert_eq!(Key::String(Rc::new("ab".to_string())).to_string(), "sab");
    assert_eq!(Key::Str("").to_string(), "s");
    assert_eq!(Key::Str("héllo").to_string(), "shéllo");
    assert_eq!(Key::Bytes(Rc::new(vec![0x0a, 0xff, 0x00])).to_string(), "0x0aff00");
    assert_eq!(Key::Bytes(Rc::new(vec![])).to_string(), "0x");
}

#[test]
fn key_equality_is_by_value() {
    assert!(Key::String(Rc::new("a".to_string())) == Key::Str("a"));
    assert!(Key::Str("a") == Key::String(Rc::new("a".to_string())));
    assert!(Key::Str("a") != Key::Str("b"));
    assert!(Key::U64(1) == Key::U64(1));
    assert!(Key::U64(1) != Key::I64(1));
    assert!(Key::U64(1) != Key::U64(2));
    assert!(Key::I64(-1) == Key::I64(-1));
    assert!(Key::Bytes(Rc::new(vec![97])) != Key::Str("a"));
    assert!(Key::Bytes(Rc::new(vec![1, 2])) == Key::Bytes(Rc::new(vec![1, 2])));
    assert!(Key::Bytes(Rc::new(vec![1, 2])) != Key::Bytes(Rc::new(vec![1, 3])));
    assert!(Key::Bytes(Rc::new(vec![1, 2])) != Key::Bytes(Rc::new(vec![1])));
    assert!(Key::Str("a").same(&Key::String(Rc::new("a".to_string()))));
    assert!(!Key::Str("a").same(&Key::U64(0)));
}

#[test]
fn key_from_each_source() {
    assert_eq!(Key::from(7u8), Key::U64(7));
    assert_eq!(Key::from(7u16), Key::U64(7));
    assert_eq!(Key::from(7u32), Key::U64(7));
    assert_eq!(Key::from(7u64), Key::U64(7));
    assert_eq!(Key::from(7usize), Key::U64(7));
    assert_eq!(Key::from(-7i8), Key::I64(-7));
    assert_eq!(Key::from(-7i16), Key::I64(-7));
    assert_eq!(Key::from(-7i32), Key::I64(-7));
    assert_eq!(Key::from(-7i64), Key::I64(-7));
    assert_eq!(Key::from(-7isize), Key::I64(-7));
    assert_eq!(Key::from("abc"), Key::Str("abc"));
    assert_eq!(Key::from("abc".to_string()), Key::Str("abc"));
    assert_eq!(Key::from(Rc::new("abc".to_string())), Key::Str("abc"));
    assert_eq!(Key::from(vec![1u8, 2]), Key::Bytes(Rc::new(vec![1, 2])));
    assert_eq!(Key::from(Rc::new(vec![1u8, 2])), Key::Bytes(Rc::new(vec![1, 2])));
    assert_eq!(key(5u32), Key::U64(5));
    assert_eq!(key("k"), Key::Str("k"));
}

#[test]
fn key_slot_is_one_for_equal_keys() {
    let owned = Key::String(Rc::new("name".to_string()));
    let fixed = Key::Str("name");
    assert_eq!(owned.slot(), fixed.slot());
    assert_eq!(fixed.slot(), (2u8, 0i128, vec![110u8, 97, 109, 101]));
    assert_eq!(Key::U64(9).slot(), (0u8, 9i128, vec![]));
    assert_eq!(Key::I64(-9).slot(), (1u8, -9i128, vec![]));
    assert_eq!(Key::Bytes(Rc::new(vec![110, 97])).slot(), (3u8, 0i128, vec![110u8, 97]));
    assert_ne!(Key::U64(9).slot(), Key::I64(9).slot());
    assert_ne!(Key::Bytes(Rc::new(vec![110])).slot(), Key::Str("n").slot());
}

#[test]
fn key_clone_is_the_same_key() {
    let keys = vec![
        Key::U64(3),
        Key::I64(-3),
        Key::String(Rc::new("x".to_string())),
        Key::Str("y"),
        Key::Bytes(Rc::new(vec![1, 2, 3])),
    ];
    for k in keys.iter() {
        let copy = k.clone();
        assert_eq!(&copy, k);
        assert_eq!(copy.to_string(), k.to_string());
    }
}

#[test]
fn equal_keys_hash_alike() {
    let mut seen: HashSet<Key> = HashSet::new();
    assert!(seen.insert(Key::String(Rc::new("name".to_string()))));
    assert!(seen.contains(&Key::Str("name")));
    assert!(!seen.insert(Key::Str("name")));
    assert!(seen.insert(Key::U64(1)));
    assert!(seen.insert(Key::I64(1)));
    assert!(seen.insert(Key::Bytes(Rc::new(vec![110, 97, 109, 101]))));
    assert!(!seen.insert(Key::U64(1)));
    assert_eq!(seen.len(), 4);
}
