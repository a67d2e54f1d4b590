use std::rc::Rc;
use vtree::child::IntoMultiEntry;
use vtree::child::Multi;
use vtree::child::MultiBuilder;
use vtree::child::Option as Optional;
use vtree::child::OptionBuilder;
use vtree::child::Single;
use vtree::child::SingleBuilder;
use vtree::key::Key;
use vtree::node::BuilderChild;
use vtree::node::BuilderSetter;

fn list(keys: &[&'static str]) -> Multi<u32> {
    let mut m = Multi::new();
    for (i, k) in keys.iter().enumerate() {
        m.push(Key::Str(k), i as u32);
    }
    m
}

fn keys_of(m: &Multi<u32>) -> Vec<String> {
    m.iter().iter().map(|e| e.0.to_string()).collect()
}

fn apply(order: &[&'static str], swaps: &[(usize, usize)]) -> Vec<&'static str> {
    let mut v: Vec<&'static str> = order.to_vec();
    for s in swaps {
        v.swap(s.0, s.1);
    }
    v
}

#[test]
fn single_holds_its_child() {
    let mut s = Single::new(5u32);
    assert_eq!(*s.get(), 5);
    let prev = s.replace(6);
    assert_eq!(prev, 5);
    assert_eq!(*s.get(), 6);
    *s.get_mut() += 1;
    assert_eq!(*s.get(), 7);
    assert_eq!(s.into_inner(), 7);
}

#[test]
fn optional_holds_a_child_or_none() {
    let some = Optional::new(Some(5u32));
    assert!(some.is_some());
    assert!(!some.is_none());
    assert_eq!(some.get(), Some(&5));
    assert_eq!(some.into_inner(), Some(5));
    let none: Optional<u32> = Optional::new(None);
    assert!(none.is_none());
    assert_eq!(none.get(), None);
    let default: Optional<u32> = Optional::default();
    assert!(default.is_none());
    assert_eq!(default.into_inner(), None);
}

#[test]
fn multi_starts_empty() {
    let m: Multi<u32> = Multi::new();
    assert_eq!(m.len(), 0);
    assert!(m.iter().is_empty());
    assert_eq!(m.get_by_key(&Key::U64(1)), None);
    let sized: Multi<u32> = Multi::with_capacity(16);
    assert_eq!(sized.len(), 0);
    let huge: Multi<u32> = Multi::with_capacity(usize::MAX);
    assert_eq!(huge.len(), 0);
}

#[test]
fn multi_keeps_insertion_order() {
    let mut m: Multi<u32> = Multi::new();
    m.push(Key::U64(30), 1);
    m.push(Key::Str("b"), 2);
    m.push(Key::I64(-1), 3);
    m.push(Key::Bytes(Rc::new(vec![1])), 4);
    assert_eq!(m.len(), 4);
    assert_eq!(keys_of(&m), vec!["u30", "sb", "i-1", "0x01"]);
    let nodes: Vec<u32> = m.iter().iter().map(|e| *e.1).collect();
    assert_eq!(nodes, vec![1, 2, 3, 4]);
    assert_eq!(keys_of(&m), vec!["u30", "sb", "i-1", "0x01"]);
    assert_eq!(m.get_index(1).map(|e| (e.0.to_string(), *e.1)), Some(("sb".to_string(), 2)));
    assert!(m.get_index(4).is_none());
}

#[test]
fn multi_changes_a_child_in_place() {
    let mut m = list(&["a", "b", "c"]);
    *m.node_mut(1) = 50;
    *m.node_mut(2) += 5;
    assert_eq!(keys_of(&m), vec!["sa", "sb", "sc"]);
    assert_eq!(m.get_by_key(&Key::Str("a")), Some(&0));
    assert_eq!(m.get_by_key(&Key::Str("b")), Some(&50));
    assert_eq!(m.get_by_key(&Key::Str("c")), Some(&7));
    assert_eq!(m.position(&Key::Str("b")), Some(1));
}

#[test]
fn multi_clone_holds_the_same_children() {
    let mut m = list(&["a", "b", "c"]);
    let copy = m.clone();
    assert!(copy.is_well_formed());
    assert_eq!(keys_of(&copy), vec!["sa", "sb", "sc"]);
    assert_eq!(copy.get_by_key(&Key::Str("b")), Some(&1));
    assert_eq!(copy.position(&Key::Str("c")), Some(2));
    m.push(Key::Str("d"), 3);
    assert_eq!(copy.len(), 3);
    assert_eq!(copy.get_by_key(&Key::Str("d")), None);
    assert_eq!(m.len(), 4);
    let mut grown = copy.clone();
    grown.push(Key::Str("e"), 4);
    assert_eq!(keys_of(&grown), vec!["sa", "sb", "sc", "se"]);
}

#[test]
fn multi_finds_children_by_key() {
    let mut m: Multi<u32> = Multi::new();
    for i in 0..200u64 {
        m.push(Key::U64(i), (i * 2) as u32);
    }
    m.push(Key::Str("name"), 1000);
    let order: Vec<String> = (0..200u64).map(|i| format!("u{}", i)).collect();
    assert_eq!(keys_of(&m)[..200], order[..]);
    assert_eq!(m.iter().len(), 201);
    for i in 0..200u64 {
        assert_eq!(m.get_by_key(&Key::U64(i)), Some(&((i * 2) as u32)));
        assert_eq!(m.position(&Key::U64(i)), Some(i as usize));
    }
    assert_eq!(m.get_by_key(&Key::U64(200)), None);
    assert_eq!(m.get_by_key(&Key::I64(5)), None);
    assert_eq!(m.get_by_key(&Key::String(Rc::new("name".to_string()))), Some(&1000));
    assert_eq!(m.position(&Key::Str("name")), Some(200));
    assert!(m.contains_key(&Key::Str("name")));
    assert!(!m.contains_key(&Key::Str("other")));
}

#[test]
fn multi_refuses_a_key_twice() {
    let mut m: Multi<u32> = Multi::new();
    assert!(m.try_push(Key::Str("a"), 1).is_ok());
    assert!(m.try_push(Key::Str("b"), 2).is_ok());
    let back = m.try_push(Key::String(Rc::new("a".to_string())), 3);
    match back {
        Err((k, n)) => {
            assert_eq!(k, Key::Str("a"));
            assert_eq!(n, 3);
        },
        Ok(_) => panic!("a second child under one key was accepted"),
    }
    assert_eq!(m.len(), 2);
    assert_eq!(keys_of(&m), vec!["sa", "sb"]);
    assert_eq!(m.get_by_key(&Key::Str("a")), Some(&1));
    assert!(m.try_push(Key::Str("b"), 4).is_err());
    assert_eq!(m.len(), 2);
    assert!(m.try_push(Key::Str("c"), 5).is_ok());
    assert_eq!(keys_of(&m), vec!["sa", "sb", "sc"]);
}

#[test]
fn multi_from_entries() {
    let built = Multi::try_from_entries(vec![(Key::U64(1), 10u32), (Key::U64(2), 20), (Key::U64(3), 30)]);
    match built {
        Ok(m) => {
            assert_eq!(keys_of(&m), vec!["u1", "u2", "u3"]);
            assert_eq!(m.get_by_key(&Key::U64(2)), Some(&20));
        },
        Err(_) => panic!("distinct keys were refused"),
    }
    let twice = Multi::try_from_entries(vec![(Key::U64(1), 10u32), (Key::U64(2), 20), (Key::U64(1), 30)]);
    match twice {
        Ok(_) => panic!("a key was accepted twice"),
        Err((k, n)) => {
            assert_eq!(k, Key::U64(1));
            assert_eq!(n, 30);
        },
    }
    let empty: Result<Multi<u32>, (Key, u32)> = Multi::try_from_entries(vec![]);
    assert!(empty.is_ok());
    assert_eq!((Key::U64(1), 5u32).into_multi_entry(), (Key::U64(1), 5u32));
}

#[test]
fn multi_diff_reports_removed_then_present() {
    let mut last: Multi<&'static str> = Multi::new();
    last.push(Key::Str("k1"), "x");
    last.push(Key::Str("k2"), "y");
    let mut curr: Multi<&'static str> = Multi::new();
    curr.push(Key::Str("k2"), "y");
    curr.push(Key::Str("k3"), "z");
    let records = curr.diff(&last);
    assert_eq!(records.len(), 3);
    assert_eq!(*records[0].0, Key::Str("k1"));
    assert_eq!(records[0].1, None);
    assert_eq!(records[0].2, Some((0, &"x")));
    assert_eq!(*records[1].0, Key::Str("k2"));
    assert_eq!(records[1].1, Some((0, &"y")));
    assert_eq!(records[1].2, Some((1, &"y")));
    assert_eq!(*records[2].0, Key::Str("k3"));
    assert_eq!(records[2].1, Some((1, &"z")));
    assert_eq!(records[2].2, None);
    assert!(curr.diff_reordered(&last).is_empty());
    assert_eq!(curr.len(), 2);
    assert_eq!(last.len(), 2);
}

#[test]
fn multi_diff_of_empty_lists() {
    let a: Multi<u32> = Multi::new();
    let b = list(&["a", "b"]);
    assert!(a.diff(&a).is_empty());
    let gone = a.diff(&b);
    assert_eq!(gone.len(), 2);
    assert_eq!(gone[0].2, Some((0, &0)));
    assert_eq!(gone[1].2, Some((1, &1)));
    assert!(gone[0].1.is_none() && gone[1].1.is_none());
    let added = b.diff(&a);
    assert_eq!(added.len(), 2);
    assert_eq!(added[0].1, Some((0, &0)));
    assert_eq!(added[1].1, Some((1, &1)));
    assert!(added[0].2.is_none() && added[1].2.is_none());
    assert!(a.diff_reordered(&b).is_empty());
    assert!(b.diff_reordered(&a).is_empty());
}

#[test]
fn reorder_of_a_reversal_is_one_exchange() {
    let last = list(&["c", "b", "a"]);
    let curr = list(&["a", "b", "c"]);
    let swaps = curr.diff_reordered(&last);
    assert_eq!(swaps, vec![(0, 2)]);
    assert_eq!(apply(&["c", "b", "a"], &swaps), vec!["a", "b", "c"]);
}

#[test]
fn reorder_of_two_neighbours_is_one_exchange() {
    let last = list(&["a", "b", "c"]);
    let curr = list(&["a", "c", "b"]);
    let swaps = curr.diff_reordered(&last);
    assert_eq!(swaps, vec![(1, 2)]);
    assert_eq!(apply(&["a", "b", "c"], &swaps), vec!["a", "c", "b"]);
}

#[test]
fn reorder_of_a_rotation_takes_two_exchanges() {
    let last = list(&["a", "b", "c"]);
    let curr = list(&["c", "a", "b"]);
    let swaps = curr.diff_reordered(&last);
    assert_eq!(swaps, vec![(0, 2), (2, 1)]);
    assert_eq!(apply(&["a", "b", "c"], &swaps), vec!["c", "a", "b"]);
}

#[test]
fn reorder_of_equal_orders_is_empty() {
    let last = list(&["a", "b", "c", "d"]);
    let curr = list(&["a", "b", "c", "d"]);
    assert!(curr.diff_reordered(&last).is_empty());
    assert!(curr.diff_reordered(&curr).is_empty());
    let one = list(&["a"]);
    assert!(one.diff_reordered(&one).is_empty());
}

#[test]
fn reorder_ignores_added_and_removed_keys() {
    let last = list(&["gone", "a", "b", "c"]);
    let curr = list(&["new", "c", "b", "more", "a"]);
    let swaps = curr.diff_reordered(&last);
    assert_eq!(swaps, vec![(1, 3)]);
    let kept = list(&["x", "a", "y", "b"]);
    let same = list(&["a", "z", "b"]);
    assert!(same.diff_reordered(&kept).is_empty());
}

#[test]
fn reorder_is_unchanged_by_a_new_key() {
    let last = list(&["a", "b", "c", "d"]);
    let mut curr = list(&["d", "a", "c", "b"]);
    let before = curr.diff_reordered(&last);
    curr.push(Key::Str("never seen"), 99);
    let after = curr.diff_reordered(&last);
    assert_eq!(before, after);
    assert_eq!(before, vec![(0, 3), (3, 1)]);
    assert_eq!(apply(&["a", "b", "c", "d"], &before), vec!["d", "a", "c", "b"]);
}

#[test]
fn reorder_of_a_long_list_reconciles() {
    let names: [&'static str; 8] = ["a", "b", "c", "d", "e", "f", "g", "h"];
    let shuffled: [&'static str; 8] = ["h", "c", "a", "g", "b", "f", "e", "d"];
    let last = list(&names);
    let curr = list(&shuffled);
    let swaps = curr.diff_reordered(&last);
    assert_eq!(apply(&names, &swaps), shuffled.to_vec());
    assert!(swaps.len() <= 7);
    let mut named: Vec<usize> = vec![];
    for s in swaps.iter() {
        assert_eq!(shuffled[s.0], names[s.1]);
        assert!(!named.contains(&s.0));
        named.push(s.0);
    }
}

struct Parent {
    single: Option<u32>,
    optional: Option<Option<u32>>,
    many: Vec<String>,
}

impl BuilderSetter<BuilderChild, Single<u32>> for Parent {
    fn builder_set(&mut self, value: Single<u32>) {
        self.single = Some(value.into_inner());
    }
}

impl BuilderSetter<BuilderChild, Optional<u32>> for Parent {
    fn builder_set(&mut self, value: Optional<u32>) {
        self.optional = Some(value.into_inner());
    }
}

impl BuilderSetter<BuilderChild, Multi<u32>> for Parent {
    fn builder_set(&mut self, value: Multi<u32>) {
        self.many = value.iter().iter().map(|e| format!("{}={}", e.0.to_string(), e.1)).collect();
    }
}

fn parent() -> Parent {
    Parent { single: None, optional: None, many: vec![] }
}

#[test]
fn single_builder_sets_the_child_once() {
    let unset: Parent = SingleBuilder::<Parent, u32>::new(parent()).build();
    assert_eq!(unset.single, None);
    let set: Parent = SingleBuilder::<Parent, u32>::new(parent()).add(Key::U64(0), 7).build();
    assert_eq!(set.single, Some(7));
}

#[test]
fn option_builder_sets_the_child_or_none() {
    let unset: Parent = OptionBuilder::<Parent, u32>::new(parent()).build();
    assert_eq!(unset.optional, Some(None));
    let set: Parent = OptionBuilder::<Parent, u32>::new(parent()).add(Key::U64(0), 7).build();
    assert_eq!(set.optional, Some(Some(7)));
}

#[test]
fn multi_builder_collects_children_in_order() {
    let built: Parent = MultiBuilder::<Parent, u32>::new(parent())
        .add(Key::Str("b"), 2)
        .add(Key::Str("a"), 1)
        .add(Key::U64(3), 3)
        .build();
    assert_eq!(built.many, vec!["sb=2", "sa=1", "u3=3"]);
    let empty: Parent = MultiBuilder::<Parent, u32>::new(parent()).build();
    assert!(empty.many.is_empty());
}

#[test]
fn each_exchange_names_one_child() {
    let last = list(&["x", "k1", "k2", "y", "k3"]);
    let curr = list(&["k3", "n", "k1", "k2"]);
    let swaps = curr.diff_reordered(&last);
    assert_eq!(swaps, vec![(0, 4), (3, 2)]);
    for s in swaps.iter() {
        let here = curr.get_index(s.0).map(|e| e.0.to_string());
        let there = last.get_index(s.1).map(|e| e.0.to_string());
        assert_eq!(here, there);
    }
    let numbers = |keys: &[u64]| -> Multi<u32> {
        let mut m = Multi::new();
        for k in keys {
            m.push(Key::U64(*k), 0);
        }
        m
    };
    assert_eq!(numbers(&[3, 1, 2]).diff_reordered(&numbers(&[1, 2, 3])), vec![(0, 2), (2, 1)]);
    assert_eq!(
        numbers(&[2, 1, 4, 3]).diff_reordered(&numbers(&[1, 2, 3, 4])),
        vec![(0, 1), (2, 3)]
    );
}

#[test]
fn multi_from_distinct_entries() {
    let m = Multi::from_entries(vec![(Key::Str("b"), 2u32), (Key::Str("a"), 1), (Key::U64(3), 3)]);
    assert!(m.is_well_formed());
    assert_eq!(keys_of(&m), vec!["sb", "sa", "u3"]);
    assert_eq!(m.get_by_key(&Key::Str("a")), Some(&1));
    let empty: Multi<u32> = Multi::from_entries(vec![]);
    assert_eq!(empty.len(), 0);
    let first = Multi::try_from_entries(vec![
        (Key::U64(1), 10u32),
        (Key::U64(2), 20),
        (Key::U64(2), 30),
        (Key::U64(1), 40),
    ]);
    match first {
        Ok(_) => panic!("a key was accepted twice"),
        Err((k, n)) => {
            assert_eq!(k, Key::U64(2));
            assert_eq!(n, 30);
        },
    }
}
