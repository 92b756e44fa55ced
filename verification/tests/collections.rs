//! Maps and sets in key order, and the order of texts.
use krabka_client_consumer::collections::{SortedMap, SortedSet};
use krabka_client_consumer::text::{compare_texts, decimal_text, join, Relation};

#[test]
fn a_map_keeps_its_keys_in_order() {
    let mut map = SortedMap::new();
    for (topic, partition, value) in [("b", 1, 10), ("a", 2, 20), ("b", 0, 30), ("a", 10, 40)] {
        assert_eq!(map.insert((topic.to_string(), partition), value), None);
    }
    assert_eq!(map.insert(("b".to_string(), 1), 11), Some(10));
    assert_eq!(map.len(), 4);
    let keys: Vec<(String, i32)> = (0..4).map(|i| map.key_at(i).clone()).collect();
    assert_eq!(
        keys,
        vec![
            ("a".to_string(), 2),
            ("a".to_string(), 10),
            ("b".to_string(), 0),
            ("b".to_string(), 1),
        ]
    );
    assert_eq!(map.get(&("b".to_string(), 1)), Some(&11));
    assert_eq!(map.remove(&("a".to_string(), 2)), Some(20));
    assert_eq!(map.remove(&("a".to_string(), 2)), None);
    assert!(!map.contains_key(&("a".to_string(), 2)));
    assert_eq!(map.clone(), map);
    assert_eq!(map.into_entries().len(), 3);
}

#[test]
fn a_set_holds_an_item_once() {
    let mut set = SortedSet::from_items(vec![3, 1, 3]);
    assert_eq!(set.len(), 2);
    assert!(!set.insert(1));
    assert!(set.insert(2));
    assert_eq!(
        (0..3).map(|i| *set.at(i)).collect::<Vec<i32>>(),
        vec![1, 2, 3]
    );
    assert!(set.remove(&2));
    assert!(!set.remove(&2));
    assert!(!set.contains(&2));
    assert!(!set.is_empty());
}

#[test]
fn texts_compare_as_strings_do() {
    let texts = ["", "a", "ab", "b", "é", "z", "日"];
    for a in texts {
        for b in texts {
            let expected = if a < b {
                Relation::Before
            } else if a == b {
                Relation::Same
            } else {
                Relation::After
            };
            assert_eq!(compare_texts(a, b), expected, "{a} {b}");
        }
    }
}

#[test]
fn decimal_texts_are_those_of_the_integers() {
    for n in [0, 7, 10, 905, -1, -120, i64::MAX, i64::MIN] {
        assert_eq!(decimal_text(n), n.to_string());
    }
}

#[test]
fn texts_join_with_a_separator() {
    assert_eq!(join(&vec![], ", "), "");
    assert_eq!(join(&vec!["a".to_string()], ", "), "a");
    assert_eq!(
        join(&vec!["a".to_string(), String::new(), "c".to_string()], ", "),
        "a, , c"
    );
}
