use recalc::text::{side_of, Side};
use recalc::{CellMap, CellSet, Key, TextMap, TextSet};

const CORNERS: [Key; 6] = [
    (0, i32::MIN, i32::MIN),
    (0, i32::MIN, i32::MAX),
    (0, i32::MAX, i32::MIN),
    (0, 0, -1),
    (u32::MAX, i32::MIN, i32::MIN),
    (u32::MAX, i32::MAX, i32::MAX),
];

#[test]
fn every_address_keeps_its_own_value() {
    let mut map: CellMap<usize> = CellMap::new();
    for (i, k) in CORNERS.iter().enumerate() {
        assert!(!map.contains_key(*k));
        map.insert(*k, i);
    }
    assert_eq!(map.len(), CORNERS.len());
    for (i, k) in CORNERS.iter().enumerate() {
        assert_eq!(map.get(*k), Some(&i));
    }
    let mut keys = map.keys();
    keys.sort();
    let mut expected = CORNERS.to_vec();
    expected.sort();
    assert_eq!(keys, expected);
    map.insert(CORNERS[0], 77);
    assert_eq!(map.remove(CORNERS[0]), Some(77));
    assert_eq!(map.remove(CORNERS[0]), None);
    assert_eq!(map.len(), CORNERS.len() - 1);
}

#[test]
fn a_set_holds_each_address_once() {
    let mut set = CellSet::new();
    for k in CORNERS {
        assert!(set.insert(k));
        assert!(!set.insert(k));
    }
    assert_eq!(set.len(), CORNERS.len());
    let mut keys = set.to_vec();
    keys.sort();
    let mut expected = CORNERS.to_vec();
    expected.sort();
    assert_eq!(keys, expected);
    assert!(set.remove(CORNERS[3]));
    assert!(!set.remove(CORNERS[3]));
    assert!(!set.contains(CORNERS[3]));
    assert!(set.contains(CORNERS[4]));
}

#[test]
fn texts_are_ordered_by_code_point() {
    let words = ["", "a", "aa", "ab", "b", "Z", "é", "\u{ffff}", "\u{10000}", "\u{1}", "a\u{1}"];
    for a in words {
        for b in words {
            let side = side_of(a, b);
            assert_eq!(side == Side::Before, a < b);
            assert_eq!(side == Side::Same, a == b);
            assert_eq!(side == Side::After, a > b);
        }
    }
}

#[test]
fn a_text_map_keeps_its_keys_sorted() {
    let mut map: TextMap<u32> = TextMap::new();
    for (i, key) in ["m", "c", "x", "a", "c", "z", "b"].iter().enumerate() {
        map.insert(key, i as u32);
    }
    let keys: Vec<String> = (0..map.len()).map(|i| map.key_at(i).clone()).collect();
    assert_eq!(keys, vec!["a", "b", "c", "m", "x", "z"]);
    assert_eq!(map.get("c"), Some(&4));
    assert_eq!(*map.value_at(2), 4);
    assert_eq!(map.get("d"), None);
    assert_eq!(map.remove("m"), Some(0));
    assert_eq!(map.remove("m"), None);
    let mut other = 9;
    map.swap_at(0, &mut other);
    assert_eq!((other, map.get("a")), (3, Some(&9)));
    assert_eq!(map.len(), 5);
    map.clear();
    assert_eq!(map.len(), 0);
    assert!(!map.contains_key("a"));
}

#[test]
fn a_text_set_lists_its_members_in_order() {
    let mut set = TextSet::new();
    for key in ["q", "b", "q", "a"] {
        set.insert(key);
    }
    assert_eq!(set.to_vec(), vec!["a", "b", "q"]);
    assert!(set.contains("b"));
    set.remove("b");
    set.remove("missing");
    assert_eq!(set.to_vec(), vec!["a", "q"]);
}
