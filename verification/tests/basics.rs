use std::collections::{BTreeSet, HashMap, HashSet};

use ningshi::number::{parse_i32, parse_u32, u32_text};
use ningshi::table::{str_less, StrMap, StrSet};
use ningshi::text::{contains_part, head_before, split_lines, split_once, split_words, strip_prefix, trim};
use ningshi::uids::{map_keys, ordered_items, retain_keys, set_items};

#[test]
fn numbers_are_read_and_written() {
    assert_eq!(parse_u32("0"), Some(0));
    assert_eq!(parse_u32("+12"), Some(12));
    assert_eq!(parse_u32("4294967295"), Some(u32::MAX));
    assert_eq!(parse_u32("4294967296"), None);
    assert_eq!(parse_u32("-1"), None);
    assert_eq!(parse_u32(""), None);
    assert_eq!(parse_u32("+"), None);
    assert_eq!(parse_i32("-2147483648"), Some(i32::MIN));
    assert_eq!(parse_i32("2147483648"), None);
    assert_eq!(parse_i32("-"), None);
    for n in [0u32, 7, 10, 1010235, u32::MAX] {
        assert_eq!(u32_text(n), n.to_string());
        assert_eq!(parse_u32(&u32_text(n)), Some(n));
    }
}

#[test]
fn text_is_cut_where_std_cuts_it() {
    for s in ["", " ", " a b ", "a\tb\nc", "\u{3000}x\u{a0}", "一 二"] {
        assert_eq!(trim(s), s.trim());
        assert_eq!(split_words(s), s.split_whitespace().collect::<Vec<_>>());
    }
    for s in ["a:b:c", ":", "abc", ""] {
        assert_eq!(split_once(s, ':'), s.split_once(':').map(|(a, b)| (a.to_string(), b.to_string())));
        assert_eq!(head_before(s, ':'), s.split(':').next().unwrap());
    }
    assert_eq!(strip_prefix("UTC+8", "UTC").as_deref(), Some("+8"));
    assert_eq!(strip_prefix("UT", "UTC"), None);
    assert!(contains_part("card0-Virtual-1", "Virtual"));
    assert!(!contains_part("Virtua", "Virtual"));
    assert_eq!(split_lines("a\nb").len(), 2);
}

#[test]
fn string_maps_keep_their_keys_in_order() {
    let mut m: StrMap<u32> = StrMap::new();
    for (k, v) in [("b", 2), ("a", 1), ("c", 3), ("b", 4)] {
        m.insert(k.to_string(), v);
    }
    assert_eq!(m.len(), 3);
    let keys: Vec<&str> = (0..m.len()).map(|i| m.key_at(i).as_str()).collect();
    assert_eq!(keys, vec!["a", "b", "c"]);
    assert_eq!(m.get("b"), Some(&4));
    m.remove("a");
    assert!(!m.contains_key("a"));
    let c = m.copied();
    m.clear();
    assert_eq!(m.len(), 0);
    assert_eq!(c.get("c"), Some(&3));
}

#[test]
fn string_sets_hold_each_once() {
    let mut s = StrSet::new();
    assert!(s.insert("x".to_string()));
    assert!(s.insert("a".to_string()));
    assert!(!s.insert("x".to_string()));
    assert_eq!(s.to_vec(), vec!["a", "x"]);
    assert!(s.contains("a") && !s.contains("b"));
    assert!(str_less("a", "ab") && str_less("B", "a") && !str_less("a", "a"));
}

#[test]
fn collections_of_uids_are_listed() {
    let mut m: HashMap<u32, u64> = HashMap::new();
    m.insert(3, 1);
    m.insert(1, 2);
    let mut ks = map_keys(&m);
    ks.sort();
    assert_eq!(ks, vec![1, 3]);
    let live: HashSet<u32> = [3, 9].into_iter().collect();
    let mut items = set_items(&live);
    items.sort();
    assert_eq!(items, vec![3, 9]);
    retain_keys(&mut m, &live);
    assert_eq!(m.len(), 1);
    let b: BTreeSet<u32> = [9, 2, 5].into_iter().collect();
    assert_eq!(ordered_items(&b), vec![2, 5, 9]);
}
