use mbimap::MbiMap;
use std::collections::HashSet;

fn set_of<T: std::hash::Hash + Eq + Clone>(items: &[T]) -> HashSet<T> {
    items.iter().cloned().collect()
}

#[test]
fn new_map_has_no_relations() {
    let m: MbiMap<u32, u32> = MbiMap::new();
    assert!(m.get_by_left(&1).is_empty());
    assert!(m.get_by_right(&1).is_empty());
}

#[test]
fn insert_is_visible_from_both_sides() {
    let mut m = MbiMap::new();
    m.insert(1u32, 'a');
    assert_eq!(m.get_by_left(&1), &set_of(&['a']));
    assert_eq!(m.get_by_right(&'a'), &set_of(&[1u32]));
    assert!(m.get_by_left(&2).is_empty());
    assert!(m.get_by_right(&'b').is_empty());
}

#[test]
fn lookups_from_both_sides_agree() {
    let mut m = MbiMap::new();
    let pairs = [(1u8, 10u8), (1, 11), (2, 11), (3, 12), (3, 10), (4, 13)];
    for (l, r) in pairs {
        m.insert(l, r);
    }
    m.remove(&3, &10);
    m.remove_all_by_left(&2);
    for l in 0u8..6 {
        for r in 8u8..15 {
            assert_eq!(m.get_by_left(&l).contains(&r), m.get_by_right(&r).contains(&l));
        }
    }
    assert!(m.get_by_left(&1).contains(&11));
    assert!(!m.get_by_left(&2).contains(&11));
    assert!(!m.get_by_right(&10).contains(&3));
}

#[test]
fn insert_then_remove_restores_lookups() {
    let mut m = MbiMap::new();
    m.insert(1u32, 10u32);
    m.insert(2, 10);
    let left_before = m.get_by_left(&1).clone();
    let right_before = m.get_by_right(&11).clone();
    m.insert(1, 11);
    assert_eq!(m.get_by_left(&1), &set_of(&[10, 11]));
    m.remove(&1, &11);
    assert_eq!(m.get_by_left(&1), &left_before);
    assert_eq!(m.get_by_right(&11), &right_before);
    assert_eq!(m.get_by_left(&2), &set_of(&[10]));
    assert_eq!(m.get_by_right(&10), &set_of(&[1, 2]));
}

#[test]
fn insert_then_remove_leaves_empty_entries() {
    let mut m = MbiMap::new();
    m.insert(1u32, 10u32);
    m.remove(&1, &10);
    assert!(m.get_by_left(&1).is_empty());
    assert!(m.get_by_right(&10).is_empty());
    assert_eq!(m.remove_all_by_left(&1), Some(HashSet::new()));
    assert_eq!(m.remove_all_by_right(&10), Some(HashSet::new()));
    assert_eq!(m.remove_all_by_left(&1), None);
    assert_eq!(m.remove_all_by_right(&10), None);
}

#[test]
fn insert_twice_is_insert_once() {
    let mut once = MbiMap::new();
    once.insert("l", "r");
    let mut twice = MbiMap::new();
    twice.insert("l", "r");
    twice.insert("l", "r");
    assert_eq!(twice.get_by_left(&"l"), once.get_by_left(&"l"));
    assert_eq!(twice.get_by_right(&"r"), once.get_by_right(&"r"));
    assert_eq!(twice.get_by_left(&"l").len(), 1);
    assert_eq!(twice.get_by_right(&"r").len(), 1);
}

#[test]
fn removing_an_absent_pair_changes_nothing() {
    let mut m = MbiMap::new();
    m.insert(1u32, 10u32);
    m.insert(2, 11);
    m.remove(&1, &11);
    m.remove(&3, &10);
    m.remove(&3, &12);
    assert_eq!(m.get_by_left(&1), &set_of(&[10]));
    assert_eq!(m.get_by_left(&2), &set_of(&[11]));
    assert_eq!(m.get_by_right(&10), &set_of(&[1]));
    assert_eq!(m.get_by_right(&11), &set_of(&[2]));
    assert!(m.get_by_left(&3).is_empty());
    assert!(m.get_by_right(&12).is_empty());
    assert_eq!(m.remove_all_by_left(&3), None);
    assert_eq!(m.remove_all_by_right(&12), None);
}

#[test]
fn remove_strikes_the_pair_from_both_sides() {
    let mut m = MbiMap::new();
    m.insert(1u32, 10u32);
    m.insert(1, 11);
    m.insert(2, 10);
    m.remove(&1, &10);
    assert_eq!(m.get_by_left(&1), &set_of(&[11]));
    assert_eq!(m.get_by_right(&10), &set_of(&[2]));
    assert_eq!(m.get_by_left(&2), &set_of(&[10]));
    assert_eq!(m.get_by_right(&11), &set_of(&[1]));
}

#[test]
fn batch_insert_by_left_matches_single_inserts() {
    let mut batch = MbiMap::new();
    batch.insert(9u32, 1u32);
    batch.insert_by_left(7, vec![1, 2, 3]);
    let mut single = MbiMap::new();
    single.insert(9, 1);
    single.insert(7, 1);
    single.insert(7, 2);
    single.insert(7, 3);
    for l in 0u32..12 {
        assert_eq!(batch.get_by_left(&l), single.get_by_left(&l));
    }
    for r in 0u32..6 {
        assert_eq!(batch.get_by_right(&r), single.get_by_right(&r));
    }
    assert_eq!(batch.get_by_left(&7), &set_of(&[1, 2, 3]));
    assert_eq!(batch.get_by_right(&1), &set_of(&[7, 9]));
    assert_eq!(batch.get_by_right(&2), &set_of(&[7]));
}

#[test]
fn batch_insert_by_right_matches_single_inserts() {
    let mut batch = MbiMap::new();
    batch.insert(1u32, 9u32);
    batch.insert_by_right(vec![1, 2, 3], 7);
    let mut single = MbiMap::new();
    single.insert(1, 9);
    single.insert(1, 7);
    single.insert(2, 7);
    single.insert(3, 7);
    for l in 0u32..6 {
        assert_eq!(batch.get_by_left(&l), single.get_by_left(&l));
    }
    for r in 0u32..12 {
        assert_eq!(batch.get_by_right(&r), single.get_by_right(&r));
    }
    assert_eq!(batch.get_by_right(&7), &set_of(&[1, 2, 3]));
    assert_eq!(batch.get_by_left(&1), &set_of(&[7, 9]));
    assert_eq!(batch.get_by_left(&3), &set_of(&[7]));
}

#[test]
fn batch_insert_ignores_duplicates() {
    let mut m = MbiMap::new();
    m.insert_by_left('k', vec![1u8, 2, 1, 2, 2]);
    assert_eq!(m.get_by_left(&'k'), &set_of(&[1, 2]));
    assert_eq!(m.get_by_right(&1), &set_of(&['k']));
    assert_eq!(m.get_by_right(&2), &set_of(&['k']));
    m.insert_by_right(vec!['a', 'a', 'k'], 2);
    assert_eq!(m.get_by_right(&2), &set_of(&['a', 'k']));
    assert_eq!(m.get_by_left(&'a'), &set_of(&[2]));
    assert_eq!(m.get_by_left(&'k'), &set_of(&[1, 2]));
}

#[test]
fn empty_batch_insert_relates_nothing() {
    let mut m = MbiMap::new();
    m.insert(1u32, 10u32);
    m.insert_by_left(1, Vec::new());
    m.insert_by_left(2, Vec::new());
    m.insert_by_right(Vec::new(), 10);
    m.insert_by_right(Vec::new(), 11);
    assert_eq!(m.get_by_left(&1), &set_of(&[10]));
    assert_eq!(m.get_by_right(&10), &set_of(&[1]));
    assert!(m.get_by_left(&2).is_empty());
    assert!(m.get_by_right(&11).is_empty());
}

#[test]
fn empty_batch_insert_creates_the_entry() {
    let mut m: MbiMap<u32, u32> = MbiMap::new();
    m.insert_by_left(2, Vec::new());
    m.insert_by_right(Vec::new(), 11);
    assert_eq!(m.remove_all_by_left(&2), Some(HashSet::new()));
    assert_eq!(m.remove_all_by_right(&11), Some(HashSet::new()));
    assert_eq!(m.remove_all_by_left(&2), None);
}

#[test]
fn batch_remove_by_left_strikes_only_related_pairs() {
    let mut m = MbiMap::new();
    m.insert_by_left(1u32, vec![10u32, 11, 12]);
    m.insert_by_left(2, vec![10, 11]);
    m.remove_by_left(&1, &vec![10, 12, 13, 10]);
    assert_eq!(m.get_by_left(&1), &set_of(&[11]));
    assert_eq!(m.get_by_left(&2), &set_of(&[10, 11]));
    assert_eq!(m.get_by_right(&10), &set_of(&[2]));
    assert_eq!(m.get_by_right(&11), &set_of(&[1, 2]));
    assert!(m.get_by_right(&12).is_empty());
    assert!(m.get_by_right(&13).is_empty());
    m.remove_by_left(&1, &Vec::new());
    m.remove_by_left(&5, &vec![10, 11]);
    assert_eq!(m.get_by_left(&1), &set_of(&[11]));
    assert_eq!(m.get_by_right(&10), &set_of(&[2]));
}

#[test]
fn batch_remove_by_right_strikes_only_related_pairs() {
    let mut m = MbiMap::new();
    m.insert_by_right(vec![1u32, 2, 3], 10u32);
    m.insert_by_right(vec![1, 2], 11);
    m.remove_by_right(&vec![1, 3, 4, 1], &10);
    assert_eq!(m.get_by_right(&10), &set_of(&[2]));
    assert_eq!(m.get_by_right(&11), &set_of(&[1, 2]));
    assert_eq!(m.get_by_left(&1), &set_of(&[11]));
    assert_eq!(m.get_by_left(&2), &set_of(&[10, 11]));
    assert!(m.get_by_left(&3).is_empty());
    assert!(m.get_by_left(&4).is_empty());
    m.remove_by_right(&Vec::new(), &10);
    m.remove_by_right(&vec![1, 2], &15);
    assert_eq!(m.get_by_right(&10), &set_of(&[2]));
    assert_eq!(m.get_by_left(&1), &set_of(&[11]));
}

#[test]
fn batch_remove_matches_single_removes() {
    let mut batch = MbiMap::new();
    let mut single = MbiMap::new();
    for m in [&mut batch, &mut single] {
        m.insert_by_left(1u32, vec![10u32, 11, 12, 13]);
        m.insert_by_left(2, vec![10, 13]);
    }
    batch.remove_by_left(&1, &vec![10, 13, 14]);
    single.remove(&1, &10);
    single.remove(&1, &13);
    single.remove(&1, &14);
    for l in 0u32..4 {
        assert_eq!(batch.get_by_left(&l), single.get_by_left(&l));
    }
    for r in 9u32..16 {
        assert_eq!(batch.get_by_right(&r), single.get_by_right(&r));
    }
    assert_eq!(batch.get_by_left(&1), &set_of(&[11, 12]));
}

#[test]
fn remove_all_by_left_removes_every_trace() {
    let mut m = MbiMap::new();
    m.insert_by_left(1u32, vec![10u32, 11, 12]);
    m.insert_by_left(2, vec![11, 12]);
    let removed = m.remove_all_by_left(&1);
    assert_eq!(removed, Some(set_of(&[10, 11, 12])));
    assert!(m.get_by_left(&1).is_empty());
    for r in 0u32..20 {
        assert!(!m.get_by_right(&r).contains(&1));
    }
    assert!(m.get_by_right(&10).is_empty());
    assert_eq!(m.get_by_right(&11), &set_of(&[2]));
    assert_eq!(m.get_by_right(&12), &set_of(&[2]));
    assert_eq!(m.get_by_left(&2), &set_of(&[11, 12]));
    assert_eq!(m.remove_all_by_left(&1), None);
}

#[test]
fn remove_all_by_right_removes_every_trace() {
    let mut m = MbiMap::new();
    m.insert_by_right(vec![1u32, 2, 3], 10u32);
    m.insert_by_right(vec![2, 3], 11);
    let removed = m.remove_all_by_right(&10);
    assert_eq!(removed, Some(set_of(&[1, 2, 3])));
    assert!(m.get_by_right(&10).is_empty());
    for l in 0u32..20 {
        assert!(!m.get_by_left(&l).contains(&10));
    }
    assert!(m.get_by_left(&1).is_empty());
    assert_eq!(m.get_by_left(&2), &set_of(&[11]));
    assert_eq!(m.get_by_left(&3), &set_of(&[11]));
    assert_eq!(m.get_by_right(&11), &set_of(&[2, 3]));
    assert_eq!(m.remove_all_by_right(&10), None);
}

#[test]
fn remove_all_of_an_unknown_key_is_absent() {
    let mut m = MbiMap::new();
    m.insert(1u32, 10u32);
    assert_eq!(m.remove_all_by_left(&2), None);
    assert_eq!(m.remove_all_by_right(&11), None);
    assert_eq!(m.get_by_left(&1), &set_of(&[10]));
    assert_eq!(m.get_by_right(&10), &set_of(&[1]));
}

#[test]
fn clear_empties_every_lookup() {
    let mut m = MbiMap::new();
    m.insert_by_left(1u32, vec![10u32, 11]);
    m.insert_by_right(vec![2, 3], 12);
    m.remove(&1, &10);
    m.remove_all_by_left(&3);
    m.clear();
    for l in 0u32..5 {
        assert!(m.get_by_left(&l).is_empty());
    }
    for r in 9u32..14 {
        assert!(m.get_by_right(&r).is_empty());
    }
    assert_eq!(m.remove_all_by_left(&1), None);
    assert_eq!(m.remove_all_by_right(&12), None);
    m.insert(1, 10);
    assert_eq!(m.get_by_left(&1), &set_of(&[10]));
    assert_eq!(m.get_by_right(&10), &set_of(&[1]));
}

#[test]
fn owned_string_keys_are_stored_on_both_sides() {
    let mut m: MbiMap<String, String> = MbiMap::new();
    m.insert(String::from("left"), String::from("right"));
    m.insert_by_left(String::from("left"), vec![String::from("other")]);
    assert_eq!(
        m.get_by_left(&String::from("left")),
        &set_of(&[String::from("right"), String::from("other")])
    );
    assert_eq!(m.get_by_right(&String::from("other")), &set_of(&[String::from("left")]));
    m.remove(&String::from("left"), &String::from("right"));
    assert!(m.get_by_right(&String::from("right")).is_empty());
}

#[test]
fn debug_rendering_shows_the_forward_index() {
    let mut m = MbiMap::new();
    m.insert(41u32, 97u32);
    let text = format!("{:?}", m);
    assert!(text.contains("41"));
    assert!(text.contains("97"));
}
