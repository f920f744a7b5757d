use futurelab::event::Event;
use futurelab::trie::Trie;

#[test]
fn test_event() {
    let event1 = Event::new("Pac-12 Championship".into(), 12, 1, 2017);
    let mut event2 = Event::new("Group Project Meeting".into(), 12, 1, 2017);
    assert!(event1.has_conflict(&event2));

    event2.update_event();
    assert_eq!(event2.day, 2);
}

#[test]
fn test_trie() {
    let trie = Trie::new(vec!["b", "ab"]);
    assert_eq!(trie.contains("ab"), true);
    assert_eq!(trie.contains("ac"), false);
    assert_eq!(trie.contains("a"), false);
    assert_eq!(trie.contains("b"), true);
}

#[test]
fn conflicts_are_mutual_and_reflexive() {
    let a = Event::new("A".into(), 3, 14, 2020);
    let b = Event::new("B".into(), 3, 14, 2020);
    let c = Event::new("C".into(), 3, 14, 2021);
    assert!(a.has_conflict(&a));
    assert!(a.has_conflict(&b) && b.has_conflict(&a));
    assert!(!a.has_conflict(&c) && !c.has_conflict(&a));
}

#[test]
fn shifted_event_leaves_its_date() {
    let before = Event::new("Meeting".into(), 5, 9, 2019);
    let mut after = before.clone();
    after.update_event();
    assert_eq!(after.day, 10);
    assert_eq!(after.month, 5);
    assert_eq!(after.year, 2019);
    assert_eq!(after.name, "Meeting");
    assert!(!after.has_conflict(&before));
}

#[test]
fn trie_of_documented_example() {
    let trie = Trie::new(vec!["a", "cc", "ab"]);
    assert!(trie.contains("a"));
    assert!(trie.contains("cc"));
    assert!(trie.contains("ab"));
    assert!(!trie.contains("c"));
    assert!(!trie.contains("abc"));
    assert!(!trie.contains("b"));
    assert!(!trie.contains(""));
}

#[test]
fn trie_does_not_store_the_empty_string() {
    let trie = Trie::new(vec!["", "x"]);
    assert!(!trie.contains(""));
    assert!(trie.contains("x"));
    let empty = Trie::new(vec![]);
    assert!(!empty.contains(""));
    assert!(!empty.contains("x"));
}

#[test]
fn trie_with_shared_prefixes_and_unicode() {
    let trie = Trie::new(vec!["über", "übel", "üb", "ü"]);
    for w in ["über", "übel", "üb", "ü"] {
        assert!(trie.contains(w));
    }
    assert!(!trie.contains("übe"));
    assert!(!trie.contains("u"));
    let twice = Trie::new(vec!["dup", "dup"]);
    assert!(twice.contains("dup"));
    assert!(!twice.contains("du"));
}

#[test]
fn trie_has_the_documented_shape() {
    let trie = Trie::new(vec!["a", "cc", "ab"]);
    assert_eq!(
        format!("{:?}", trie),
        "Trie { chr: '\\0', has: false, children: [\
         Trie { chr: 'a', has: true, children: [Trie { chr: 'b', has: true, children: [] }] }, \
         Trie { chr: 'c', has: false, children: [Trie { chr: 'c', has: true, children: [] }] }] }"
    );
}

#[test]
fn trie_children_in_order_of_first_appearance() {
    let trie = Trie::new(vec!["zx", "a", "zb"]);
    assert_eq!(
        format!("{:?}", trie),
        "Trie { chr: '\\0', has: false, children: [\
         Trie { chr: 'z', has: false, children: [Trie { chr: 'x', has: true, children: [] }, \
         Trie { chr: 'b', has: true, children: [] }] }, \
         Trie { chr: 'a', has: true, children: [] }] }"
    );
}

#[test]
fn trie_repeated_string_changes_nothing() {
    assert!(Trie::new(vec!["a", "cc", "ab", "cc"]) == Trie::new(vec!["a", "cc", "ab"]));
    assert!(Trie::new(vec!["a", "", "a"]) == Trie::new(vec!["a"]));
    assert!(Trie::new(vec!["b", "a"]) != Trie::new(vec!["a", "b"]));
}

#[test]
fn trie_clone_is_equal() {
    let t = Trie::new(vec!["a", "cc", "ab"]);
    let c = t.clone();
    assert_eq!(c, t);
    assert!(c.contains("ab"));
    assert!(!c.contains("c"));
}
