use rlu::{Event, Trie};

#[test]
fn part2_test_event() {
    let event1 = Event::new("Pac-12 Championship".into(), 12, 1, 2017);
    let mut event2 = Event::new("Group Project Meeting".into(), 12, 1, 2017);
    assert!(event1.has_conflict(&event2));

    event2.update_event();
    assert_eq!(event2.day, 2);
}

#[test]
fn part2_test_trie() {
    let trie = Trie::new(vec!["b", "ab"]);
    assert_eq!(trie.contains("ab"), true);
    assert_eq!(trie.contains("ac"), false);
    assert_eq!(trie.contains("a"), false);
    assert_eq!(trie.contains("b"), true);
}

#[test]
fn event_dates_differ() {
    let a = Event::new("a".into(), 3, 4, 2020);
    let b = Event::new("b".into(), 3, 4, 2021);
    assert!(!a.has_conflict(&b));
    assert_eq!(a.name, "a");
}

#[test]
fn trie_edges() {
    let empty = Trie::new(vec![]);
    assert!(!empty.contains(""));
    assert!(!empty.contains("a"));
    let t = Trie::new(vec!["", "abc", "abd", "ab", "é"]);
    assert!(t.contains(""));
    assert!(t.contains("ab"));
    assert!(t.contains("abd"));
    assert!(t.contains("é"));
    assert!(!t.contains("a"));
    assert!(!t.contains("abcd"));
    assert_eq!(t.children.len(), 2);
}
