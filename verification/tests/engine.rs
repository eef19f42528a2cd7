use kronos_core::engine::FastPath;
use kronos_core::engine::MatchKind;

#[test]
fn exact_match_after_insert() {
    let mut e = FastPath::new();
    e.insert("alpha beta".to_string(), "Content".to_string());
    let m = e.search("alpha beta".to_string()).unwrap();
    assert_eq!(m.kind, MatchKind::Exact);
    assert_eq!(m.confidence_tenths, 10);
    assert_eq!(m.content, "Content");
}

#[test]
fn normalization_equivalence() {
    let mut e = FastPath::new();
    e.insert(" Foo ".to_string(), "c".to_string());
    let m1 = e.search("foo".to_string()).unwrap();
    let m2 = e.search(" FOO ".to_string()).unwrap();
    assert_eq!(m1.kind, MatchKind::Exact);
    assert_eq!(m2.kind, MatchKind::Exact);
    assert_eq!(m1.confidence_tenths, 10);
    assert_eq!(m2.confidence_tenths, 10);
    assert_eq!(m1.content, "c");
    assert_eq!(m2.content, "c");
}

#[test]
fn overwrite_last_write_wins() {
    let mut e = FastPath::new();
    e.insert("key one".to_string(), "first".to_string());
    e.insert("key one".to_string(), "second".to_string());
    let m = e.search("key one".to_string()).unwrap();
    assert_eq!(m.kind, MatchKind::Exact);
    assert_eq!(m.content, "second");
    assert_eq!(e.size(), 1);
}

#[test]
fn prefix_fallback() {
    let mut e = FastPath::new();
    e.insert("abcdef".to_string(), "abcdef record".to_string());
    let m = e.search("abc".to_string()).unwrap();
    assert_eq!(m.kind, MatchKind::Prefix);
    assert_eq!(m.confidence_tenths, 9);
    assert_eq!(m.content, "abcdef record");
}

#[test]
fn prefix_guard_rejects_content_not_starting_with_query() {
    // The trie path "abc" exists, but the first collected content does not
    // itself begin with the query, so the guard refuses the match.
    let mut e = FastPath::new();
    e.insert("abcdef".to_string(), "X".to_string());
    assert!(e.search("abc".to_string()).is_none());
}

#[test]
fn no_false_prefix_hit() {
    let mut e = FastPath::new();
    e.insert("xyz123".to_string(), "Y".to_string());
    assert!(e.search("ab".to_string()).is_none());
}

#[test]
fn reset_clears_everything() {
    let mut e = FastPath::new();
    e.insert("one key".to_string(), "one key content".to_string());
    e.insert("two".to_string(), "two content".to_string());
    assert_eq!(e.size(), 2);
    assert!(e.search("one key".to_string()).is_some());
    e.clear();
    assert_eq!(e.size(), 0);
    assert!(e.search("one key".to_string()).is_none());
    assert!(e.search("two".to_string()).is_none());
    assert!(e.search("one".to_string()).is_none());
}

#[test]
fn short_query_guard() {
    let mut e = FastPath::new();
    e.insert("abcd".to_string(), "abcd content".to_string());
    // "ab" spells an existing trie path, but the query is too short for the
    // prefix search and is not a stored key.
    assert!(e.search("ab".to_string()).is_none());
    // An exact key of length under three is still found.
    e.insert("ab".to_string(), "short".to_string());
    let m = e.search("ab".to_string()).unwrap();
    assert_eq!(m.kind, MatchKind::Exact);
    assert_eq!(m.content, "short");
}

#[test]
fn empty_key_is_ordinary_data() {
    let mut e = FastPath::new();
    e.insert("".to_string(), "empty content".to_string());
    let m = e.search("".to_string()).unwrap();
    assert_eq!(m.kind, MatchKind::Exact);
    assert_eq!(m.content, "empty content");
    assert_eq!(e.size(), 1);
    let m2 = e.search("   ".to_string()).unwrap();
    assert_eq!(m2.content, "empty content");
}

#[test]
fn token_indexing_covers_first_three_words() {
    let mut e = FastPath::new();
    e.insert("world peace".to_string(), "world peace summit".to_string());
    let m = e.search("wor".to_string()).unwrap();
    assert_eq!(m.kind, MatchKind::Prefix);
    assert_eq!(m.confidence_tenths, 9);
    assert_eq!(m.content, "world peace summit");
}

#[test]
fn fourth_word_is_not_indexed() {
    let mut e = FastPath::new();
    e.insert("aa bbbb cccc dddd".to_string(), "bbbb et al".to_string());
    // "bbbb" is among the first three words and longer than two characters.
    let m = e.search("bbb".to_string()).unwrap();
    assert_eq!(m.kind, MatchKind::Prefix);
    assert_eq!(m.content, "bbbb et al");
    // "dddd" is the fourth word: never fed to the trie.
    assert!(e.search("ddd".to_string()).is_none());
    // "aa" consumed one of the three slots but was too short to index.
    assert!(e.search("aa ".to_string()).is_none());
}

#[test]
fn long_key_with_at_sign_is_whole_key_indexed() {
    let prefix_a = "a".repeat(46);
    let key = format!("{} b@x", prefix_a);
    assert_eq!(key.len(), 50);
    let mut e = FastPath::new();
    e.insert(key.clone(), key.clone());
    // A query spanning both words can only be answered from the whole-key
    // entry, which is present because the key contains '@'.
    let query = format!("{} b@", prefix_a);
    let m = e.search(query).unwrap();
    assert_eq!(m.kind, MatchKind::Prefix);
    assert_eq!(m.content, key);
}

#[test]
fn long_key_without_at_sign_is_not_whole_key_indexed() {
    let prefix_a = "a".repeat(45);
    let key = format!("{} bcde", prefix_a);
    assert_eq!(key.len(), 50);
    let mut e = FastPath::new();
    e.insert(key.clone(), key.clone());
    // No '@' and not under fifty characters: only the two words are in the
    // trie, so a query spanning the space finds nothing.
    let query = format!("{} bc", prefix_a);
    assert!(e.search(query).is_none());
    // A query within the first word still matches.
    let m = e.search("aaaa".to_string()).unwrap();
    assert_eq!(m.kind, MatchKind::Prefix);
    assert_eq!(m.content, key);
}

#[test]
fn short_key_is_whole_key_indexed() {
    let mut e = FastPath::new();
    e.insert("abcdefgh".to_string(), "abcdefgh data".to_string());
    let m = e.search("abcde".to_string()).unwrap();
    assert_eq!(m.kind, MatchKind::Prefix);
    assert_eq!(m.content, "abcdefgh data");
}

#[test]
fn exact_match_takes_precedence_over_prefix() {
    let mut e = FastPath::new();
    e.insert("abc".to_string(), "exact one".to_string());
    e.insert("abcdef".to_string(), "abcdef record".to_string());
    let m = e.search("abc".to_string()).unwrap();
    assert_eq!(m.kind, MatchKind::Exact);
    assert_eq!(m.confidence_tenths, 10);
    assert_eq!(m.content, "exact one");
}
