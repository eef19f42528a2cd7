use kronos_core::trie::PrefixTrie;

fn chars(s: &str) -> Vec<char> {
    s.chars().collect()
}

fn strings(rs: &[Vec<char>]) -> Vec<String> {
    rs.iter().map(|v| v.iter().collect()).collect()
}

#[test]
fn cap_retains_first_ten() {
    let mut t = PrefixTrie::new();
    let key = chars("node");
    for i in 0..11 {
        t.insert(&key, &chars(&format!("content{}", i)));
    }
    let rs = t.search(&key, 50);
    let got = strings(&rs);
    assert_eq!(got.len(), 10);
    for i in 0..10 {
        assert_eq!(got[i], format!("content{}", i));
    }
}

#[test]
fn own_contents_come_before_descendants() {
    let mut t = PrefixTrie::new();
    t.insert(&chars("ab"), &chars("at ab"));
    t.insert(&chars("abc"), &chars("at abc"));
    let rs = t.search(&chars("ab"), 10);
    assert_eq!(strings(&rs), vec!["at ab".to_string(), "at abc".to_string()]);
}

#[test]
fn duplicate_contents_are_collected_once() {
    let mut t = PrefixTrie::new();
    t.insert(&chars("ab"), &chars("same"));
    t.insert(&chars("abc"), &chars("same"));
    t.insert(&chars("abd"), &chars("other"));
    let rs = t.search(&chars("ab"), 10);
    assert_eq!(strings(&rs), vec!["same".to_string(), "other".to_string()]);
}

#[test]
fn limit_cuts_collection() {
    let mut t = PrefixTrie::new();
    let key = chars("k");
    for i in 0..8 {
        t.insert(&key, &chars(&format!("c{}", i)));
    }
    let rs = t.search(&key, 5);
    assert_eq!(rs.len(), 5);
    assert_eq!(strings(&rs), vec!["c0", "c1", "c2", "c3", "c4"]);
}

#[test]
fn unmatched_prefix_returns_nothing() {
    let mut t = PrefixTrie::new();
    t.insert(&chars("xyz123"), &chars("Y"));
    assert!(t.search(&chars("ab"), 5).is_empty());
    assert!(t.search(&chars("xyz9"), 5).is_empty());
}

#[test]
fn empty_prefix_collects_from_root() {
    let mut t = PrefixTrie::new();
    t.insert(&chars("one"), &chars("first"));
    t.insert(&chars("two"), &chars("second"));
    let rs = t.search(&chars(""), 10);
    let got = strings(&rs);
    assert_eq!(got.len(), 2);
    assert!(got.contains(&"first".to_string()));
    assert!(got.contains(&"second".to_string()));
}

#[test]
fn contents_sit_at_their_exact_node() {
    let mut t = PrefixTrie::new();
    t.insert(&chars("abcd"), &chars("deep"));
    // The node "ab" exists as a path but owns no contents of its own; the
    // collection below it still finds the descendant.
    let rs = t.search(&chars("ab"), 10);
    assert_eq!(strings(&rs), vec!["deep".to_string()]);
    // The full key's node owns the content.
    let rs2 = t.search(&chars("abcd"), 10);
    assert_eq!(strings(&rs2), vec!["deep".to_string()]);
}
