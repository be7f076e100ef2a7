use tricount::vocabulary::Vocabulary;

#[test]
fn ids_follow_lexicographic_order() {
    let voc = Vocabulary::new(&["pear", "apple", "fig", "banana"]).unwrap();
    assert_eq!(voc.get("apple"), Some(0));
    assert_eq!(voc.get("banana"), Some(1));
    assert_eq!(voc.get("fig"), Some(2));
    assert_eq!(voc.get("pear"), Some(3));
}

#[test]
fn ids_do_not_depend_on_input_order() {
    let a = Vocabulary::new(&["b", "ab", "a", "abc"]).unwrap();
    let b = Vocabulary::new(&["abc", "a", "b", "ab"]).unwrap();
    for t in ["a", "ab", "abc", "b"] {
        assert_eq!(a.get(t), b.get(t));
    }
    assert_eq!(a.get("a"), Some(0));
    assert_eq!(a.get("ab"), Some(1));
    assert_eq!(a.get("abc"), Some(2));
    assert_eq!(a.get("b"), Some(3));
}

#[test]
fn lookup_is_exact_match_only() {
    let voc = Vocabulary::new(&["the", "there", "a"]).unwrap();
    assert_eq!(voc.get("th"), None);
    assert_eq!(voc.get("theres"), None);
    assert_eq!(voc.get(""), None);
    assert_eq!(voc.get("zebra"), None);
    assert_eq!(voc.get("the\0"), None);
    assert_eq!(voc.get("there"), Some(2));
}

#[test]
fn empty_vocabulary_finds_nothing() {
    let voc = Vocabulary::new(&[]).unwrap();
    assert_eq!(voc.get("a"), None);
    assert_eq!(voc.get(""), None);
}

#[test]
fn rejected_token_sets() {
    assert!(Vocabulary::new(&["a", "b", "a"]).is_none());
    assert!(Vocabulary::new(&["a", "b\0c"]).is_none());
}

#[test]
fn multibyte_tokens_sort_by_bytes() {
    let voc = Vocabulary::new(&["\u{e9}t\u{e9}", "zoo", "\u{3042}"]).unwrap();
    assert_eq!(voc.get("zoo"), Some(0));
    assert_eq!(voc.get("\u{e9}t\u{e9}"), Some(1));
    assert_eq!(voc.get("\u{3042}"), Some(2));
}

#[test]
fn three_token_example() {
    let v = Vocabulary::new(&["b", "a", "c"]).unwrap();
    assert_eq!(v.get("a"), Some(0));
    assert_eq!(v.get("b"), Some(1));
    assert_eq!(v.get("c"), Some(2));
    assert_eq!(v.get("ab"), None);
    assert_eq!(v.get("d"), None);
}

#[test]
fn oversized_token_set_is_refused() {
    let big = "x".repeat(0x10_0000);
    assert!(Vocabulary::new(&[big.as_str()]).is_none());
    let fits = "y".repeat(1000);
    assert_eq!(Vocabulary::new(&[fits.as_str()]).unwrap().get(&fits), Some(0));
}
