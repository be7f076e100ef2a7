use tricount::builder::TrieCountLmBuilder;

#[test]
fn builder_runs_over_every_order() {
    let loaders = vec![
        vec![("b".to_string(), 3), ("a".to_string(), 1), ("c".to_string(), 3)],
        vec![("a b".to_string(), 1), ("b c".to_string(), 1)],
        vec![],
    ];
    let mut b = TrieCountLmBuilder::new(loaders);
    b.build_counts();
    b.build_vocabulary();
    assert_eq!(b.rank(0, 3), Some(0));
    assert_eq!(b.rank(0, 1), Some(1));
    assert_eq!(b.rank(1, 1), Some(0));
    assert_eq!(b.rank(1, 3), None);
    assert_eq!(b.rank(2, 1), None);
    assert_eq!(b.rank(3, 1), None);
    assert_eq!(b.token_id("a"), Some(0));
    assert_eq!(b.token_id("b"), Some(1));
    assert_eq!(b.token_id("c"), Some(2));
    assert_eq!(b.token_id("a b"), None);
}

#[test]
fn builder_without_vocabulary_finds_no_token() {
    let b = TrieCountLmBuilder::new(vec![vec![("x".to_string(), 1)]]);
    assert_eq!(b.token_id("x"), None);
    assert_eq!(b.rank(0, 1), None);
}
