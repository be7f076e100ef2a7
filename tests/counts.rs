use tricount::counts::CountsBuilder;

fn builder_of(seqs: &[Vec<usize>]) -> CountsBuilder {
    let mut scb = CountsBuilder::default();
    for seq in seqs {
        for &x in seq {
            scb.eat_value(x);
        }
        scb.build_sequence();
    }
    scb
}

#[test]
fn test_basic() {
    let seqs = vec![vec![2, 2, 1, 2, 4, 2, 1, 2, 1], vec![2, 1, 2, 1, 1, 1]];

    let mut scb = CountsBuilder::default();
    for seq in &seqs {
        for &x in seq {
            scb.eat_value(x);
        }
        scb.build_sequence();
    }

    assert_eq!(scb.rank(0, 1), Some(1));
    assert_eq!(scb.rank(0, 2), Some(0));
    assert_eq!(scb.rank(0, 3), None);
    assert_eq!(scb.rank(0, 4), Some(2));
    assert_eq!(scb.rank(1, 1), Some(0));
    assert_eq!(scb.rank(1, 2), Some(1));

    let counts = scb.release();
    assert_eq!(counts[0].get_int(0), Some(2));
    assert_eq!(counts[0].get_int(1), Some(1));
    assert_eq!(counts[0].get_int(2), Some(4));
    assert_eq!(counts[1].get_int(0), Some(1));
    assert_eq!(counts[1].get_int(1), Some(2));
}

#[test]
fn empty_order_has_empty_sequence_and_no_ranks() {
    let scb = builder_of(&[vec![], vec![3, 3]]);
    assert_eq!(scb.rank(0, 0), None);
    assert_eq!(scb.rank(0, 3), None);
    assert_eq!(scb.rank(1, 3), Some(0));
    let counts = scb.release();
    assert_eq!(counts.len(), 2);
    assert_eq!(counts[0].len(), 0);
    assert_eq!(counts[1].len(), 1);
}

#[test]
fn equal_frequencies_rank_smaller_value_first() {
    let a = builder_of(&[vec![9, 5, 7, 9, 5, 7]]);
    let b = builder_of(&[vec![7, 7, 9, 5, 9, 5]]);
    for scb in [a, b] {
        assert_eq!(scb.rank(0, 5), Some(0));
        assert_eq!(scb.rank(0, 7), Some(1));
        assert_eq!(scb.rank(0, 9), Some(2));
        let counts = scb.release();
        assert_eq!(counts[0].get_int(0), Some(5));
        assert_eq!(counts[0].get_int(1), Some(7));
        assert_eq!(counts[0].get_int(2), Some(9));
    }
}

#[test]
fn sequence_and_ranks_are_inverse() {
    let scb = builder_of(&[vec![0, 8, 8, 1000, 0, 8, 3]]);
    let mut expected = Vec::new();
    for v in [0usize, 3, 8, 1000] {
        expected.push((scb.rank(0, v).unwrap(), v));
    }
    let counts = scb.release();
    assert_eq!(counts[0].len(), 4);
    for (r, v) in expected {
        assert_eq!(counts[0].get_int(r), Some(v));
    }
    assert_eq!(counts[0].get_int(0), Some(8));
    assert_eq!(counts[0].get_int(1), Some(0));
    assert_eq!(counts[0].get_int(2), Some(3));
    assert_eq!(counts[0].get_int(3), Some(1000));
}

#[test]
fn sequence_width_fits_largest_value() {
    let scb = builder_of(&[vec![usize::MAX, 0, usize::MAX]]);
    assert_eq!(scb.rank(0, usize::MAX), Some(0));
    assert_eq!(scb.rank(0, 0), Some(1));
    let counts = scb.release();
    assert_eq!(counts[0].width(), 64);
    assert_eq!(counts[0].get_int(0), Some(usize::MAX));
    assert_eq!(counts[0].get_int(1), Some(0));

    let counts = builder_of(&[vec![5, 4]]).release();
    assert_eq!(counts[0].width(), 3);
}

#[test]
fn unfinished_order_has_no_ranks() {
    let mut scb = builder_of(&[vec![4, 4, 2]]);
    scb.eat_value(4);
    assert_eq!(scb.rank(1, 4), None);
    assert_eq!(scb.rank(0, 4), Some(0));
}
