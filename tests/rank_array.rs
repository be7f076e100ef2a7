use tricount::rank_array::EliasFanoRankArray;

#[test]
fn empty_rank_array_has_no_positions() {
    let a = EliasFanoRankArray::build(vec![]);
    assert_eq!(a.len(), 0);
    assert_eq!(EliasFanoRankArray::default().len(), 0);
}

#[test]
fn rank_array_round_trips_every_position() {
    let vals = vec![3usize, 0, 0, 7, 1, 2, 2, 9, 0];
    let a = EliasFanoRankArray::build(vals.clone());
    assert_eq!(a.len(), vals.len());
    for (i, &v) in vals.iter().enumerate() {
        assert_eq!(a.get(i), v);
    }
}

#[test]
fn rank_array_single_zero() {
    let a = EliasFanoRankArray::build(vec![0]);
    assert_eq!(a.len(), 1);
    assert_eq!(a.get(0), 0);
}
