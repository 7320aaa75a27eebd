use permutation_compression::LRArray;

#[test]
fn test_set_kth_unset_bit() {
    let mut array = LRArray::new(50);
    assert_eq!(array.unset_bits(), 50);

    assert_eq!(array.set_kth_unset_bit(4), 4);
    assert_eq!(array.get_bit(4), true);
    assert_eq!(array.get_bit(3), false);

    assert_eq!(array.set_kth_unset_bit(4), 5);
    assert_eq!(array.set_kth_unset_bit(4), 6);
    assert_eq!(array.set_kth_unset_bit(0), 0);
    assert_eq!(array.set_kth_unset_bit(4), 8);
    assert_eq!(array.set_kth_unset_bit(25), 30);
}

#[test]
fn test_unset_before() {
    let mut array = LRArray::new(50);
    assert_eq!(array.set_kth_unset_bit(4), 4);
    assert_eq!(array.unset_before(5), 4);
    assert_eq!(array.unset_before(4), 4);
    assert_eq!(array.unset_before(3), 3);

    assert_eq!(array.set_kth_unset_bit(15), 16);
    assert_eq!(array.unset_before(5), 4);
    assert_eq!(array.unset_before(20), 18);
}

#[test]
fn test_set_nth() {
    let mut array = LRArray::new(50);
    assert_eq!(array.set_nth_bit(4), false);
    assert_eq!(array.set_nth_bit(4), true);

    assert_eq!(array.unset_before(4), 4);
    assert_eq!(array.unset_before(5), 4);
    assert_eq!(array.unset_before(40), 39);

    assert_eq!(array.set_kth_unset_bit(2), 2);
    assert_eq!(array.unset_before(5), 3);

    assert_eq!(array.set_nth_bit(20), false);
    assert_eq!(array.unset_before(40), 37);
}

#[test]
fn test_set_last() {
    let mut array = LRArray::new(5);
    assert_eq!(array.set_kth_unset_bit(3), 3);
    assert_eq!(array.set_kth_unset_bit(3), 4);
}

#[test]
fn selection_sequence_then_rank() {
    let mut array = LRArray::new(50);
    let got: Vec<usize> = [4, 4, 4, 0, 4, 25].iter().map(|k| array.set_kth_unset_bit(*k)).collect();
    assert_eq!(got, vec![4, 5, 6, 0, 8, 30]);
    // below 5 only bits 0 and 4 are set: 1, 2 and 3 remain
    assert_eq!(array.unset_before(5), 3);
}

#[test]
fn counts_track_a_naive_model() {
    let n = 37;
    let mut array = LRArray::new(n);
    let mut model = vec![false; n];
    let steps: [(bool, usize); 12] = [
        (true, 36), (false, 0), (true, 5), (true, 5), (false, 10), (true, 17),
        (false, 3), (true, 0), (false, 20), (true, 31), (false, 0), (false, 7),
    ];
    for (by_index, x) in steps {
        if by_index {
            let was = model[x];
            assert_eq!(array.set_nth_bit(x), was);
            model[x] = true;
        } else {
            let i = array.set_kth_unset_bit(x);
            assert!(!model[i]);
            assert_eq!(model[..i].iter().filter(|b| !**b).count(), x);
            model[i] = true;
        }
        let set = model.iter().filter(|b| **b).count();
        assert_eq!(array.set_bits(), set);
        assert_eq!(array.unset_bits(), n - set);
        assert_eq!(array.total_bits(), n);
        for m in 0..n + 3 {
            let naive = model[..m.min(n)].iter().filter(|b| !**b).count();
            assert_eq!(array.unset_before(m), naive);
        }
    }
}

#[test]
fn odd_sizes_select_every_bit() {
    for n in [1usize, 2, 3, 5, 7, 9, 33, 101] {
        let mut array = LRArray::new(n);
        for i in 0..n {
            assert_eq!(array.set_kth_unset_bit(0), i);
        }
        assert_eq!(array.unset_bits(), 0);
        assert_eq!(array.unset_before(n), 0);
    }
}
