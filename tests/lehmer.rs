use permutation_compression::{lehmer_to_perm, perm_to_lehmer, PermError};
use rand::Rng;

fn random_lehmer(sz: usize) -> Vec<u32> {
    let mut v = Vec::new();
    let mut rng = rand::thread_rng();
    while v.len() < sz {
        v.push(rng.gen_range(0..sz - v.len()) as u32);
    }
    v
}

fn count_distinct(v: &[u32]) -> usize {
    let mut s = v.to_vec();
    s.sort_unstable();
    s.dedup();
    s.len()
}

#[test]
fn test_generate_random_perm() {
    for _ in 0..1000 {
        let mut perm = random_lehmer(20);
        lehmer_to_perm(&mut perm).unwrap();
        assert!(perm.iter().all(|v| *v < 20));
        assert_eq!(count_distinct(&perm), 20);
    }
}

#[test]
fn wiki_example() {
    let mut test = vec![1, 5, 0, 6, 3, 4, 2];

    perm_to_lehmer(&mut test).unwrap();
    assert_eq!(test, vec![1, 4, 0, 3, 1, 1, 0]);

    lehmer_to_perm(&mut test).unwrap();
    assert_eq!(test, vec![1, 5, 0, 6, 3, 4, 2]);
}

#[test]
fn test_random_perm() {
    for _ in 0..1000 {
        let mut perm = random_lehmer(20);
        lehmer_to_perm(&mut perm).unwrap();
        let orig = perm.clone();

        perm_to_lehmer(&mut perm).unwrap();
        lehmer_to_perm(&mut perm).unwrap();
        assert_eq!(perm, orig);
    }
}

#[test]
fn identity_has_zero_code() {
    let mut p = vec![0, 1, 2, 3, 4];
    perm_to_lehmer(&mut p).unwrap();
    assert_eq!(p, vec![0, 0, 0, 0, 0]);
    lehmer_to_perm(&mut p).unwrap();
    assert_eq!(p, vec![0, 1, 2, 3, 4]);
}

#[test]
fn reverse_is_its_own_code() {
    let mut p = vec![4, 3, 2, 1, 0];
    perm_to_lehmer(&mut p).unwrap();
    assert_eq!(p, vec![4, 3, 2, 1, 0]);
    lehmer_to_perm(&mut p).unwrap();
    assert_eq!(p, vec![4, 3, 2, 1, 0]);
}

#[test]
fn lehmer_code_entries_are_bounded() {
    for _ in 0..200 {
        let mut p = random_lehmer(50);
        lehmer_to_perm(&mut p).unwrap();
        perm_to_lehmer(&mut p).unwrap();
        for (i, v) in p.iter().enumerate() {
            assert!((*v as usize) <= 50 - 1 - i);
        }
    }
}

#[test]
fn empty_sequences() {
    let mut p: Vec<u32> = vec![];
    perm_to_lehmer(&mut p).unwrap();
    assert!(p.is_empty());
    lehmer_to_perm(&mut p).unwrap();
    assert!(p.is_empty());
}

#[test]
fn repeated_value_is_rejected() {
    let mut p = vec![1, 0, 1];
    assert_eq!(perm_to_lehmer(&mut p), Err(PermError::InvalidInput));
    assert_eq!(p, vec![1, 0, 1]);
}

#[test]
fn value_out_of_range_is_rejected() {
    let mut p = vec![0, 3, 1];
    assert_eq!(perm_to_lehmer(&mut p), Err(PermError::InvalidInput));
}

#[test]
fn oversized_code_entry_is_rejected() {
    let mut l = vec![0, 2, 0];
    assert_eq!(lehmer_to_perm(&mut l), Err(PermError::InvalidInput));
    assert_eq!(l, vec![0, 2, 0]);
}
