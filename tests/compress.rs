use permutation_compression::{
    compress_permutation, decompress_permutation, decompress_permutation_range, lehmer_to_perm,
    CompressionMode, PermError,
};
use rand::Rng;

fn random_lehmer(sz: usize) -> Vec<u32> {
    let mut v = Vec::new();
    let mut rng = rand::thread_rng();
    while v.len() < sz {
        v.push(rng.gen_range(0..sz - v.len()) as u32);
    }
    v
}

fn random_perm(sz: usize) -> Vec<u32> {
    let mut perm = random_lehmer(sz);
    lehmer_to_perm(&mut perm).unwrap();
    perm
}

#[test]
fn test_compress_random_perm_slow() {
    for _ in 0..1000 {
        let perm = random_perm(20);
        let orig = perm.clone();

        let compressed = compress_permutation(CompressionMode::Slow, perm).unwrap();
        let recovered = decompress_permutation(CompressionMode::Slow, &compressed).unwrap();

        assert_eq!(recovered, orig);
    }
}

#[test]
fn test_compress_random_perm_fast() {
    for _ in 0..1000 {
        let perm = random_perm(20);
        let orig = perm.clone();

        let compressed = compress_permutation(CompressionMode::Fast, perm).unwrap();
        let recovered = decompress_permutation(CompressionMode::Fast, &compressed).unwrap();

        assert_eq!(recovered, orig);
    }
}

#[test]
fn test_compress_random_perm_fast_subset() {
    let perm = random_perm(500);
    let orig = perm.clone();

    let compressed = compress_permutation(CompressionMode::Fast, perm).unwrap();
    let recovered = decompress_permutation(CompressionMode::Fast, &compressed).unwrap();

    let slc = decompress_permutation_range(CompressionMode::Fast, &compressed, 0..10).unwrap();
    assert_eq!(slc, &recovered[0..10]);

    let slc = decompress_permutation_range(CompressionMode::Fast, &compressed, 100..200).unwrap();
    assert_eq!(slc, &recovered[100..200]);

    let slc = decompress_permutation_range(CompressionMode::Fast, &compressed, 100..490).unwrap();
    assert_eq!(slc, &recovered[100..490]);

    assert_eq!(recovered, orig);
}

#[test]
fn identity_stream_bytes() {
    let compressed = compress_permutation(CompressionMode::Fast, vec![0, 1, 2, 3, 4]).unwrap();
    // header 5, one block of width 3, 48 payload bytes
    assert_eq!(&compressed[0..5], &[5, 0, 0, 0, 3]);
    assert_eq!(compressed.len(), 4 + 1 + 48);
    assert_ne!(&compressed[5..], &[0u8; 48][..]);
    let slow = compress_permutation(CompressionMode::Slow, vec![0, 1, 2, 3, 4]).unwrap();
    assert_eq!(slow, vec![5, 0, 0, 0, 0]);
    assert_eq!(decompress_permutation(CompressionMode::Slow, &slow).unwrap(), vec![0, 1, 2, 3, 4]);
}

#[test]
fn round_trip_many_sizes_both_modes() {
    for n in [0usize, 1, 2, 5, 127, 128, 129, 256, 300, 1000] {
        for mode in [CompressionMode::Fast, CompressionMode::Slow] {
            let perm = random_perm(n);
            let compressed = compress_permutation(mode, perm.clone()).unwrap();
            let blocks = (n + 127) / 128;
            assert!(compressed.len() <= 4 + blocks * (1 + 4 * 128));
            assert_eq!(decompress_permutation(mode, &compressed).unwrap(), perm);
        }
    }
}

#[test]
fn range_matches_slice_everywhere() {
    let perm = random_perm(300);
    for mode in [CompressionMode::Fast, CompressionMode::Slow] {
        let compressed = compress_permutation(mode, perm.clone()).unwrap();
        for (a, b) in [(0, 0), (0, 300), (127, 129), (128, 256), (256, 256), (5, 6), (299, 300)] {
            let got = decompress_permutation_range(mode, &compressed, a..b).unwrap();
            assert_eq!(got, &perm[a..b]);
        }
    }
}

#[test]
fn slow_rejects_non_permutation() {
    assert_eq!(compress_permutation(CompressionMode::Slow, vec![0, 0, 1]), Err(PermError::InvalidInput));
    assert!(compress_permutation(CompressionMode::Fast, vec![0, 0, 1]).is_ok());
}

#[test]
fn truncated_streams_are_malformed() {
    let compressed = compress_permutation(CompressionMode::Fast, random_perm(200)).unwrap();
    assert_eq!(decompress_permutation(CompressionMode::Fast, &compressed[..3]), Err(PermError::MalformedStream));
    let cut = &compressed[..compressed.len() - 1];
    assert_eq!(decompress_permutation(CompressionMode::Fast, cut), Err(PermError::MalformedStream));
    assert_eq!(decompress_permutation_range(CompressionMode::Fast, cut, 0..1), Err(PermError::MalformedStream));
    // header claims more values than the blocks hold
    assert_eq!(decompress_permutation(CompressionMode::Fast, &[200, 0, 0, 0, 0]), Err(PermError::MalformedStream));
    // width above 32
    assert_eq!(decompress_permutation(CompressionMode::Fast, &[1, 0, 0, 0, 33]), Err(PermError::MalformedStream));
}

#[test]
fn range_out_of_bounds() {
    let compressed = compress_permutation(CompressionMode::Fast, random_perm(50)).unwrap();
    assert_eq!(decompress_permutation_range(CompressionMode::Fast, &compressed, 10..51), Err(PermError::RangeOutOfBounds));
    #[allow(clippy::reversed_empty_ranges)]
    let backwards = 10..5;
    assert_eq!(decompress_permutation_range(CompressionMode::Slow, &compressed, backwards), Err(PermError::RangeOutOfBounds));
}

#[test]
fn slow_rejects_invalid_code() {
    // a Fast stream of [3, 0, 0]: entry 0 exceeds 2
    let compressed = compress_permutation(CompressionMode::Fast, vec![3, 0, 0]).unwrap();
    assert_eq!(decompress_permutation(CompressionMode::Slow, &compressed), Err(PermError::InvalidInput));
}
