use louds::{Fid, OutOfRange};

fn sample() -> Fid {
    // 1 0 1 1 0 0 1 0
    Fid::new(vec![true, false, true, true, false, false, true, false])
}

#[test]
fn fid_len_and_get() {
    let f = sample();
    assert_eq!(f.len(), 8);
    assert_eq!(f.get(0), Ok(true));
    assert_eq!(f.get(1), Ok(false));
    assert_eq!(f.get(7), Ok(false));
    assert_eq!(f.get(8), Err(OutOfRange));
}

#[test]
fn fid_rank() {
    let f = sample();
    assert_eq!(f.rank1(0), Ok(0));
    assert_eq!(f.rank1(1), Ok(1));
    assert_eq!(f.rank1(4), Ok(3));
    assert_eq!(f.rank1(8), Ok(4));
    assert_eq!(f.rank0(8), Ok(4));
    assert_eq!(f.rank0(5), Ok(2));
    assert_eq!(f.rank1(9), Err(OutOfRange));
    assert_eq!(f.rank0(9), Err(OutOfRange));
}

#[test]
fn fid_select() {
    let f = sample();
    assert_eq!(f.select1(1), Ok(0));
    assert_eq!(f.select1(2), Ok(2));
    assert_eq!(f.select1(3), Ok(3));
    assert_eq!(f.select1(4), Ok(6));
    assert_eq!(f.select0(1), Ok(1));
    assert_eq!(f.select0(2), Ok(4));
    assert_eq!(f.select0(4), Ok(7));
    // select past the available count, and the 1-indexed lower boundary
    assert_eq!(f.select1(0), Err(OutOfRange));
    assert_eq!(f.select1(5), Err(OutOfRange));
    assert_eq!(f.select0(5), Err(OutOfRange));
}

#[test]
fn fid_empty() {
    let f = Fid::new(vec![]);
    assert_eq!(f.len(), 0);
    assert_eq!(f.get(0), Err(OutOfRange));
    assert_eq!(f.rank1(0), Ok(0));
    assert_eq!(f.select1(1), Err(OutOfRange));
}

// Exercise the block index across several block boundaries: rank and select
// must agree with a direct scan on a 1000-bit sequence.
#[test]
fn fid_large_matches_scan() {
    let mut bits = Vec::new();
    for i in 0..1000usize {
        bits.push(i % 3 == 0 || i % 7 == 0);
    }
    let reference = bits.clone();
    let f = Fid::new(bits);
    let mut ones = 0u64;
    let mut zeros = 0u64;
    for (i, &b) in reference.iter().enumerate() {
        assert_eq!(f.rank1(i as u64), Ok(ones));
        assert_eq!(f.rank0(i as u64), Ok(zeros));
        if b {
            ones += 1;
            assert_eq!(f.select1(ones), Ok(i as u64));
        } else {
            zeros += 1;
            assert_eq!(f.select0(zeros), Ok(i as u64));
        }
        assert_eq!(f.get(i as u64), Ok(b));
    }
    assert_eq!(f.rank1(1000), Ok(ones));
    assert_eq!(f.select1(ones + 1), Err(OutOfRange));
}

#[test]
fn louds_from_bit_vec_matches_from_str() {
    let bits = [true, false, true, true, true, false, false, false, false];
    let a = louds::Louds::from_bit_vec(&bits);
    let b = louds::Louds::from_str("10_1110_0_0_0");
    assert!(a.well_formed());
    for i in 1u64..=4 {
        assert_eq!(
            a.bfs_select(louds::NodeId(i)),
            b.bfs_select(louds::NodeId(i))
        );
    }
}

#[test]
fn well_formed_rejects_malformed() {
    // Too many one-bits, a second root, and an empty sequence.
    assert!(!louds::Louds::from_str("10_11").well_formed());
    assert!(!louds::Louds::from_str("110_0_0_0").well_formed());
    assert!(!louds::Louds::from_str("").well_formed());
    // A lone terminator is the encoding of the empty tree and is well formed.
    assert!(louds::Louds::from_str("0").well_formed());
    assert!(!louds::Louds::from_str("0_10").well_formed());
}
