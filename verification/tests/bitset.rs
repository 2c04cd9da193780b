use robodoan::util::bitset::{BitSet32, BitSet96};

#[test]
fn bitset_test_bool_array_96() {
    let expected = [0u8, 1, 2, 5, 17, 54, 80, 95];
    let mut bits = BitSet96::default();
    for &n in &expected {
        bits.set(n);
    }

    let actual = bits.iter();
    assert_eq!(actual, expected.to_vec());

    for i in 0..96u32 {
        let expected_filtered = expected.iter().filter(|&&j| (j as u32) < i).count() as u8;
        assert_eq!(expected_filtered, bits.bits_before(i as u8));
    }
}

#[test]
fn bitset_test_bool_array_32() {
    let expected = [0u8, 1, 2, 5, 17, 22, 31];
    let mut bits = BitSet32::default();
    for &n in &expected {
        bits.set(n);
    }

    let actual = bits.iter();
    assert_eq!(actual, expected.to_vec());
}

#[test]
fn block_list_test_bool_array_96() {
    let contents = [0u8, 1, 2, 5, 17, 54, 80, 95];
    let mut bits = BitSet96::default();
    for &n in &contents {
        bits.set(n);
    }
    {
        let mut bits = bits.clone();
        let mut actual = vec![];
        while !bits.is_empty() {
            actual.push(bits.pop_index());
        }
        assert_eq!(actual, contents.to_vec());
    }

    for i in 0..96u32 {
        let expected = contents.iter().filter(|&&j| (j as u32) < i).count() as u8;
        assert_eq!(expected, bits.bits_before(i as u8));
    }
}

#[test]
fn block_list_test_bool_array_32() {
    let expected = [0u8, 1, 2, 5, 17, 22, 31];
    let mut bits = BitSet32::default();
    for &n in &expected {
        bits.set(n);
    }
    let mut actual = vec![];
    while !bits.is_empty() {
        actual.push(bits.pop_index());
    }
    assert_eq!(actual, expected.to_vec());
}

#[test]
fn bitset_clear_and_counts() {
    let mut bits = BitSet32::empty();
    assert!(bits.is_empty());
    bits.set_from_0(3);
    bits.set_from_0(9);
    assert_eq!(bits.count_ones(), 2);
    assert!(bits.get(3) && bits.get(9) && !bits.get(4));
    assert_eq!(bits.bits_before(9), 1);
    assert_eq!(bits.bits_before(200), 2);
    bits.clear_from_1(3);
    assert_eq!(bits.iter(), vec![9]);

    let mut big = BitSet96::empty();
    big.set(40);
    big.set(70);
    big.set(95);
    assert_eq!(big.count_ones(), 3);
    big.clear(70);
    assert!(!big.get(70) && big.get(95));
    assert_eq!(big.bits_before(255), 2);
}
