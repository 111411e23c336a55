use stampede::BitMask;

#[test]
fn test_bitmask_iteration() {
    let val: u16 = 11;
    println!("{}", val.trailing_zeros());
    let mask = BitMask::new(11);
    let vals: Vec<u16> = mask.offsets();
    for val in &vals {
        println!("{:080b}", val);
    }
    assert_eq!(vals[0], 0);
    assert_eq!(vals[1], 1);
    assert_eq!(vals[2], 3);
}

#[test]
fn test_bitmask_empty_matches() {
    let mut vec = Vec::with_capacity(16);
    for i in 0..16 {
        vec.push(i);
    }
    let mask = BitMask::matches(&vec, (-128i8) as u8);
    assert_eq!(mask.bits(), 0);
}

#[test]
fn matches_sets_exactly_the_equal_bytes() {
    let band: Vec<u8> = vec![
        7, 0xfe, 7, 3, 0x80, 7, 0xfe, 0xfe, 1, 2, 7, 9, 9, 9, 0xfe, 7,
    ];
    assert_eq!(BitMask::matches(&band, 7).bits(), 0b1000_0100_0010_0101);
    assert_eq!(BitMask::matches(&band, 0xfe).bits(), 0b0100_0000_1100_0010);
    assert_eq!(BitMask::matches(&band, 0x80).bits(), 0b0000_0000_0001_0000);
    assert_eq!(BitMask::matches(&band, 42).bits(), 0);
    for p in 0..=255u8 {
        let m = BitMask::matches(&band, p);
        for i in 0..16 {
            assert_eq!((m.bits() >> i) & 1 == 1, band[i] == p);
        }
    }
}

#[test]
fn matches_reads_only_the_first_sixteen_bytes() {
    let mut band: Vec<u8> = vec![5; 16];
    band.push(5);
    band.push(6);
    assert_eq!(BitMask::matches(&band, 5).bits(), 0xffff);
}

#[test]
fn next_yields_ascending_offsets_once() {
    let mut mask = BitMask::new(0b1000_0000_0010_0110);
    assert_eq!(mask.next(), Some(1));
    assert_eq!(mask.next(), Some(2));
    assert_eq!(mask.next(), Some(5));
    assert_eq!(mask.next(), Some(15));
    assert_eq!(mask.next(), None);
    assert_eq!(mask.next(), None);
    assert_eq!(mask.bits(), 0);
}

#[test]
fn offsets_of_full_and_empty_masks() {
    let all: Vec<u16> = (0..16).collect();
    assert_eq!(BitMask::new(0xffff).offsets(), all);
    assert!(BitMask::new(0).offsets().is_empty());
    assert_eq!(BitMask::new(0x8000).offsets(), vec![15]);
}

#[test]
fn or_yields_the_union_of_offsets() {
    let a = BitMask::new(0b0000_0000_0000_1011);
    let b = BitMask::new(0b1000_0000_0000_1100);
    let u = a | b;
    assert_eq!(u.bits(), 0b1000_0000_0000_1111);
    assert_eq!(u.offsets(), vec![0, 1, 2, 3, 15]);
}

#[test]
fn any_tells_a_nonzero_mask() {
    assert!(!BitMask::new(0).any());
    assert!(BitMask::new(0x0100).any());
}

#[test]
fn matches_of_uniform_and_alternating_bands() {
    assert_eq!(BitMask::matches(&[0xfe; 16], 0xfe).bits(), 0xffff);
    let alternating: [u8; 16] = [1, 0, 1, 0, 1, 0, 1, 0, 1, 0, 1, 0, 1, 0, 1, 0];
    assert_eq!(BitMask::matches(&alternating, 1).bits(), 0x5555);
    assert_eq!(BitMask::matches(&[0x80; 16], 0x7f).bits(), 0);
}

#[test]
fn matches_for_different_predicates_are_disjoint() {
    let band: Vec<u8> = vec![
        0xfe, 0x80, 3, 3, 0xfe, 9, 0x80, 3, 0xfe, 0xfe, 1, 2, 3, 0x80, 0xfe, 3,
    ];
    for p in 0..=255u8 {
        for q in [0xfeu8, 0x80, 3] {
            if p != q {
                let a = BitMask::matches(&band, p).bits();
                let b = BitMask::matches(&band, q).bits();
                assert_eq!(a & b, 0);
            }
        }
    }
}

#[test]
fn next_clears_the_lowest_bit() {
    let mut mask = BitMask::new(0b0110_1000);
    assert_eq!(mask.next(), Some(3));
    assert_eq!(mask.bits(), 0b0110_0000);
    assert_eq!(mask.next(), Some(5));
    assert_eq!(mask.bits(), 0b0100_0000);
    assert!(mask.any());
    assert_eq!(mask.next(), Some(6));
    assert!(!mask.any());
}
