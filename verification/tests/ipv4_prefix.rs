use prefix_trie::{to_right, Ipv4Prefix, Prefix, PrefixError};

fn p(addr: u32, len: u8) -> Ipv4Prefix {
    Ipv4Prefix::new(addr, len).unwrap()
}

#[test]
fn new_clears_the_host_bits() {
    assert_eq!(p(0xc0a8_0101, 24).addr(), 0xc0a8_0100);
    assert_eq!(p(0xc0a8_0101, 32).addr(), 0xc0a8_0101);
    assert_eq!(p(0xc0a8_0101, 0).addr(), 0);
    assert_eq!(p(0xffff_ffff, 1).addr(), 0x8000_0000);
    assert_eq!(p(0xffff_ffff, 31).addr(), 0xffff_fffe);
    assert_eq!(p(0xac10_7b7b, 16).addr(), 0xac10_0000);
}

#[test]
fn new_keeps_the_length() {
    assert_eq!(p(0xc0a8_0101, 24).prefix_len(), 24);
    assert_eq!(p(0, 0).prefix_len(), 0);
    assert_eq!(p(0, 32).prefix_len(), 32);
}

#[test]
fn new_refuses_a_length_over_32() {
    assert_eq!(Ipv4Prefix::new(0xc0a8_0101, 33), Err(PrefixError::LengthOutOfRange));
    assert_eq!(Ipv4Prefix::new(0, 255), Err(PrefixError::LengthOutOfRange));
    assert!(Ipv4Prefix::new(0, 32).is_ok());
}

#[test]
fn prefixes_that_differ_in_host_bits_are_equal() {
    assert_eq!(p(0xc0a8_0101, 24), p(0xc0a8_01ff, 24));
    assert_ne!(p(0xc0a8_0101, 24), p(0xc0a8_0101, 25));
    assert_ne!(p(0xc0a8_0101, 24), p(0xc0a8_0201, 24));
}

#[test]
fn zero_is_the_empty_prefix() {
    let z = Ipv4Prefix::zero();
    assert_eq!(z.prefix_len(), 0);
    assert_eq!(z.addr(), 0);
    assert_eq!(z, p(0x1234_5678, 0));
}

#[test]
fn bits_are_counted_from_the_top() {
    let a = p(0x8000_0001, 32);
    assert!(a.is_bit_set(0));
    assert!(!a.is_bit_set(1));
    assert!(!a.is_bit_set(30));
    assert!(a.is_bit_set(31));
    let b = p(0xc0a8_0100, 24);
    assert!(b.is_bit_set(0));
    assert!(b.is_bit_set(1));
    assert!(!b.is_bit_set(2));
    assert!(b.is_bit_set(23));
}

#[test]
fn contains_is_covering() {
    let wide = p(0x0a00_0000, 8);
    let narrow = p(0x0a01_0000, 16);
    let other = p(0x0b00_0000, 8);
    assert!(wide.contains(&narrow));
    assert!(!narrow.contains(&wide));
    assert!(wide.contains(&wide));
    assert!(!wide.contains(&other));
    assert!(!other.contains(&narrow));
    assert!(Ipv4Prefix::zero().contains(&wide));
    assert!(Ipv4Prefix::zero().contains(&Ipv4Prefix::zero()));
    assert!(!wide.contains(&Ipv4Prefix::zero()));
    assert!(p(0xc0a8_0100, 24).contains(&p(0xc0a8_0101, 32)));
    assert!(!p(0xc0a8_0100, 24).contains(&p(0xc0a8_0201, 32)));
}

#[test]
fn common_length_counts_shared_leading_bits() {
    assert_eq!(p(0x0a00_0000, 8).common_length(&p(0x0a01_0000, 16)), 8);
    assert_eq!(p(0x0a01_0000, 16).common_length(&p(0x0a00_0000, 8)), 8);
    assert_eq!(p(0x0a00_0000, 8).common_length(&p(0x0b00_0000, 8)), 7);
    assert_eq!(p(0x0000_0000, 32).common_length(&p(0x8000_0000, 32)), 0);
    assert_eq!(p(0xc0a8_0101, 32).common_length(&p(0xc0a8_0101, 32)), 32);
    assert_eq!(p(0xc0a8_0101, 32).common_length(&p(0xc0a8_0100, 32)), 31);
    assert_eq!(Ipv4Prefix::zero().common_length(&p(0xc0a8_0101, 32)), 0);
    assert_eq!(p(0x0a01_0000, 16).common_length(&p(0x0a02_0000, 16)), 14);
}

#[test]
fn common_length_is_symmetric_and_bounded() {
    let all = [
        p(0, 0),
        p(0x0a00_0000, 8),
        p(0x0a01_0000, 16),
        p(0x0a01_0203, 32),
        p(0xc0a8_0100, 24),
        p(0xffff_ffff, 32),
        p(0x8000_0000, 1),
    ];
    for a in all.iter() {
        for b in all.iter() {
            let n = a.common_length(b);
            assert_eq!(n, b.common_length(a));
            assert!(n <= a.prefix_len());
            assert!(n <= b.prefix_len());
            assert_eq!(a.contains(b), n == a.prefix_len());
        }
    }
}

#[test]
fn truncate_keeps_the_leading_bits() {
    let a = p(0xc0a8_0101, 32);
    assert_eq!(a.truncate(24), p(0xc0a8_0100, 24));
    assert_eq!(a.truncate(32), a);
    assert_eq!(a.truncate(0), Ipv4Prefix::zero());
    assert_eq!(a.truncate(1), p(0x8000_0000, 1));
    assert_eq!(a.truncate(24).addr(), 0xc0a8_0100);
    assert_eq!(p(0x0a01_0000, 16).truncate(14), p(0x0a00_0000, 14));
}

#[test]
fn to_right_reads_the_bit_past_the_branch() {
    let branch = p(0x0a00_0000, 8);
    assert!(!to_right(&branch, &p(0x0a01_0000, 16)));
    assert!(to_right(&branch, &p(0x0a80_0000, 9)));
    assert!(to_right(&Ipv4Prefix::zero(), &p(0x8000_0000, 1)));
    assert!(!to_right(&Ipv4Prefix::zero(), &p(0x7fff_ffff, 32)));
    assert!(to_right(&p(0xc0a8_0100, 31), &p(0xc0a8_0101, 32)));
}

#[test]
fn same_as_is_equality() {
    assert!(p(0xc0a8_0101, 24).same_as(&p(0xc0a8_01ff, 24)));
    assert!(!p(0xc0a8_0101, 24).same_as(&p(0xc0a8_0101, 25)));
    assert!(!p(0xc0a8_0101, 24).same_as(&p(0xc0a8_0201, 24)));
    assert!(Ipv4Prefix::zero().same_as(&p(0xffff_ffff, 0)));
    assert!(!p(0x8000_0000, 1).same_as(&p(0, 1)));
}
