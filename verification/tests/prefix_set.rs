use prefix_trie::{Ipv4Prefix, Prefix, PrefixSet};

fn p(addr: u32, len: u8) -> Ipv4Prefix {
    Ipv4Prefix::new(addr, len).unwrap()
}

fn keys(members: Vec<&Ipv4Prefix>) -> Vec<(u32, u8)> {
    members.into_iter().map(|k| (k.addr(), k.prefix_len())).collect()
}

#[test]
fn set_insert_says_whether_the_prefix_was_new() {
    let mut set = PrefixSet::new();
    assert!(set.insert(p(0x0a00_0000, 8)));
    assert!(!set.insert(p(0x0a00_0000, 8)));
    assert!(!set.insert(p(0x0a12_3456, 8)));
    assert!(set.insert(p(0x0a00_0000, 9)));
    assert!(set.contains(&p(0x0a00_0000, 8)));
    assert!(set.contains(&p(0x0a00_0000, 9)));
    assert!(!set.contains(&p(0x0a00_0000, 10)));
}

#[test]
fn set_remove_says_whether_the_prefix_was_there() {
    let mut set = PrefixSet::new();
    set.insert(p(0x0a00_0000, 8));
    assert!(!set.remove(&p(0x0a00_0000, 9)));
    assert!(set.remove(&p(0x0a00_0000, 8)));
    assert!(!set.remove(&p(0x0a00_0000, 8)));
    assert!(!set.contains(&p(0x0a00_0000, 8)));
    assert!(set.entries().is_empty());
}

#[test]
fn set_longest_match() {
    let mut set = PrefixSet::new();
    set.insert(p(0x0a00_0000, 8));
    set.insert(p(0x0a01_0000, 16));
    assert_eq!(set.get_longest_match(&p(0x0a01_0203, 32)), Some(&p(0x0a01_0000, 16)));
    assert_eq!(set.get_longest_match(&p(0x0a02_0304, 32)), Some(&p(0x0a00_0000, 8)));
    assert_eq!(set.get_longest_match(&p(0x0b00_0000, 32)), None);
}

#[test]
fn set_walks() {
    let mut set = PrefixSet::new();
    set.insert(p(0x0a01_0200, 24));
    set.insert(p(0x0a02_0000, 16));
    set.insert(p(0x0a00_0000, 8));
    set.insert(p(0x0b00_0000, 8));
    set.insert(p(0x0a01_0000, 16));
    assert_eq!(
        keys(set.entries()),
        vec![
            (0x0a00_0000, 8),
            (0x0a01_0000, 16),
            (0x0a01_0200, 24),
            (0x0a02_0000, 16),
            (0x0b00_0000, 8)
        ]
    );
    assert_eq!(
        keys(set.children(&p(0x0a01_0000, 16))),
        vec![(0x0a01_0000, 16), (0x0a01_0200, 24)]
    );
    assert_eq!(
        keys(set.cover(&p(0x0a01_0203, 32))),
        vec![(0x0a00_0000, 8), (0x0a01_0000, 16), (0x0a01_0200, 24)]
    );
    assert_eq!(keys(set.cover(&p(0x0c00_0000, 8))), vec![]);
}
