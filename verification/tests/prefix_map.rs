use prefix_trie::{Ipv4Prefix, Prefix, PrefixMap};
use std::collections::BTreeMap;

fn p(addr: u32, len: u8) -> Ipv4Prefix {
    Ipv4Prefix::new(addr, len).unwrap()
}

fn keys(entries: Vec<(&Ipv4Prefix, &u32)>) -> Vec<(u32, u8, u32)> {
    entries.into_iter().map(|(k, v)| (k.addr(), k.prefix_len(), *v)).collect()
}

#[test]
fn a_new_map_is_empty() {
    let map: PrefixMap<Ipv4Prefix, u32> = PrefixMap::new();
    assert_eq!(map.get(&p(0, 0)), None);
    assert_eq!(map.get(&p(0x0a00_0000, 8)), None);
    assert!(map.get_longest_match(&p(0x0a00_0000, 8)).is_none());
    assert!(map.entries().is_empty());
    assert!(!map.contains_key(&p(0, 0)));
}

#[test]
fn round_trip() {
    let mut map = PrefixMap::new();
    assert_eq!(map.insert(p(0xc0a8_0100, 24), 7u32), None);
    assert_eq!(map.get(&p(0xc0a8_0100, 24)), Some(&7));
    assert!(map.contains_key(&p(0xc0a8_0100, 24)));
    assert_eq!(map.get(&p(0xc0a8_0100, 23)), None);
    assert_eq!(map.get(&p(0xc0a8_0100, 25)), None);
}

#[test]
fn overwrite_returns_the_previous_value() {
    let mut map = PrefixMap::new();
    assert_eq!(map.insert(p(0xc0a8_0100, 24), 1u32), None);
    assert_eq!(map.insert(p(0xc0a8_0100, 24), 2), Some(1));
    assert_eq!(map.get(&p(0xc0a8_0100, 24)), Some(&2));
    assert_eq!(map.entries().len(), 1);
}

#[test]
fn remove_then_miss() {
    let mut map = PrefixMap::new();
    map.insert(p(0xc0a8_0100, 24), 1u32);
    assert_eq!(map.remove(&p(0xc0a8_0100, 24)), Some(1));
    assert_eq!(map.get(&p(0xc0a8_0100, 24)), None);
    assert_eq!(map.remove(&p(0xc0a8_0100, 24)), None);
    assert_eq!(map.get(&p(0xc0a8_0100, 24)), None);
    assert!(map.entries().is_empty());
}

#[test]
fn longest_prefix_match_specificity() {
    let mut map = PrefixMap::new();
    map.insert(p(0x0a00_0000, 8), 'A');
    map.insert(p(0x0a01_0000, 16), 'B');
    assert_eq!(
        map.get_longest_match(&p(0x0a01_0203, 32)),
        Some((&p(0x0a01_0000, 16), &'B'))
    );
    assert_eq!(
        map.get_longest_match(&p(0x0a02_0304, 32)),
        Some((&p(0x0a00_0000, 8), &'A'))
    );
    assert_eq!(map.get_longest_match(&p(0x0b00_0000, 32)), None);
}

#[test]
fn default_route() {
    let mut map = PrefixMap::new();
    map.insert(p(0, 0), 'D');
    for addr in [0u32, 1, 0x0a00_0001, 0x7fff_ffff, 0x8000_0000, 0xc0a8_0101, 0xffff_ffff] {
        assert_eq!(map.get_longest_match(&p(addr, 32)), Some((&p(0, 0), &'D')));
        assert_eq!(map.get_longest_match(&p(addr, 9)), Some((&p(0, 0), &'D')));
    }
    assert_eq!(map.get_longest_match(&p(0, 0)), Some((&p(0, 0), &'D')));
    assert_eq!(map.get(&p(0, 0)), Some(&'D'));
    assert_eq!(map.remove(&p(0, 0)), Some('D'));
    assert_eq!(map.get_longest_match(&p(0x0a00_0001, 32)), None);
}

#[test]
fn exact_host() {
    let mut map = PrefixMap::new();
    map.insert(p(0xc0a8_0101, 32), 'H');
    assert_eq!(map.get(&p(0xc0a8_0101, 32)), Some(&'H'));
    assert_eq!(map.get_longest_match(&p(0xc0a8_0102, 32)), None);
    assert_eq!(
        map.get_longest_match(&p(0xc0a8_0101, 32)),
        Some((&p(0xc0a8_0101, 32), &'H'))
    );
    map.insert(p(0xc0a8_0100, 24), 'N');
    assert_eq!(
        map.get_longest_match(&p(0xc0a8_0102, 32)),
        Some((&p(0xc0a8_0100, 24), &'N'))
    );
}

#[test]
fn a_query_shorter_than_an_entry_does_not_match_it() {
    let mut map = PrefixMap::new();
    map.insert(p(0x0a01_0000, 16), 1u32);
    assert_eq!(map.get_longest_match(&p(0x0a00_0000, 8)), None);
    assert_eq!(map.get_longest_match(&p(0x0a01_0000, 15)), None);
    assert_eq!(map.get_longest_match(&p(0x0a01_0000, 16)), Some((&p(0x0a01_0000, 16), &1)));
}

#[test]
fn a_fork_is_a_placeholder_without_a_value() {
    let mut map = PrefixMap::new();
    map.insert(p(0x0a01_0000, 16), 1u32);
    map.insert(p(0x0a02_0000, 16), 2);
    // The two entries part ways after 14 bits; the fork there holds nothing.
    assert_eq!(map.get(&p(0x0a00_0000, 14)), None);
    assert!(!map.contains_key(&p(0x0a00_0000, 14)));
    assert_eq!(map.get_longest_match(&p(0x0a00_0000, 14)), None);
    assert_eq!(map.get_longest_match(&p(0x0a03_0000, 16)), None);
    assert_eq!(map.remove(&p(0x0a00_0000, 14)), None);
    assert_eq!(map.entries().len(), 2);
    assert_eq!(map.get(&p(0x0a01_0000, 16)), Some(&1));
    assert_eq!(map.get(&p(0x0a02_0000, 16)), Some(&2));
}

#[test]
fn a_fork_takes_a_value_when_its_prefix_is_inserted() {
    let mut map = PrefixMap::new();
    map.insert(p(0x0a01_0000, 16), 1u32);
    map.insert(p(0x0a02_0000, 16), 2);
    assert_eq!(map.insert(p(0x0a00_0000, 14), 3), None);
    assert_eq!(map.get(&p(0x0a00_0000, 14)), Some(&3));
    assert_eq!(map.get_longest_match(&p(0x0a03_0000, 16)), Some((&p(0x0a00_0000, 14), &3)));
    assert_eq!(
        keys(map.entries()),
        vec![(0x0a00_0000, 14, 3), (0x0a01_0000, 16, 1), (0x0a02_0000, 16, 2)]
    );
    // With its value removed the fork stays, being a real fork.
    assert_eq!(map.remove(&p(0x0a00_0000, 14)), Some(3));
    assert_eq!(map.get(&p(0x0a01_0000, 16)), Some(&1));
    assert_eq!(map.get(&p(0x0a02_0000, 16)), Some(&2));
    assert_eq!(map.entries().len(), 2);
}

#[test]
fn a_prefix_between_two_nodes_takes_the_place_of_the_fork() {
    let mut map = PrefixMap::new();
    map.insert(p(0x0a01_0200, 24), 1u32);
    // 10.1.0.0/16 covers the entry: it goes in above it, and no fork is made.
    assert_eq!(map.insert(p(0x0a01_0000, 16), 2), None);
    assert_eq!(map.insert(p(0x0a00_0000, 8), 3), None);
    assert_eq!(
        keys(map.entries()),
        vec![(0x0a00_0000, 8, 3), (0x0a01_0000, 16, 2), (0x0a01_0200, 24, 1)]
    );
    assert_eq!(map.get_longest_match(&p(0x0a01_0203, 32)), Some((&p(0x0a01_0200, 24), &1)));
    assert_eq!(map.get_longest_match(&p(0x0a01_0303, 32)), Some((&p(0x0a01_0000, 16), &2)));
    assert_eq!(map.get_longest_match(&p(0x0a02_0303, 32)), Some((&p(0x0a00_0000, 8), &3)));
}

#[test]
fn removing_a_leaf_takes_its_fork_along() {
    let mut map = PrefixMap::new();
    map.insert(p(0x0a00_0000, 8), 0u32);
    map.insert(p(0x0a01_0000, 16), 1);
    map.insert(p(0x0a02_0000, 16), 2);
    assert_eq!(map.remove(&p(0x0a01_0000, 16)), Some(1));
    assert_eq!(keys(map.entries()), vec![(0x0a00_0000, 8, 0), (0x0a02_0000, 16, 2)]);
    assert_eq!(map.get_longest_match(&p(0x0a02_0001, 32)), Some((&p(0x0a02_0000, 16), &2)));
    assert_eq!(map.get_longest_match(&p(0x0a01_0001, 32)), Some((&p(0x0a00_0000, 8), &0)));
    assert_eq!(map.remove(&p(0x0a02_0000, 16)), Some(2));
    assert_eq!(keys(map.entries()), vec![(0x0a00_0000, 8, 0)]);
    assert_eq!(map.remove(&p(0x0a00_0000, 8)), Some(0));
    assert!(map.entries().is_empty());
}

#[test]
fn removing_a_node_with_one_child_keeps_the_child() {
    let mut map = PrefixMap::new();
    map.insert(p(0x0a00_0000, 8), 0u32);
    map.insert(p(0x0a01_0000, 16), 1);
    map.insert(p(0x0a01_0200, 24), 2);
    assert_eq!(map.remove(&p(0x0a01_0000, 16)), Some(1));
    assert_eq!(keys(map.entries()), vec![(0x0a00_0000, 8, 0), (0x0a01_0200, 24, 2)]);
    assert_eq!(map.get(&p(0x0a01_0200, 24)), Some(&2));
    assert_eq!(map.get(&p(0x0a01_0000, 16)), None);
    assert_eq!(map.get_longest_match(&p(0x0a01_0300, 24)), Some((&p(0x0a00_0000, 8), &0)));
    assert_eq!(map.remove(&p(0x0a00_0000, 8)), Some(0));
    assert_eq!(keys(map.entries()), vec![(0x0a01_0200, 24, 2)]);
}

#[test]
fn freed_slots_are_used_again() {
    let mut map = PrefixMap::new();
    for round in 0..50u32 {
        for i in 0..8u32 {
            assert_eq!(map.insert(p(i << 29, 3), round * 8 + i), None);
        }
        assert_eq!(map.entries().len(), 8);
        for i in 0..8u32 {
            assert_eq!(map.get(&p(i << 29, 3)), Some(&(round * 8 + i)));
        }
        for i in 0..8u32 {
            assert_eq!(map.remove(&p(i << 29, 3)), Some(round * 8 + i));
        }
        assert!(map.entries().is_empty());
    }
}

#[test]
fn entries_come_in_walk_order() {
    let mut map = PrefixMap::new();
    let input = [
        (0xc0a8_0100u32, 24u8),
        (0x0a00_0000, 8),
        (0, 0),
        (0x0a01_0000, 16),
        (0x8000_0000, 1),
        (0x0a00_0000, 9),
        (0x0a80_0000, 9),
        (0xc0a8_0101, 32),
        (0x0000_0000, 1),
    ];
    for (n, (addr, len)) in input.iter().enumerate() {
        map.insert(p(*addr, *len), n as u32);
    }
    assert_eq!(
        keys(map.entries()),
        vec![
            (0, 0, 2),
            (0x0000_0000, 1, 8),
            (0x0a00_0000, 8, 1),
            (0x0a00_0000, 9, 5),
            (0x0a01_0000, 16, 3),
            (0x0a80_0000, 9, 6),
            (0x8000_0000, 1, 4),
            (0xc0a8_0100, 24, 0),
            (0xc0a8_0101, 32, 7),
        ]
    );
}

#[test]
fn children_lists_what_lies_within_a_prefix() {
    let mut map = PrefixMap::new();
    map.insert(p(0x0a00_0000, 8), 1u32);
    map.insert(p(0x0a01_0000, 16), 2);
    map.insert(p(0x0a01_0200, 24), 3);
    map.insert(p(0x0a02_0000, 16), 4);
    map.insert(p(0x0b00_0000, 8), 5);
    assert_eq!(
        keys(map.children(&p(0x0a00_0000, 8))),
        vec![(0x0a00_0000, 8, 1), (0x0a01_0000, 16, 2), (0x0a01_0200, 24, 3), (0x0a02_0000, 16, 4)]
    );
    assert_eq!(
        keys(map.children(&p(0x0a01_0000, 16))),
        vec![(0x0a01_0000, 16, 2), (0x0a01_0200, 24, 3)]
    );
    // No node stands for 10.1.0.0/20; what lies within it hangs below 10.1.0.0/16.
    assert_eq!(keys(map.children(&p(0x0a01_0000, 20))), vec![(0x0a01_0200, 24, 3)]);
    // 10.0.0.0/12 is met between two nodes.
    assert_eq!(
        keys(map.children(&p(0x0a00_0000, 12))),
        vec![(0x0a01_0000, 16, 2), (0x0a01_0200, 24, 3), (0x0a02_0000, 16, 4)]
    );
    assert_eq!(keys(map.children(&p(0x0a03_0000, 16))), vec![]);
    assert_eq!(keys(map.children(&p(0x0c00_0000, 8))), vec![]);
    assert_eq!(keys(map.children(&p(0x0a01_0201, 32))), vec![]);
    assert_eq!(map.children(&p(0, 0)).len(), 5);
}

#[test]
fn cover_lists_what_contains_a_prefix() {
    let mut map = PrefixMap::new();
    map.insert(p(0, 0), 0u32);
    map.insert(p(0x0a00_0000, 8), 1);
    map.insert(p(0x0a01_0000, 16), 2);
    map.insert(p(0x0a01_0200, 24), 3);
    map.insert(p(0x0a02_0000, 16), 4);
    assert_eq!(
        keys(map.cover(&p(0x0a01_0203, 32))),
        vec![(0, 0, 0), (0x0a00_0000, 8, 1), (0x0a01_0000, 16, 2), (0x0a01_0200, 24, 3)]
    );
    assert_eq!(
        keys(map.cover(&p(0x0a01_0000, 16))),
        vec![(0, 0, 0), (0x0a00_0000, 8, 1), (0x0a01_0000, 16, 2)]
    );
    assert_eq!(keys(map.cover(&p(0x0a03_0000, 16))), vec![(0, 0, 0), (0x0a00_0000, 8, 1)]);
    assert_eq!(keys(map.cover(&p(0x0b00_0000, 8))), vec![(0, 0, 0)]);
    assert_eq!(keys(map.cover(&p(0, 0))), vec![(0, 0, 0)]);
    map.remove(&p(0, 0));
    assert_eq!(keys(map.cover(&p(0x0b00_0000, 8))), vec![]);
    // The fork above 10.1.0.0/16 and 10.2.0.0/16 holds no value and is not listed.
    assert_eq!(
        keys(map.cover(&p(0x0a02_0000, 16))),
        vec![(0x0a00_0000, 8, 1), (0x0a02_0000, 16, 4)]
    );
}

#[test]
fn values_need_not_be_copyable() {
    let mut map: PrefixMap<Ipv4Prefix, String> = PrefixMap::new();
    assert_eq!(map.insert(p(0x0a00_0000, 8), String::from("ten")), None);
    assert_eq!(
        map.insert(p(0x0a00_0000, 8), String::from("TEN")),
        Some(String::from("ten"))
    );
    assert_eq!(map.get(&p(0x0a00_0000, 8)).map(|s| s.as_str()), Some("TEN"));
    assert_eq!(map.remove(&p(0x0a00_0000, 8)), Some(String::from("TEN")));
}

struct Lcg(u64);

impl Lcg {
    fn next(&mut self) -> u32 {
        self.0 = self.0.wrapping_mul(6364136223846793005).wrapping_add(1442695040888963407);
        (self.0 >> 33) as u32
    }
}

fn mask(len: u8) -> u32 {
    if len == 0 {
        0
    } else {
        u32::MAX << (32 - len as u32)
    }
}

fn model_longest(model: &BTreeMap<(u32, u8), u32>, addr: u32, len: u8) -> Option<(u32, u8, u32)> {
    let mut l = len as i32;
    while l >= 0 {
        let key = (addr & mask(l as u8), l as u8);
        if let Some(v) = model.get(&key) {
            return Some((key.0, key.1, *v));
        }
        l -= 1;
    }
    None
}

fn walk_key(addr: u32, len: u8) -> Vec<bool> {
    (0..len).map(|i| (addr >> (31 - i as u32)) & 1 == 1).collect()
}

#[test]
fn the_trie_agrees_with_a_plain_map() {
    let mut rng = Lcg(42);
    let mut map: PrefixMap<Ipv4Prefix, u32> = PrefixMap::new();
    let mut model: BTreeMap<(u32, u8), u32> = BTreeMap::new();
    for step in 0..4000u32 {
        // A small universe, so that prefixes meet, nest and are removed again.
        let len = (rng.next() % 9) as u8;
        let addr = (rng.next() % 256) << 24;
        let key = (addr & mask(len), len);
        match rng.next() % 3 {
            0 | 1 => {
                assert_eq!(map.insert(p(addr, len), step), model.insert(key, step));
            }
            _ => {
                assert_eq!(map.remove(&p(addr, len)), model.remove(&key));
            }
        }
        let q_len = (rng.next() % 11) as u8;
        let q_addr = (rng.next() % 1024) << 22;
        let q = p(q_addr, q_len);
        assert_eq!(map.get(&q).copied(), model.get(&(q.addr(), q_len)).copied());
        assert_eq!(
            map.get_longest_match(&q).map(|(k, v)| (k.addr(), k.prefix_len(), *v)),
            model_longest(&model, q_addr, q_len)
        );
        if step % 50 == 0 {
            let listed = keys(map.entries());
            assert_eq!(listed.len(), model.len());
            for (a, l, v) in listed.iter() {
                assert_eq!(model.get(&(*a, *l)), Some(v));
            }
            for w in listed.windows(2) {
                assert!(walk_key(w[0].0, w[0].1) < walk_key(w[1].0, w[1].1));
            }
            let within = keys(map.children(&q));
            let expected: Vec<(u32, u8, u32)> = listed
                .iter()
                .filter(|(a, l, _)| *l >= q_len && (a & mask(q_len)) == q.addr())
                .cloned()
                .collect();
            assert_eq!(within, expected);
            let above = keys(map.cover(&q));
            let mut expected: Vec<(u32, u8, u32)> = listed
                .iter()
                .filter(|(a, l, _)| *l <= q_len && (q_addr & mask(*l)) == *a)
                .cloned()
                .collect();
            expected.sort_by_key(|e| e.1);
            assert_eq!(above, expected);
        }
    }
}
