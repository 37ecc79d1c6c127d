use prefix_trie::{free_prefix_trie, get, insert, new_prefix_trie, remove};

#[test]
fn test_1() {
    let mut map = new_prefix_trie();
    insert(&mut map, 3232235776, 24, 1);
    let _a = get(&map, 3232235777, 32);
    free_prefix_trie(map);
}

#[test]
fn test_2() {
    let mut map = new_prefix_trie();
    insert(&mut map, 3232235776, 24, 1);
    remove(&mut map, 3232235776, 24);
    assert_eq!(get(&map, 3232235777, 32), 0);
}

#[test]
fn lookup_finds_the_covering_rule() {
    let mut map = new_prefix_trie();
    assert_eq!(insert(&mut map, 3232235776, 24, 1), 0);
    assert_eq!(get(&map, 3232235777, 32), 1);
    assert_eq!(get(&map, 3232235776, 24), 1);
    assert_eq!(get(&map, 3232236033, 32), 0);
}

#[test]
fn lookup_in_an_empty_table_is_zero() {
    let map = new_prefix_trie();
    assert_eq!(get(&map, 0, 0), 0);
    assert_eq!(get(&map, 0xffff_ffff, 32), 0);
}

#[test]
fn insert_rejects_a_mask_over_32() {
    let mut map = new_prefix_trie();
    assert_eq!(insert(&mut map, 3232235776, 33, 2), 1);
    assert_eq!(insert(&mut map, 3232235776, 255, 2), 1);
    assert_eq!(get(&map, 3232235776, 32), 0);
    assert_eq!(map.entries().len(), 0);
}

#[test]
fn lookup_with_a_mask_over_32_is_one() {
    let mut map = new_prefix_trie();
    assert_eq!(get(&map, 3232235776, 33), 1);
    insert(&mut map, 0, 0, 2);
    assert_eq!(get(&map, 3232235776, 40), 1);
}

#[test]
fn remove_with_a_mask_over_32_changes_nothing() {
    let mut map = new_prefix_trie();
    insert(&mut map, 3232235776, 24, 2);
    remove(&mut map, 3232235776, 33);
    assert_eq!(get(&map, 3232235776, 24), 2);
    assert_eq!(map.entries().len(), 1);
}

#[test]
fn remove_of_an_absent_rule_changes_nothing() {
    let mut map = new_prefix_trie();
    insert(&mut map, 3232235776, 24, 2);
    remove(&mut map, 3232235776, 25);
    remove(&mut map, 3232235776, 23);
    remove(&mut map, 167772160, 8);
    assert_eq!(get(&map, 3232235777, 32), 2);
    assert_eq!(map.entries().len(), 1);
}

#[test]
fn insert_overwrites_the_action() {
    let mut map = new_prefix_trie();
    insert(&mut map, 3232235776, 24, 1);
    insert(&mut map, 3232235776, 24, 2);
    assert_eq!(get(&map, 3232235777, 32), 2);
    assert_eq!(map.entries().len(), 1);
}

#[test]
fn host_bits_of_a_rule_do_not_count() {
    let mut map = new_prefix_trie();
    insert(&mut map, 3232235777, 24, 1);
    assert_eq!(get(&map, 3232235900, 32), 1);
    insert(&mut map, 3232235999, 24, 2);
    assert_eq!(get(&map, 3232235900, 32), 2);
    assert_eq!(map.entries().len(), 1);
}

#[test]
fn the_most_specific_rule_wins() {
    let mut map = new_prefix_trie();
    insert(&mut map, 0x0a00_0000, 8, 1);
    insert(&mut map, 0x0a01_0000, 16, 2);
    assert_eq!(get(&map, 0x0a01_0203, 32), 2);
    assert_eq!(get(&map, 0x0a02_0304, 32), 1);
    assert_eq!(get(&map, 0x0b00_0000, 32), 0);
    assert_eq!(get(&map, 0x0a01_0000, 16), 2);
    assert_eq!(get(&map, 0x0a01_0000, 15), 1);
    assert_eq!(get(&map, 0x0a00_0000, 7), 0);
}

#[test]
fn actions_up_to_255_are_kept() {
    let mut map = new_prefix_trie();
    insert(&mut map, 0x0a00_0000, 8, 255);
    insert(&mut map, 0x0b00_0000, 8, 0);
    assert_eq!(get(&map, 0x0a00_0001, 32), 255);
    assert_eq!(get(&map, 0x0b00_0001, 32), 0);
}
