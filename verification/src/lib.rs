//! A compressed binary trie keyed by address prefixes, with exact lookup,
//! longest-prefix match, insertion, removal and ordered traversal.
//!
//! `PrefixMap` and `PrefixSet` work over any key type with the `Prefix`
//! capability; `Ipv4Prefix` is such a type. The functions of this file are the
//! trie as a rule table for IPv4: prefixes are given as a raw address and a
//! mask length, and the values are small action codes.

pub mod prefix;
pub mod shape;
pub mod edits;
pub mod model;
pub mod listing;
pub mod map;
pub mod set;
pub mod ipv4;

pub use prefix::Prefix;
pub use prefix::to_right;
pub use map::PrefixMap;
pub use set::PrefixSet;
pub use ipv4::Ipv4Prefix;
pub use ipv4::PrefixError;

use vstd::prelude::*;
use ipv4::ipv4_bits;
use model::longest_match;

verus! {

/// What a lookup answers: 1 where the mask length is no mask length, else the
/// action of the most specific rule that covers the queried prefix, and 0
/// where no rule does.
pub open spec fn action_for(rules: Map<Seq<bool>, u32>, ipv4_addr: u32, netmask: u8) -> u32 {
    if netmask > 32 {
        1
    } else {
        match longest_match(rules.dom(), ipv4_bits(ipv4_addr, netmask)) {
            Some(k) => rules[k],
            None => 0,
        }
    }
}

/// A new, empty rule table.
pub fn new_prefix_trie() -> (r: PrefixMap<Ipv4Prefix, u32>)
    ensures
        r.wf(),
        r@ == Map::<Seq<bool>, u32>::empty(),
{
    PrefixMap::new()
}

/// Gives up a rule table and everything in it.
pub fn free_prefix_trie(prefix_map: PrefixMap<Ipv4Prefix, u32>) {
}

/// Stores `action` as the rule for the prefix of `netmask` bits that
/// `ipv4_addr` lies in, in place of any rule that was there. Returns 0, or 1
/// where `netmask` is more than 32, in which case the table is left alone.
pub fn insert(prefix_map: &mut PrefixMap<Ipv4Prefix, u32>, ipv4_addr: u32, netmask: u8, action: u8) -> (r:
    i32)
    requires
        old(prefix_map).wf(),
    ensures
        final(prefix_map).wf(),
        netmask <= 32 ==> r == 0 && final(prefix_map)@ == old(prefix_map)@.insert(
            ipv4_bits(ipv4_addr, netmask),
            action as u32,
        ),
        netmask > 32 ==> r == 1 && final(prefix_map)@ == old(prefix_map)@,
{
    match Ipv4Prefix::new(ipv4_addr, netmask) {
        Ok(prefix) => {
            prefix_map.insert(prefix, action as u32);
            0
        },
        Err(_) => 1,
    }
}

/// The action of the most specific rule whose prefix covers the prefix of
/// `netmask` bits that `ipv4_addr` lies in; 0 where no rule covers it, and 1
/// where `netmask` is more than 32.
pub fn get(prefix_map: &PrefixMap<Ipv4Prefix, u32>, ipv4_addr: u32, netmask: u8) -> (r: u32)
    requires
        prefix_map.wf(),
    ensures
        r == action_for(prefix_map@, ipv4_addr, netmask),
{
    match Ipv4Prefix::new(ipv4_addr, netmask) {
        Ok(prefix) => {
            match prefix_map.get_longest_match(&prefix) {
                Some((_, action)) => *action,
                None => 0,
            }
        },
        Err(_) => 1,
    }
}

/// Deletes the rule for exactly the prefix of `netmask` bits that `ipv4_addr`
/// lies in. The table is left alone where there is no such rule, and where
/// `netmask` is more than 32.
pub fn remove(prefix_map: &mut PrefixMap<Ipv4Prefix, u32>, ipv4_addr: u32, netmask: u8)
    requires
        old(prefix_map).wf(),
    ensures
        final(prefix_map).wf(),
        netmask <= 32 ==> final(prefix_map)@ == old(prefix_map)@.remove(
            ipv4_bits(ipv4_addr, netmask),
        ),
        netmask > 32 ==> final(prefix_map)@ == old(prefix_map)@,
{
    match Ipv4Prefix::new(ipv4_addr, netmask) {
        Ok(prefix) => {
            prefix_map.remove(&prefix);
        },
        Err(_) => {},
    }
}

} // verus!
