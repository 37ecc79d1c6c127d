//! IPv4 prefixes: 32-bit addresses with a mask length, as a key type for the
//! trie.

use vstd::prelude::*;
use vstd::std_specs::bits::axiom_u32_leading_zeros;
use crate::prefix::Prefix;
use crate::prefix::is_common_length;
use crate::prefix::lemma_common_length_unique;
use crate::prefix::lemma_covers_common_length;
use crate::prefix::lemma_common_length_symmetric;

verus! {

/// `ipnet::PrefixLenError`, with which `ipnet` refuses a mask length. It is
/// handed on as it comes and never looked into.
#[verifier::external_type_specification]
#[verifier::external_body]
pub struct ExPrefixLenError(ipnet::PrefixLenError);

/// Why an address and a mask length do not make a prefix.
#[derive(Clone, Copy, Debug, PartialEq, Eq)]
pub enum PrefixError {
    /// The mask length is greater than the 32 bits of an address.
    LengthOutOfRange,
}

/// The network mask of a given length: the leading `len` bits set.
pub open spec fn netmask(len: u8) -> u32 {
    if len == 0 {
        0
    } else if len >= 32 {
        0xffff_ffff
    } else {
        0xffff_ffffu32 << ((32 - len) as u32)
    }
}

/// Bit `i` of an address, counted from the most significant bit.
pub open spec fn bit_of(addr: u32, i: int) -> bool {
    0 <= i < 32 && (addr >> ((31 - i) as u32)) & 1 == 1
}

/// The leading `len` bits of an address.
pub open spec fn ipv4_bits(addr: u32, len: u8) -> Seq<bool> {
    Seq::new(len as nat, |i: int| bit_of(addr, i))
}

/// The network address of `addr` under a mask of `prefix_len` bits, as
/// `ipnet` computes it.
///
/// Calls `ipnet::Ipv4Net::new`, which accepts a mask length of at most 32 and
/// fails with `PrefixLenError` on any other, and on the network it made
/// `Ipv4Net::network`, which clears every bit of the address behind the
/// leading `prefix_len` bits.
#[verifier::external_body]
fn network_address(addr: u32, prefix_len: u8) -> (r: Result<u32, ipnet::PrefixLenError>)
    ensures
        r is Ok <==> prefix_len <= 32,
        r is Ok ==> r->Ok_0 == addr & netmask(prefix_len),
{
    match ipnet::Ipv4Net::new(addr.into(), prefix_len) {
        Ok(net) => Ok(net.network().into()),
        Err(e) => Err(e),
    }
}

proof fn lemma_mask_keeps_bit(addr: u32, shift: u32, pos: u32)
    requires
        shift <= pos < 32,
    ensures
        ((addr & (0xffff_ffffu32 << shift)) >> pos) & 1 == (addr >> pos) & 1,
{
    assert(shift <= pos < 32 ==> ((addr & (0xffff_ffffu32 << shift)) >> pos) & 1 == (addr >> pos)
        & 1) by (bit_vector);
}

proof fn lemma_mask_twice(addr: u32, mask: u32)
    ensures
        (addr & mask) & mask == addr & mask,
{
    assert((addr & mask) & mask == addr & mask) by (bit_vector);
}

proof fn lemma_differing_bit(a: u32, b: u32, pos: u32)
    requires
        pos < 32,
    ensures
        (((a ^ b) >> pos) & 1 == 0) <==> ((a >> pos) & 1 == 1 <==> (b >> pos) & 1 == 1),
{
    assert(pos < 32 ==> ((((a ^ b) >> pos) & 1 == 0) <==> ((a >> pos) & 1 == 1 <==> (b >> pos) & 1
        == 1))) by (bit_vector);
}

/// Masking an address keeps its leading bits.
proof fn lemma_masked_bits(addr: u32, len: u8)
    requires
        len <= 32,
    ensures
        ipv4_bits(addr & netmask(len), len) == ipv4_bits(addr, len),
        (addr & netmask(len)) & netmask(len) == addr & netmask(len),
{
    lemma_mask_twice(addr, netmask(len));
    assert forall|i: int| 0 <= i < len implies bit_of(addr & netmask(len), i) == bit_of(
        addr,
        i,
    ) by {
        lemma_mask_keeps_bit(addr, (32 - len) as u32, (31 - i) as u32);
        assert(0xffff_ffffu32 << 0u32 == 0xffff_ffffu32) by (bit_vector);
    }
    assert(ipv4_bits(addr & netmask(len), len) =~= ipv4_bits(addr, len));
}

proof fn lemma_mask_clears_bit(addr: u32, shift: u32, pos: u32)
    requires
        pos < shift < 32,
    ensures
        ((addr & (0xffff_ffffu32 << shift)) >> pos) & 1 == 0,
{
    assert(pos < shift < 32 ==> ((addr & (0xffff_ffffu32 << shift)) >> pos) & 1 == 0)
        by (bit_vector);
}

/// Two masked addresses whose leading `len` bits agree are the same address.
proof fn lemma_bits_decide(a: u32, b: u32, len: u8)
    requires
        len <= 32,
        a & netmask(len) == a,
        b & netmask(len) == b,
        ipv4_bits(a, len) == ipv4_bits(b, len),
    ensures
        a == b,
{
    let x = a ^ b;
    axiom_u32_leading_zeros(x);
    let first = x.leading_zeros();
    if first < 32 {
        let pos = (31 - first) as u32;
        assert((x >> pos) & 1u32 != 0u32);
        lemma_differing_bit(a, b, pos);
        if first < len {
            assert(ipv4_bits(a, len)[first as int] == bit_of(a, first as int));
            assert(ipv4_bits(b, len)[first as int] == bit_of(b, first as int));
        } else if len == 0 {
            assert(a & 0u32 == 0u32) by (bit_vector);
            assert(b & 0u32 == 0u32) by (bit_vector);
        } else {
            lemma_mask_clears_bit(a, (32 - len) as u32, pos);
            lemma_mask_clears_bit(b, (32 - len) as u32, pos);
        }
        assert(false);
    }
    assert(x == 0);
    assert((a ^ b) == 0 ==> a == b) by (bit_vector);
}

/// An IPv4 prefix: a network address and the number of its leading bits that
/// count. The bits behind them are kept at zero.
#[derive(Clone, Copy, Debug, PartialEq, Eq)]
pub struct Ipv4Prefix {
    addr: u32,
    len: u8,
}

impl Ipv4Prefix {
    #[verifier::type_invariant]
    spec fn canonical(self) -> bool {
        &&& self.len <= 32
        &&& self.addr & netmask(self.len) == self.addr
    }

    /// The network address.
    pub closed spec fn network(self) -> u32 {
        self.addr
    }

    /// The prefix of the given mask length that `addr` lies in. A mask length
    /// of more than 32 is refused.
    pub fn new(addr: u32, prefix_len: u8) -> (r: Result<Ipv4Prefix, PrefixError>)
        ensures
            match r {
                Ok(p) => {
                    &&& prefix_len <= 32
                    &&& p.bits() == ipv4_bits(addr, prefix_len)
                    &&& p.network() == addr & netmask(prefix_len)
                },
                Err(e) => prefix_len > 32 && e == PrefixError::LengthOutOfRange,
            },
    {
        match network_address(addr, prefix_len) {
            Ok(network) => {
                proof {
                    lemma_masked_bits(addr, prefix_len);
                }
                Ok(Ipv4Prefix { addr: network, len: prefix_len })
            },
            Err(_) => Err(PrefixError::LengthOutOfRange),
        }
    }

    /// Whether `self` and `other` are the same prefix. Two prefixes with the
    /// same bits are the same value.
    pub fn same_as(&self, other: &Ipv4Prefix) -> (r: bool)
        ensures
            r == (self.bits() == other.bits()),
            r == (*self == *other),
    {
        proof {
            use_type_invariant(self);
            use_type_invariant(other);
            if self.bits() == other.bits() {
                assert(self.bits().len() == other.bits().len());
                lemma_bits_decide(self.addr, other.addr, self.len);
            }
        }
        self.addr == other.addr && self.len == other.len
    }

    /// The network address: the address that the prefix was made from, with
    /// every bit behind the mask cleared.
    pub fn addr(&self) -> (r: u32)
        ensures
            r == self.network(),
            r & netmask(self.bits().len() as u8) == r,
            self.bits() == ipv4_bits(r, self.bits().len() as u8),
    {
        proof {
            use_type_invariant(self);
        }
        self.addr
    }
}

impl Prefix for Ipv4Prefix {
    closed spec fn bits(&self) -> Seq<bool> {
        ipv4_bits(self.addr, self.len)
    }

    proof fn lemma_bits_bounded(&self) {
    }

    fn zero() -> (r: Self) {
        assert(0u32 & 0u32 == 0u32) by (bit_vector);
        Ipv4Prefix { addr: 0, len: 0 }
    }

    fn prefix_len(&self) -> (r: u8) {
        self.len
    }

    fn is_bit_set(&self, position: u8) -> (r: bool) {
        proof {
            use_type_invariant(self);
        }
        (self.addr >> (31 - position as u32)) & 1 == 1
    }

    fn contains(&self, other: &Self) -> (r: bool) {
        proof {
            lemma_covers_common_length(self.bits(), other.bits());
            lemma_common_length_symmetric(self.bits(), other.bits());
        }
        self.len <= other.len && self.common_length(other) >= self.len
    }

    fn common_length(&self, other: &Self) -> (r: u8) {
        proof {
            use_type_invariant(self);
            use_type_invariant(other);
        }
        let differing: u32 = (self.addr ^ other.addr).leading_zeros();
        let shortest: u8 = if self.len < other.len {
            self.len
        } else {
            other.len
        };
        let r: u8 = if differing < shortest as u32 {
            differing as u8
        } else {
            shortest
        };
        proof {
            let x = self.addr ^ other.addr;
            axiom_u32_leading_zeros(x);
            assert forall|i: int| 0 <= i < r implies self.bits()[i] == other.bits()[i] by {
                let pos = (31 - i) as u32;
                assert((x >> pos) & 1u32 == 0u32);
                lemma_differing_bit(self.addr, other.addr, pos);
            }
            if r < self.len && r < other.len {
                let pos = (31 - r) as u32;
                assert(differing == r);
                assert((x >> pos) & 1u32 != 0u32);
                lemma_differing_bit(self.addr, other.addr, pos);
            }
            assert(is_common_length(self.bits(), other.bits(), r as int));
            lemma_common_length_unique(self.bits(), other.bits(), r as int);
        }
        r
    }

    fn truncate(&self, len: u8) -> (r: Self) {
        proof {
            use_type_invariant(self);
            lemma_masked_bits(self.addr, len);
            assert(ipv4_bits(self.addr, len) =~= self.bits().take(len as int));
        }
        let mask: u32 = if len == 0 {
            0
        } else {
            0xffff_ffffu32 << (32 - len as u32)
        };
        proof {
            assert(0xffff_ffffu32 << 0u32 == 0xffff_ffffu32) by (bit_vector);
            assert(mask == netmask(len));
        }
        Ipv4Prefix { addr: self.addr & mask, len }
    }
}

} // verus!
