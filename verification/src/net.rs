//! Addresses and address blocks.

use vstd::prelude::*;

verus! {

/// An IPv4 address.
#[derive(Clone, Copy, Debug, PartialEq, Eq, PartialOrd, Ord, Hash, Structural)]
pub struct Ipv4Addr {
    /// The four octets, the first one in the highest bits.
    pub bits: u32,
}

/// An IPv6 address.
#[derive(Clone, Copy, Debug, PartialEq, Eq, PartialOrd, Ord, Hash, Structural)]
pub struct Ipv6Addr {
    /// The eight segments, the first one in the highest bits.
    pub bits: u128,
}

/// An address of either family.
#[derive(Clone, Copy, Debug, PartialEq, Eq, PartialOrd, Ord, Hash, Structural)]
pub enum IpAddr {
    V4(Ipv4Addr),
    V6(Ipv6Addr),
}

/// A block of addresses: those that share with the given address as many of its
/// first bits as the prefix length says.
#[derive(Clone, Copy, Debug, PartialEq, Eq, Structural)]
pub enum IpNetwork {
    V4(Ipv4Addr, u8),
    V6(Ipv6Addr, u8),
}

impl IpNetwork {
    /// The prefix is no longer than an address.
    pub open spec fn wf(self) -> bool {
        match self {
            IpNetwork::V4(_, prefix_len) => prefix_len <= 32,
            IpNetwork::V6(_, prefix_len) => prefix_len <= 128,
        }
    }
}

/// The first `n` elements of `s`, or all where it has fewer.
pub open spec fn at_most<T>(s: Seq<T>, n: nat) -> Seq<T> {
    if n <= s.len() {
        s.take(n as int)
    } else {
        s
    }
}

/// The host addresses of an IPv4 block in ascending order. The first and the
/// last address of a block are no hosts, unless the prefix has 31 or 32 bits.
pub open spec fn v4_hosts(addr: Ipv4Addr, prefix_len: u8) -> Seq<Ipv4Addr> {
    let size = vstd::arithmetic::power2::pow2((32 - prefix_len) as nat);
    let first = addr.bits as int - addr.bits as int % size as int;
    if prefix_len < 31 {
        Seq::new((size - 2) as nat, |i: int| Ipv4Addr { bits: (first + 1 + i) as u32 })
    } else {
        Seq::new(size, |i: int| Ipv4Addr { bits: (first + i) as u32 })
    }
}

/// The host addresses of an IPv6 block in ascending order: every address of it.
pub open spec fn v6_hosts(addr: Ipv6Addr, prefix_len: u8) -> Seq<Ipv6Addr> {
    let size = vstd::arithmetic::power2::pow2((128 - prefix_len) as nat);
    let first = addr.bits as int - addr.bits as int % size as int;
    Seq::new(size, |i: int| Ipv6Addr { bits: (first + i) as u128 })
}

/// The iterator that `ipnet` gives over addresses of an IPv4 block.
#[verifier::external_type_specification]
#[verifier::external_body]
pub struct ExIpv4AddrRange(ipnet::Ipv4AddrRange);

/// The iterator that `ipnet` gives over addresses of an IPv6 block.
#[verifier::external_type_specification]
#[verifier::external_body]
pub struct ExIpv6AddrRange(ipnet::Ipv6AddrRange);

/// The addresses that an IPv4 range has not handed out yet, in its order.
pub uninterp spec fn v4_addresses(range: ipnet::Ipv4AddrRange) -> Seq<Ipv4Addr>;

/// The addresses that an IPv6 range has not handed out yet, in its order.
pub uninterp spec fn v6_addresses(range: ipnet::Ipv6AddrRange) -> Seq<Ipv6Addr>;

/// The block that a text denotes in the notation `address/prefix length`, as
/// `ipnet::IpNet` reads it; `None` where it reads none.
pub uninterp spec fn ip_net_of(text: Seq<char>) -> Option<IpNetwork>;

/// The address that a text denotes, as the standard library reads an address
/// of either family; `None` where it reads none.
pub uninterp spec fn ip_addr_of(text: Seq<char>) -> Option<IpAddr>;

/// `<ipnet::IpNet as FromStr>::from_str`: the block read from a text depends on
/// the text alone, and its prefix is no longer than an address of its family.
/// What texts denote which block is left to `ip_net_of`.
#[verifier::external_body]
pub(crate) fn parse_ip_net(text: &str) -> (r: Option<IpNetwork>)
    ensures
        r == ip_net_of(text@),
        r matches Some(net) ==> net.wf(),
{
    match text.parse::<ipnet::IpNet>() {
        Ok(ipnet::IpNet::V4(net)) => Some(
            IpNetwork::V4(Ipv4Addr { bits: net.addr().into() }, net.prefix_len()),
        ),
        Ok(ipnet::IpNet::V6(net)) => Some(
            IpNetwork::V6(Ipv6Addr { bits: net.addr().into() }, net.prefix_len()),
        ),
        Err(_) => None,
    }
}

/// `str::parse` for the standard library's address type: the address read from
/// a text depends on the text alone. What texts denote which address is left to
/// `ip_addr_of`. `ipnet::IpNet::new` with the prefix length 0, which it never
/// rejects, keeps the address as it is and tells the two families apart.
#[verifier::external_body]
pub(crate) fn parse_ip_addr(text: &str) -> (r: Option<IpAddr>)
    ensures
        r == ip_addr_of(text@),
{
    match ipnet::IpNet::new(text.parse().ok()?, 0) {
        Ok(ipnet::IpNet::V4(net)) => Some(IpAddr::V4(Ipv4Addr { bits: net.addr().into() })),
        Ok(ipnet::IpNet::V6(net)) => Some(IpAddr::V6(Ipv6Addr { bits: net.addr().into() })),
        Err(_) => None,
    }
}

/// `ipnet::Ipv4Net::hosts`: a range over the host addresses of the block in
/// ascending order.
#[verifier::external_body]
pub(crate) fn ipv4_hosts(addr: Ipv4Addr, prefix_len: u8) -> (r: ipnet::Ipv4AddrRange)
    requires
        prefix_len <= 32,
    ensures
        v4_addresses(r) == v4_hosts(addr, prefix_len),
{
    ipnet::Ipv4Net::new_assert(addr.bits.into(), prefix_len).hosts()
}

/// `ipnet::Ipv6Net::hosts`: a range over every address of the block in
/// ascending order.
#[verifier::external_body]
pub(crate) fn ipv6_hosts(addr: Ipv6Addr, prefix_len: u8) -> (r: ipnet::Ipv6AddrRange)
    requires
        prefix_len <= 128,
    ensures
        v6_addresses(r) == v6_hosts(addr, prefix_len),
{
    ipnet::Ipv6Net::new_assert(addr.bits.into(), prefix_len).hosts()
}

/// `<ipnet::Ipv4AddrRange as Iterator>::next`: hands out the first address that
/// is left and drops it from the range; nothing from an empty range.
#[verifier::external_body]
pub(crate) fn next_ipv4(range: &mut ipnet::Ipv4AddrRange) -> (r: Option<Ipv4Addr>)
    ensures
        v4_addresses(*old(range)).len() == 0 ==> r is None && v4_addresses(*final(range)).len() == 0,
        v4_addresses(*old(range)).len() > 0 ==> {
            &&& r == Some(v4_addresses(*old(range))[0])
            &&& v4_addresses(*final(range)) == v4_addresses(*old(range)).drop_first()
        },
{
    range.next().map(|addr| Ipv4Addr { bits: addr.into() })
}

/// `<ipnet::Ipv6AddrRange as Iterator>::next`: hands out the first address that
/// is left and drops it from the range; nothing from an empty range.
#[verifier::external_body]
pub(crate) fn next_ipv6(range: &mut ipnet::Ipv6AddrRange) -> (r: Option<Ipv6Addr>)
    ensures
        v6_addresses(*old(range)).len() == 0 ==> r is None && v6_addresses(*final(range)).len() == 0,
        v6_addresses(*old(range)).len() > 0 ==> {
            &&& r == Some(v6_addresses(*old(range))[0])
            &&& v6_addresses(*final(range)) == v6_addresses(*old(range)).drop_first()
        },
{
    range.next().map(|addr| Ipv6Addr { bits: addr.into() })
}

/// Appends the first `limit` host addresses of an IPv4 block to `out`.
pub fn push_v4_hosts(out: &mut Vec<Ipv4Addr>, addr: Ipv4Addr, prefix_len: u8, limit: usize)
    requires
        prefix_len <= 32,
    ensures
        final(out)@ == old(out)@ + at_most(v4_hosts(addr, prefix_len), limit as nat),
{
    let mut range = ipv4_hosts(addr, prefix_len);
    let ghost all = v4_hosts(addr, prefix_len);
    let mut taken: usize = 0;
    while taken < limit
        invariant_except_break
            taken <= limit,
            taken <= all.len(),
            v4_addresses(range) == all.skip(taken as int),
            out@ == old(out)@ + all.take(taken as int),
        ensures
            out@ == old(out)@ + at_most(all, limit as nat),
        decreases limit - taken,
    {
        match next_ipv4(&mut range) {
            Some(ip) => {
                out.push(ip);
                taken = taken + 1;
                assert(out@ =~= old(out)@ + all.take(taken as int));
                assert(all.skip(taken - 1).drop_first() =~= all.skip(taken as int));
            },
            None => {
                assert(all.take(taken as int) =~= all);
                break;
            },
        }
    }
}

/// Appends the first `limit` host addresses of an IPv6 block to `out`.
pub fn push_v6_hosts(out: &mut Vec<Ipv6Addr>, addr: Ipv6Addr, prefix_len: u8, limit: usize)
    requires
        prefix_len <= 128,
    ensures
        final(out)@ == old(out)@ + at_most(v6_hosts(addr, prefix_len), limit as nat),
{
    let mut range = ipv6_hosts(addr, prefix_len);
    let ghost all = v6_hosts(addr, prefix_len);
    let mut taken: usize = 0;
    while taken < limit
        invariant_except_break
            taken <= limit,
            taken <= all.len(),
            v6_addresses(range) == all.skip(taken as int),
            out@ == old(out)@ + all.take(taken as int),
        ensures
            out@ == old(out)@ + at_most(all, limit as nat),
        decreases limit - taken,
    {
        match next_ipv6(&mut range) {
            Some(ip) => {
                out.push(ip);
                taken = taken + 1;
                assert(out@ =~= old(out)@ + all.take(taken as int));
                assert(all.skip(taken - 1).drop_first() =~= all.skip(taken as int));
            },
            None => {
                assert(all.take(taken as int) =~= all);
                break;
            },
        }
    }
}

/// The first elements of a sequence are as many as were asked for, or all, in order.
pub proof fn law_at_most_takes_the_first<T>(s: Seq<T>, n: nat)
    ensures
        at_most(s, n).len() == if s.len() < n {
            s.len()
        } else {
            n
        },
        forall|i: int| 0 <= i < at_most(s, n).len() ==> #[trigger] at_most(s, n)[i] == s[i],
{
}

/// The last block of `size` addresses ends where the addresses end.
proof fn lemma_block_fits(a: int, size: int, blocks: int)
    requires
        0 < size,
        0 <= a < size * blocks,
    ensures
        0 <= a - a % size,
        a - a % size + size <= size * blocks,
        a - a % size == (a / size) * size,
{
    vstd::arithmetic::div_mod::lemma_fundamental_div_mod(a, size);
    let q = a / size;
    assert(a - a % size == q * size) by (nonlinear_arith)
        requires
            a == size * q + a % size,
    ;
    assert(0 <= a % size < size) by (nonlinear_arith)
        requires
            0 < size,
    ;
    assert(0 <= q && q < blocks) by (nonlinear_arith)
        requires
            0 < size,
            0 <= a < size * blocks,
            a == size * q + a % size,
            0 <= a % size < size,
    ;
    assert(q * size + size <= size * blocks) by (nonlinear_arith)
        requires
            0 < size,
            q + 1 <= blocks,
    ;
    assert(0 <= q * size) by (nonlinear_arith)
        requires
            0 < size,
            0 <= q,
    ;
}

/// Two numbers are in the same block of `size` exactly if one is not before the start of
/// the block of the other, nor at or after its end.
proof fn lemma_same_block(a: int, x: int, size: int)
    requires
        0 < size,
        0 <= a,
        0 <= x,
    ensures
        x / size == a / size <==> (a / size) * size <= x < (a / size) * size + size,
        x / size == a / size ==> x % size == x - (a / size) * size,
{
    vstd::arithmetic::div_mod::lemma_fundamental_div_mod(x, size);
    let q = a / size;
    let p = x / size;
    assert(0 <= x % size < size) by (nonlinear_arith)
        requires
            0 < size,
    ;
    assert(size * p == p * size) by (nonlinear_arith);
    if q * size <= x < q * size + size {
        assert(p == q) by (nonlinear_arith)
            requires
                0 < size,
                x == p * size + x % size,
                0 <= x % size < size,
                q * size <= x < q * size + size,
        ;
    }
}

/// The host addresses of an IPv4 block are the addresses that share its prefix, but for
/// the first and the last of them where the prefix has fewer than 31 bits; each comes
/// once, one after the other.
pub proof fn law_ipv4_hosts_share_the_prefix(addr: Ipv4Addr, prefix_len: u8)
    requires
        prefix_len <= 32,
    ensures
        ({
            let size = vstd::arithmetic::power2::pow2((32 - prefix_len) as nat) as int;
            let hosts = v4_hosts(addr, prefix_len);
            &&& hosts.len() == if prefix_len < 31 {
                size - 2
            } else {
                size
            }
            &&& forall|i: int|
                0 <= i < hosts.len() ==> {
                    let host = (#[trigger] hosts[i]).bits as int;
                    &&& host / size == addr.bits as int / size
                    &&& host % size == if prefix_len < 31 {
                        i + 1
                    } else {
                        i
                    }
                }
        }),
{
    let size = vstd::arithmetic::power2::pow2((32 - prefix_len) as nat) as int;
    let blocks = vstd::arithmetic::power2::pow2(prefix_len as nat) as int;
    let a = addr.bits as int;
    vstd::arithmetic::power2::lemma_pow2_pos((32 - prefix_len) as nat);
    vstd::arithmetic::power2::lemma_pow2_adds((32 - prefix_len) as nat, prefix_len as nat);
    vstd::arithmetic::power2::lemma2_to64();
    assert(size * blocks == 0x1_0000_0000);
    if prefix_len < 31 {
        vstd::arithmetic::power2::lemma_pow2_adds((30 - prefix_len) as nat, 2);
        vstd::arithmetic::power2::lemma_pow2_pos((30 - prefix_len) as nat);
    }
    lemma_block_fits(a, size, blocks);
    let hosts = v4_hosts(addr, prefix_len);
    let first = (a / size) * size;
    assert forall|i: int| 0 <= i < hosts.len() implies ({
        let host = (#[trigger] hosts[i]).bits as int;
        &&& host / size == a / size
        &&& host % size == if prefix_len < 31 {
            i + 1
        } else {
            i
        }
    }) by {
        let host = hosts[i].bits as int;
        assert(host == first + if prefix_len < 31 {
            i + 1
        } else {
            i
        });
        lemma_same_block(a, host, size);
    }
}

/// The host addresses of an IPv6 block are the addresses that share its prefix; each
/// comes once, one after the other.
pub proof fn law_ipv6_hosts_share_the_prefix(addr: Ipv6Addr, prefix_len: u8)
    requires
        prefix_len <= 128,
    ensures
        ({
            let size = vstd::arithmetic::power2::pow2((128 - prefix_len) as nat) as int;
            let hosts = v6_hosts(addr, prefix_len);
            &&& hosts.len() == size
            &&& forall|i: int|
                0 <= i < hosts.len() ==> {
                    let host = (#[trigger] hosts[i]).bits as int;
                    host / size == addr.bits as int / size && host % size == i
                }
        }),
{
    let size = vstd::arithmetic::power2::pow2((128 - prefix_len) as nat) as int;
    let blocks = vstd::arithmetic::power2::pow2(prefix_len as nat) as int;
    let a = addr.bits as int;
    vstd::arithmetic::power2::lemma_pow2_pos((128 - prefix_len) as nat);
    vstd::arithmetic::power2::lemma_pow2_adds((128 - prefix_len) as nat, prefix_len as nat);
    vstd::arithmetic::power2::lemma_pow2_adds(64, 64);
    vstd::arithmetic::power2::lemma2_to64();
    assert(size * blocks == 0x1_0000_0000_0000_0000_0000_0000_0000_0000);
    lemma_block_fits(a, size, blocks);
    let hosts = v6_hosts(addr, prefix_len);
    let first = (a / size) * size;
    assert forall|i: int| 0 <= i < hosts.len() implies ({
        let host = (#[trigger] hosts[i]).bits as int;
        host / size == a / size && host % size == i
    }) by {
        let host = hosts[i].bits as int;
        assert(host == first + i);
        lemma_same_block(a, host, size);
    }
}

} // verus!
