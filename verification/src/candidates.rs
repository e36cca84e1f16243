//! Which addresses are tested: reading the lists of candidates.

use vstd::prelude::*;

use crate::net;
use crate::net::{IpAddr, IpNetwork, Ipv4Addr, Ipv6Addr};
use crate::text;
use crate::text::CharClass;

verus! {

/// What a line of an address list states.
#[derive(Clone, Copy, Debug, PartialEq, Eq, Structural)]
pub enum ListEntry {
    /// The host addresses of a block.
    Network(IpNetwork),
    /// One address.
    Address(IpAddr),
    /// Nothing that can be read.
    Unreadable,
}

impl ListEntry {
    /// A block has a prefix no longer than an address.
    pub open spec fn wf(self) -> bool {
        self matches ListEntry::Network(network) ==> network.wf()
    }

    /// The addresses that the entry states, in order.
    pub open spec fn addresses(self) -> Seq<IpAddr> {
        match self {
            ListEntry::Network(IpNetwork::V4(addr, prefix_len)) => of_v4(
                net::v4_hosts(addr, prefix_len),
            ),
            ListEntry::Network(IpNetwork::V6(addr, prefix_len)) => of_v6(
                net::v6_hosts(addr, prefix_len),
            ),
            ListEntry::Address(ip) => seq![ip],
            ListEntry::Unreadable => seq![],
        }
    }
}

/// IPv4 addresses as addresses of either family.
pub open spec fn of_v4(s: Seq<Ipv4Addr>) -> Seq<IpAddr> {
    s.map_values(|ip: Ipv4Addr| IpAddr::V4(ip))
}

/// IPv6 addresses as addresses of either family.
pub open spec fn of_v6(s: Seq<Ipv6Addr>) -> Seq<IpAddr> {
    s.map_values(|ip: Ipv6Addr| IpAddr::V6(ip))
}

/// The IPv4 addresses in `s`, in order.
pub open spec fn v4_in(s: Seq<IpAddr>) -> Seq<Ipv4Addr>
    decreases s.len(),
{
    if s.len() == 0 {
        seq![]
    } else {
        match s.last() {
            IpAddr::V4(ip) => v4_in(s.drop_last()).push(ip),
            IpAddr::V6(_) => v4_in(s.drop_last()),
        }
    }
}

/// The IPv6 addresses in `s`, in order.
pub open spec fn v6_in(s: Seq<IpAddr>) -> Seq<Ipv6Addr>
    decreases s.len(),
{
    if s.len() == 0 {
        seq![]
    } else {
        match s.last() {
            IpAddr::V4(_) => v6_in(s.drop_last()),
            IpAddr::V6(ip) => v6_in(s.drop_last()).push(ip),
        }
    }
}

/// What a text states: a block of addresses, or else an address.
pub open spec fn entry_of(text: Seq<char>) -> ListEntry {
    match net::ip_net_of(text) {
        Some(network) => ListEntry::Network(network),
        None => match net::ip_addr_of(text) {
            Some(ip) => ListEntry::Address(ip),
            None => ListEntry::Unreadable,
        },
    }
}

/// The line holds nothing, or a comment.
pub open spec fn is_skipped(line: Seq<char>) -> bool {
    line.len() == 0 || line[0] == '#'
}

/// The addresses that a line of an address list states, in order.
pub open spec fn listed_on(line: Seq<char>) -> Seq<IpAddr> {
    let trimmed = text::trim(line, CharClass::WhiteSpace);
    if is_skipped(trimmed) {
        seq![]
    } else {
        entry_of(trimmed).addresses()
    }
}

/// The addresses that an address list states, in order: what its first line
/// states, then what the lines after it state.
pub open spec fn listed_in(content: Seq<char>) -> Seq<IpAddr>
    decreases content.len(),
{
    let n = text::run(content, CharClass::Line) as int;
    if 0 <= n < content.len() {
        listed_on(content.take(n)) + listed_in(content.skip(n + 1))
    } else {
        listed_on(content)
    }
}

proof fn lemma_in_push(s: Seq<IpAddr>, ip: IpAddr)
    ensures
        v4_in(s.push(ip)) == (match ip {
            IpAddr::V4(ip) => v4_in(s).push(ip),
            IpAddr::V6(_) => v4_in(s),
        }),
        v6_in(s.push(ip)) == (match ip {
            IpAddr::V4(_) => v6_in(s),
            IpAddr::V6(ip) => v6_in(s).push(ip),
        }),
{
    assert(s.push(ip).drop_last() =~= s);
}

/// The families of a list are those of its parts.
pub proof fn lemma_in_add(s: Seq<IpAddr>, t: Seq<IpAddr>)
    ensures
        v4_in(s + t) == v4_in(s) + v4_in(t),
        v6_in(s + t) == v6_in(s) + v6_in(t),
    decreases t.len(),
{
    if t.len() == 0 {
        assert(s + t =~= s);
        assert(v4_in(s) + v4_in(t) =~= v4_in(s));
        assert(v6_in(s) + v6_in(t) =~= v6_in(s));
    } else {
        let u = t.drop_last();
        lemma_in_add(s, u);
        assert(s + t =~= (s + u).push(t.last()));
        lemma_in_push(s + u, t.last());
        assert(v4_in(s + t) =~= v4_in(s) + v4_in(t));
        assert(v6_in(s + t) =~= v6_in(s) + v6_in(t));
    }
}

/// A list of IPv4 addresses holds these and no others.
pub proof fn lemma_in_of_v4(s: Seq<Ipv4Addr>)
    ensures
        v4_in(of_v4(s)) == s,
        v6_in(of_v4(s)) == Seq::<Ipv6Addr>::empty(),
    decreases s.len(),
{
    if s.len() > 0 {
        lemma_in_of_v4(s.drop_last());
        assert(of_v4(s).drop_last() =~= of_v4(s.drop_last()));
        assert(v4_in(of_v4(s)) =~= s);
    } else {
        assert(v4_in(of_v4(s)) =~= s);
    }
}

/// A list of IPv6 addresses holds these and no others.
pub proof fn lemma_in_of_v6(s: Seq<Ipv6Addr>)
    ensures
        v6_in(of_v6(s)) == s,
        v4_in(of_v6(s)) == Seq::<Ipv4Addr>::empty(),
    decreases s.len(),
{
    if s.len() > 0 {
        lemma_in_of_v6(s.drop_last());
        assert(of_v6(s).drop_last() =~= of_v6(s.drop_last()));
        assert(v6_in(of_v6(s)) =~= s);
    } else {
        assert(v6_in(of_v6(s)) =~= s);
    }
}

/// Every address is of one family.
pub proof fn lemma_in_len(s: Seq<IpAddr>)
    ensures
        v4_in(s).len() + v6_in(s).len() == s.len(),
    decreases s.len(),
{
    if s.len() > 0 {
        lemma_in_len(s.drop_last());
    }
}

/// Cutting a list after `limit` elements, its parts one after the other.
proof fn lemma_at_most_add<T>(done: Seq<T>, part: Seq<T>, rest: Seq<T>, limit: nat)
    requires
        done.len() <= limit,
    ensures
        net::at_most(done + (part + rest), limit) == net::at_most(
            done + net::at_most(part, (limit - done.len()) as nat) + rest,
            limit,
        ),
{
    let cut = net::at_most(part, (limit - done.len()) as nat);
    if part.len() <= limit - done.len() {
        assert(cut =~= part);
        assert(done + (part + rest) =~= done + cut + rest);
    } else {
        assert(net::at_most(done + (part + rest), limit) =~= done + cut);
        assert(net::at_most(done + cut + rest, limit) =~= done + cut);
    }
}

/// Appends the first `remaining` addresses that an entry states to the list of
/// their family.
pub fn push_entry(
    ipv4: &mut Vec<Ipv4Addr>,
    ipv6: &mut Vec<Ipv6Addr>,
    entry: ListEntry,
    remaining: usize,
)
    requires
        entry.wf(),
    ensures
        final(ipv4)@ == old(ipv4)@ + v4_in(net::at_most(entry.addresses(), remaining as nat)),
        final(ipv6)@ == old(ipv6)@ + v6_in(net::at_most(entry.addresses(), remaining as nat)),
{
    let ghost stated = net::at_most(entry.addresses(), remaining as nat);
    match entry {
        ListEntry::Network(IpNetwork::V4(addr, prefix_len)) => {
            net::push_v4_hosts(ipv4, addr, prefix_len, remaining);
            proof {
                let hosts = net::at_most(net::v4_hosts(addr, prefix_len), remaining as nat);
                assert(stated =~= of_v4(hosts));
                lemma_in_of_v4(hosts);
                assert(ipv6@ =~= old(ipv6)@ + v6_in(stated));
            }
        },
        ListEntry::Network(IpNetwork::V6(addr, prefix_len)) => {
            net::push_v6_hosts(ipv6, addr, prefix_len, remaining);
            proof {
                let hosts = net::at_most(net::v6_hosts(addr, prefix_len), remaining as nat);
                assert(stated =~= of_v6(hosts));
                lemma_in_of_v6(hosts);
                assert(ipv4@ =~= old(ipv4)@ + v4_in(stated));
            }
        },
        ListEntry::Address(ip) => {
            if remaining > 0 {
                match ip {
                    IpAddr::V4(v4) => {
                        ipv4.push(v4);
                    },
                    IpAddr::V6(v6) => {
                        ipv6.push(v6);
                    },
                }
                proof {
                    assert(stated =~= seq![ip]);
                    lemma_in_push(seq![], ip);
                    assert(Seq::<IpAddr>::empty().push(ip) =~= seq![ip]);
                }
            } else {
                assert(stated =~= seq![]);
            }
            assert(ipv4@ =~= old(ipv4)@ + v4_in(stated));
            assert(ipv6@ =~= old(ipv6)@ + v6_in(stated));
        },
        ListEntry::Unreadable => {
            assert(stated =~= seq![]);
            assert(ipv4@ =~= old(ipv4)@ + v4_in(stated));
            assert(ipv6@ =~= old(ipv6)@ + v6_in(stated));
        },
    }
}

/// What a text states that was read as a block of addresses or as an address, if as
/// either: the block, or else the address.
pub fn entry_from(network: Option<IpNetwork>, address: Option<IpAddr>) -> (r: ListEntry)
    ensures
        r == (match network {
            Some(network) => ListEntry::Network(network),
            None => match address {
                Some(ip) => ListEntry::Address(ip),
                None => ListEntry::Unreadable,
            },
        }),
{
    match network {
        Some(network) => ListEntry::Network(network),
        None => match address {
            Some(ip) => ListEntry::Address(ip),
            None => ListEntry::Unreadable,
        },
    }
}

/// What a text states: a block of addresses, or else an address.
pub fn read_entry(text: &str) -> (r: ListEntry)
    ensures
        r == entry_of(text@),
        r.wf(),
{
    let network = net::parse_ip_net(text);
    let address = if network.is_none() {
        net::parse_ip_addr(text)
    } else {
        None
    };
    entry_from(network, address)
}

/// Parse IP file content into IPv4 and IPv6 candidate lists.
/// Each line can be an IP address or a CIDR range.
/// For CIDR ranges, hosts are enumerated up to candidate_count total.
pub fn parse_ip_content(content: &str, candidate_count: usize) -> (r: (
    Vec<Ipv4Addr>,
    Vec<Ipv6Addr>,
))
    ensures
        r.0@ == v4_in(net::at_most(listed_in(content@), candidate_count as nat)),
        r.1@ == v6_in(net::at_most(listed_in(content@), candidate_count as nat)),
{
    let chars = text::chars_of(content);
    let len: usize = chars.len();
    let ghost limit = candidate_count as nat;
    let mut ipv4: Vec<Ipv4Addr> = Vec::new();
    let mut ipv6: Vec<Ipv6Addr> = Vec::new();
    let ghost mut done: Seq<IpAddr> = seq![];
    let mut pos: usize = 0;
    proof {
        assert(chars@.skip(0) =~= content@);
        assert(seq![] + listed_in(content@) =~= listed_in(content@));
    }
    loop
        invariant_except_break
            pos <= len,
            net::at_most(listed_in(content@), limit) == net::at_most(
                done + listed_in(chars@.skip(pos as int)),
                limit,
            ),
        invariant
            len == chars@.len(),
            chars@ == content@,
            limit == candidate_count,
            done.len() <= limit,
            ipv4@ == v4_in(done),
            ipv6@ == v6_in(done),
        ensures
            net::at_most(listed_in(content@), limit) == done,
        decreases len - pos,
    {
        let end = text::run_end(&chars, pos, len, CharClass::Line);
        let ghost rest = chars@.skip(pos as int);
        let ghost line = chars@.subrange(pos as int, end as int);
        let ghost after = if end < len {
            listed_in(chars@.skip(end + 1))
        } else {
            seq![]
        };
        proof {
            assert(chars@.subrange(pos as int, len as int) =~= rest);
            assert(rest.take(end - pos) =~= line);
            if end < len {
                assert(rest.skip(end - pos + 1) =~= chars@.skip(end + 1));
            } else {
                assert(rest =~= line);
            }
            assert(listed_in(rest) =~= listed_on(line) + after);
            lemma_in_len(done);
        }
        let (lo, hi) = text::trim_range(&chars, pos, end, CharClass::WhiteSpace);
        if lo < hi && chars[lo] != '#' {
            let total: usize = ipv4.len() + ipv6.len();
            if total >= candidate_count {
                proof {
                    assert(net::at_most(done + listed_in(rest), limit) =~= done);
                }
                break;
            }
            let trimmed = text::string_of(&chars, lo, hi);
            let entry = read_entry(trimmed.as_str());
            push_entry(&mut ipv4, &mut ipv6, entry, candidate_count - total);
            proof {
                let part = net::at_most(entry.addresses(), (limit - done.len()) as nat);
                lemma_at_most_add(done, entry.addresses(), after, limit);
                lemma_in_add(done, part);
                done = done + part;
            }
        } else {
            proof {
                assert(listed_on(line) =~= seq![]);
                assert(listed_in(rest) =~= after);
            }
        }
        if end == len {
            proof {
                assert(done + after =~= done);
                assert(net::at_most(done, limit) =~= done);
            }
            break;
        }
        pos = end + 1;
    }
    (ipv4, ipv6)
}

/// The candidates are as many as the list states, but no more than
/// `candidate_count` over both families.
pub proof fn law_candidates_are_capped(content: Seq<char>, candidate_count: nat)
    ensures
        ({
            let listed = listed_in(content);
            let taken = net::at_most(listed, candidate_count);
            v4_in(taken).len() + v6_in(taken).len() == if listed.len() < candidate_count {
                listed.len()
            } else {
                candidate_count
            }
        }),
{
    lemma_in_len(net::at_most(listed_in(content), candidate_count));
}

/// With a higher `candidate_count`, further candidates come after the same ones.
pub proof fn law_more_candidates_come_after(content: Seq<char>, fewer: nat, more: nat)
    requires
        fewer <= more,
    ensures
        v4_in(net::at_most(listed_in(content), fewer)).is_prefix_of(
            v4_in(net::at_most(listed_in(content), more)),
        ),
        v6_in(net::at_most(listed_in(content), fewer)).is_prefix_of(
            v6_in(net::at_most(listed_in(content), more)),
        ),
{
    let listed = listed_in(content);
    let a = net::at_most(listed, fewer);
    let b = net::at_most(listed, more);
    let added = b.skip(a.len() as int);
    assert(b =~= a + added);
    lemma_in_add(a, added);
    assert(v4_in(a) =~= v4_in(b).take(v4_in(a).len() as int));
    assert(v6_in(a) =~= v6_in(b).take(v6_in(a).len() as int));
}

/// The lines of a list are read one after the other, and none bears on another.
pub proof fn law_lines_are_independent(first: Seq<char>, second: Seq<char>)
    ensures
        listed_in((first + seq!['\n']) + second) == listed_in(first) + listed_in(second),
    decreases first.len(),
{
    let whole = (first + seq!['\n']) + second;
    text::lemma_run(first, CharClass::Line);
    let n = text::run(first, CharClass::Line) as int;
    assert(whole[n] == '\n') by {
        if n < first.len() {
            assert(whole[n] == first[n]);
        }
    }
    assert forall|i: int| 0 <= i < n implies CharClass::Line.contains(#[trigger] whole[i]) by {
        assert(whole[i] == first[i]);
    }
    text::lemma_run_is(whole, CharClass::Line, n);
    assert(whole.take(n) =~= first.take(n));
    if n < first.len() {
        let rest = first.skip(n + 1);
        assert(whole.skip(n + 1) =~= (rest + seq!['\n']) + second);
        law_lines_are_independent(rest, second);
        assert(listed_in(whole) =~= listed_in(first) + listed_in(second));
    } else {
        assert(first.take(n) =~= first);
        assert(whole.skip(n + 1) =~= second);
    }
}

/// Blank lines and comments state no address, whatever white space is around them.
pub proof fn law_comments_and_blank_lines_are_skipped(line: Seq<char>)
    requires
        is_skipped(text::trim(line, CharClass::WhiteSpace)),
        !line.contains('\n'),
    ensures
        listed_in(line) == Seq::<IpAddr>::empty(),
{
    text::lemma_run_is(line, CharClass::Line, line.len() as int);
}

/// A line that cannot be read states no address and changes nothing in a list,
/// wherever it stands.
pub proof fn law_unreadable_lines_are_skipped(
    above: Seq<char>,
    line: Seq<char>,
    below: Seq<char>,
)
    requires
        entry_of(text::trim(line, CharClass::WhiteSpace)) is Unreadable,
        !line.contains('\n'),
    ensures
        listed_in(line) == Seq::<IpAddr>::empty(),
        listed_in((above + seq!['\n']) + ((line + seq!['\n']) + below)) == listed_in(
            (above + seq!['\n']) + below,
        ),
{
    text::lemma_run_is(line, CharClass::Line, line.len() as int);
    law_lines_are_independent(above, (line + seq!['\n']) + below);
    law_lines_are_independent(line, below);
    law_lines_are_independent(above, below);
    assert(listed_in(line) + listed_in(below) =~= listed_in(below));
}

/// White space around a line changes nothing in a list, wherever the line stands.
pub proof fn law_white_space_around_lines_is_skipped(
    above: Seq<char>,
    left: Seq<char>,
    line: Seq<char>,
    right: Seq<char>,
    below: Seq<char>,
)
    requires
        forall|i: int| 0 <= i < left.len() ==> text::white_space(#[trigger] left[i]),
        forall|i: int| 0 <= i < right.len() ==> text::white_space(#[trigger] right[i]),
        !left.contains('\n'),
        !line.contains('\n'),
        !right.contains('\n'),
    ensures
        listed_in((left + line) + right) == listed_in(line),
        listed_in((above + seq!['\n']) + ((((left + line) + right) + seq!['\n']) + below))
            == listed_in((above + seq!['\n']) + ((line + seq!['\n']) + below)),
{
    let padded = (left + line) + right;
    assert forall|i: int| 0 <= i < padded.len() implies CharClass::Line.contains(
        #[trigger] padded[i],
    ) by {
        if i < left.len() {
            assert(padded[i] == left[i]);
        } else if i < left.len() + line.len() {
            assert(padded[i] == line[i - left.len()]);
        } else {
            assert(padded[i] == right[i - left.len() - line.len()]);
        }
    }
    text::lemma_run_is(padded, CharClass::Line, padded.len() as int);
    text::lemma_run_is(line, CharClass::Line, line.len() as int);
    text::lemma_trim_padded(left, line, right, CharClass::WhiteSpace);
    law_lines_are_independent(above, (padded + seq!['\n']) + below);
    law_lines_are_independent(padded, below);
    law_lines_are_independent(above, (line + seq!['\n']) + below);
    law_lines_are_independent(line, below);
}

/// The addresses of a family are among all addresses.
pub proof fn lemma_in_contains(s: Seq<IpAddr>)
    ensures
        forall|i: int| 0 <= i < v4_in(s).len() ==> s.contains(IpAddr::V4(#[trigger] v4_in(s)[i])),
        forall|i: int| 0 <= i < v6_in(s).len() ==> s.contains(IpAddr::V6(#[trigger] v6_in(s)[i])),
    decreases s.len(),
{
    if s.len() > 0 {
        let t = s.drop_last();
        lemma_in_contains(t);
        assert forall|ip: IpAddr| t.contains(ip) implies #[trigger] s.contains(ip) by {
            let k = choose|k: int| 0 <= k < t.len() && t[k] == ip;
            assert(s[k] == ip);
        }
        assert(s[s.len() - 1] == s.last());
        assert forall|i: int| 0 <= i < v4_in(s).len() implies s.contains(
            IpAddr::V4(#[trigger] v4_in(s)[i]),
        ) by {
            if i < v4_in(t).len() {
                assert(v4_in(s)[i] == v4_in(t)[i]);
            }
        }
        assert forall|i: int| 0 <= i < v6_in(s).len() implies s.contains(
            IpAddr::V6(#[trigger] v6_in(s)[i]),
        ) by {
            if i < v6_in(t).len() {
                assert(v6_in(s)[i] == v6_in(t)[i]);
            }
        }
    }
}

/// The addresses of a family are all those of a list that are of it, in order.
pub proof fn law_families_are_told_apart(s: Seq<IpAddr>)
    ensures
        v4_in(s).map_values(|ip: Ipv4Addr| IpAddr::V4(ip)) == s.filter(|ip: IpAddr| ip is V4),
        v6_in(s).map_values(|ip: Ipv6Addr| IpAddr::V6(ip)) == s.filter(|ip: IpAddr| ip is V6),
    decreases s.len(),
{
    reveal(Seq::filter);
    if s.len() > 0 {
        let t = s.drop_last();
        law_families_are_told_apart(t);
        match s.last() {
            IpAddr::V4(ip) => {
                assert(v4_in(s).map_values(|ip: Ipv4Addr| IpAddr::V4(ip)) =~= v4_in(t).map_values(
                    |ip: Ipv4Addr| IpAddr::V4(ip),
                ).push(IpAddr::V4(ip)));
            },
            IpAddr::V6(ip) => {
                assert(v6_in(s).map_values(|ip: Ipv6Addr| IpAddr::V6(ip)) =~= v6_in(t).map_values(
                    |ip: Ipv6Addr| IpAddr::V6(ip),
                ).push(IpAddr::V6(ip)));
            },
        }
    } else {
        assert(v4_in(s).map_values(|ip: Ipv4Addr| IpAddr::V4(ip)) =~= s.filter(
            |ip: IpAddr| ip is V4,
        ));
        assert(v6_in(s).map_values(|ip: Ipv6Addr| IpAddr::V6(ip)) =~= s.filter(
            |ip: IpAddr| ip is V6,
        ));
    }
}

/// What a line is read as is what stands between the white space around it.
proof fn lemma_listed_on_padded(left: Seq<char>, core: Seq<char>, right: Seq<char>)
    requires
        forall|i: int| 0 <= i < left.len() ==> text::white_space(#[trigger] left[i]),
        forall|i: int| 0 <= i < right.len() ==> text::white_space(#[trigger] right[i]),
        core.len() > 0,
        !text::white_space(core[0]),
        !text::white_space(core.last()),
        !left.contains('\n'),
        !core.contains('\n'),
        !right.contains('\n'),
    ensures
        listed_in((left + core) + right) == listed_in(core),
        listed_in(core) == if core[0] == '#' {
            seq![]
        } else {
            entry_of(core).addresses()
        },
{
    law_white_space_around_lines_is_skipped(seq![], left, core, right, seq![]);
    text::lemma_run_is(core, CharClass::Line, core.len() as int);
    text::lemma_run_is(core, CharClass::WhiteSpace, 0);
    text::lemma_run_back_is(core, CharClass::WhiteSpace, 0);
    assert(core.skip(0) =~= core);
    assert(core.take(core.len() as int) =~= core);
}

/// A line that is a block states every host address of it, in order, and a line that is
/// an address states this address, whatever white space is around them. A line that is
/// neither states none, nor does a comment.
pub proof fn law_lines_state_all_their_addresses(
    left: Seq<char>,
    core: Seq<char>,
    right: Seq<char>,
)
    requires
        forall|i: int| 0 <= i < left.len() ==> text::white_space(#[trigger] left[i]),
        forall|i: int| 0 <= i < right.len() ==> text::white_space(#[trigger] right[i]),
        core.len() > 0,
        !text::white_space(core[0]),
        !text::white_space(core.last()),
        !left.contains('\n'),
        !core.contains('\n'),
        !right.contains('\n'),
    ensures
        ({
            let stated = listed_in((left + core) + right);
            &&& core[0] == '#' ==> stated.len() == 0
            &&& core[0] != '#' ==> match (net::ip_net_of(core), net::ip_addr_of(core)) {
                (Some(IpNetwork::V4(addr, prefix_len)), _) => {
                    &&& stated.len() == net::v4_hosts(addr, prefix_len).len()
                    &&& forall|i: int|
                        0 <= i < stated.len() ==> #[trigger] stated[i] == IpAddr::V4(
                            net::v4_hosts(addr, prefix_len)[i],
                        )
                },
                (Some(IpNetwork::V6(addr, prefix_len)), _) => {
                    &&& stated.len() == net::v6_hosts(addr, prefix_len).len()
                    &&& forall|i: int|
                        0 <= i < stated.len() ==> #[trigger] stated[i] == IpAddr::V6(
                            net::v6_hosts(addr, prefix_len)[i],
                        )
                },
                (None, Some(ip)) => stated.len() == 1 && stated[0] == ip,
                (None, None) => stated.len() == 0,
            }
        }),
{
    lemma_listed_on_padded(left, core, right);
}

/// A line with nothing but white space states no address.
pub proof fn law_blank_lines_state_nothing(line: Seq<char>)
    requires
        forall|i: int| 0 <= i < line.len() ==> text::white_space(#[trigger] line[i]),
        !line.contains('\n'),
    ensures
        listed_in(line).len() == 0,
{
    text::lemma_run_is(line, CharClass::WhiteSpace, line.len() as int);
    law_comments_and_blank_lines_are_skipped(line);
}

/// An entry of either kind that is pushed gives its first addresses, as many as remain to
/// be taken, to the list of their family: of a block as many of its hosts, of an address
/// this one.
pub proof fn law_entries_give_all_their_addresses(entry: ListEntry, remaining: nat)
    ensures
        ({
            let given = net::at_most(entry.addresses(), remaining);
            match entry {
                ListEntry::Network(IpNetwork::V4(addr, prefix_len)) => {
                    let hosts = net::v4_hosts(addr, prefix_len);
                    &&& v6_in(given).len() == 0
                    &&& v4_in(given).len() == if hosts.len() < remaining {
                        hosts.len()
                    } else {
                        remaining
                    }
                    &&& v4_in(given).is_prefix_of(hosts)
                },
                ListEntry::Network(IpNetwork::V6(addr, prefix_len)) => {
                    let hosts = net::v6_hosts(addr, prefix_len);
                    &&& v4_in(given).len() == 0
                    &&& v6_in(given).len() == if hosts.len() < remaining {
                        hosts.len()
                    } else {
                        remaining
                    }
                    &&& v6_in(given).is_prefix_of(hosts)
                },
                ListEntry::Address(IpAddr::V4(ip)) => remaining > 0 ==> v4_in(given) == seq![ip]
                    && v6_in(given).len() == 0,
                ListEntry::Address(IpAddr::V6(ip)) => remaining > 0 ==> v6_in(given) == seq![ip]
                    && v4_in(given).len() == 0,
                ListEntry::Unreadable => given.len() == 0,
            }
        }),
{
    let given = net::at_most(entry.addresses(), remaining);
    match entry {
        ListEntry::Network(IpNetwork::V4(addr, prefix_len)) => {
            let hosts = net::at_most(net::v4_hosts(addr, prefix_len), remaining);
            assert(given =~= of_v4(hosts));
            lemma_in_of_v4(hosts);
            assert(hosts =~= net::v4_hosts(addr, prefix_len).take(hosts.len() as int));
        },
        ListEntry::Network(IpNetwork::V6(addr, prefix_len)) => {
            let hosts = net::at_most(net::v6_hosts(addr, prefix_len), remaining);
            assert(given =~= of_v6(hosts));
            lemma_in_of_v6(hosts);
            assert(hosts =~= net::v6_hosts(addr, prefix_len).take(hosts.len() as int));
        },
        ListEntry::Address(ip) => {
            if remaining > 0 {
                assert(given =~= seq![ip]);
                lemma_in_push(seq![], ip);
                assert(Seq::<IpAddr>::empty().push(ip) =~= seq![ip]);
            }
        },
        ListEntry::Unreadable => {},
    }
}

} // verus!
