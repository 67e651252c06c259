//! Node addresses and the byte string that identifies a node on the ring.
use vstd::prelude::*;
use crate::text::{COLON, DOT, decimal, hex, push_decimal, push_hex};

verus! {

/// The address of a node: an IPv4 or IPv6 host and a port.
#[derive(Clone, Copy, Debug, PartialEq, Eq, Hash)]
pub enum NodeAddr {
    /// An IPv4 host, its four octets in network order.
    V4 { octets: [u8; 4], port: u16 },
    /// An IPv6 host, its eight 16-bit groups in network order.
    V6 { segments: [u16; 8], port: u16 },
}

/// An IPv4 host in dotted decimal notation.
pub open spec fn ipv4_text(octets: Seq<u8>) -> Seq<u8>
    recommends
        octets.len() == 4,
{
    decimal(octets[0] as nat) + seq![DOT] + decimal(octets[1] as nat) + seq![DOT] + decimal(
        octets[2] as nat,
    ) + seq![DOT] + decimal(octets[3] as nat)
}

/// Hexadecimal groups separated by colons.
pub open spec fn groups_text(groups: Seq<u16>) -> Seq<u8>
    decreases groups.len(),
{
    if groups.len() == 0 {
        Seq::empty()
    } else if groups.len() == 1 {
        hex(groups[0] as nat)
    } else {
        groups_text(groups.drop_last()) + seq![COLON] + hex(groups.last() as nat)
    }
}

/// How many consecutive groups are zero from position `i` on.
pub open spec fn zero_run(groups: Seq<u16>, i: int) -> nat
    decreases groups.len() - i,
{
    if 0 <= i < groups.len() && groups[i] == 0 {
        1 + zero_run(groups, i + 1)
    } else {
        0
    }
}

/// The first position among the first `k` at which the longest run of zero
/// groups starts.
pub open spec fn longest_zero_run(groups: Seq<u16>, k: nat) -> int
    decreases k,
{
    if k <= 1 {
        0
    } else {
        let best = longest_zero_run(groups, (k - 1) as nat);
        if zero_run(groups, k - 1) > zero_run(groups, best) {
            k - 1
        } else {
            best
        }
    }
}

/// Whether an IPv6 host carries an IPv4 host: five zero groups, then `ffff`.
pub open spec fn is_v4_mapped(groups: Seq<u16>) -> bool {
    groups[0] == 0 && groups[1] == 0 && groups[2] == 0 && groups[3] == 0 && groups[4] == 0
        && groups[5] == 0xffff
}

/// The octets of the IPv4 host that the last two groups carry.
pub open spec fn mapped_octets(groups: Seq<u16>) -> Seq<u8> {
    seq![
        (groups[6] / 256) as u8,
        (groups[6] % 256) as u8,
        (groups[7] / 256) as u8,
        (groups[7] % 256) as u8,
    ]
}

/// An IPv6 host in its canonical text form.
///
/// A host that carries an IPv4 host is written `::ffff:` and that host in
/// dotted decimal. Otherwise the groups are written in hexadecimal, and the
/// longest run of two or more zero groups (the first, if several are as long)
/// is replaced by `::`.
pub open spec fn ipv6_text(groups: Seq<u16>) -> Seq<u8>
    recommends
        groups.len() == 8,
{
    if is_v4_mapped(groups) {
        seq![COLON, COLON] + hex(0xffff) + seq![COLON] + ipv4_text(mapped_octets(groups))
    } else {
        let start = longest_zero_run(groups, 8);
        let len = zero_run(groups, start);
        if len >= 2 {
            groups_text(groups.subrange(0, start)) + seq![COLON, COLON] + groups_text(
                groups.subrange(start + len, 8),
            )
        } else {
            groups_text(groups)
        }
    }
}

/// Appends an IPv4 host in dotted decimal notation.
fn push_ipv4(out: &mut Vec<u8>, a: u8, b: u8, c: u8, d: u8)
    ensures
        final(out)@ == old(out)@ + ipv4_text(seq![a, b, c, d]),
{
    push_decimal(out, a as u16);
    out.push(DOT);
    push_decimal(out, b as u16);
    out.push(DOT);
    push_decimal(out, c as u16);
    out.push(DOT);
    push_decimal(out, d as u16);
}

/// Appends the groups `segments[lo..hi]`, separated by colons.
fn push_groups(out: &mut Vec<u8>, segments: &[u16; 8], lo: usize, hi: usize)
    requires
        lo <= hi <= 8,
    ensures
        final(out)@ == old(out)@ + groups_text(segments@.subrange(lo as int, hi as int)),
{
    let mut i: usize = lo;
    while i < hi
        invariant
            lo <= i <= hi <= 8,
            out@ == old(out)@ + groups_text(segments@.subrange(lo as int, i as int)),
        decreases hi - i,
    {
        assert(segments@.subrange(lo as int, i + 1).drop_last() =~= segments@.subrange(
            lo as int,
            i as int,
        ));
        if i > lo {
            out.push(COLON);
        }
        push_hex(out, segments[i]);
        i = i + 1;
    }
}

/// Counts the zero groups that follow one another from position `i` on.
fn zero_run_at(segments: &[u16; 8], i: usize) -> (n: usize)
    requires
        i <= 8,
    ensures
        n == zero_run(segments@, i as int),
        i + n <= 8,
    decreases 8 - i,
{
    if i < 8 && segments[i] == 0 {
        1 + zero_run_at(segments, i + 1)
    } else {
        0
    }
}

/// Appends an IPv6 host in its canonical text form.
fn push_ipv6(out: &mut Vec<u8>, segments: &[u16; 8])
    ensures
        final(out)@ == old(out)@ + ipv6_text(segments@),
{
    if segments[0] == 0 && segments[1] == 0 && segments[2] == 0 && segments[3] == 0
        && segments[4] == 0 && segments[5] == 0xffff {
        out.push(COLON);
        out.push(COLON);
        push_hex(out, 0xffff);
        out.push(COLON);
        push_ipv4(
            out,
            (segments[6] / 256) as u8,
            (segments[6] % 256) as u8,
            (segments[7] / 256) as u8,
            (segments[7] % 256) as u8,
        );
    } else {
        let mut start: usize = 0;
        let mut len: usize = zero_run_at(segments, 0);
        let mut k: usize = 1;
        while k < 8
            invariant
                1 <= k <= 8,
                start == longest_zero_run(segments@, k as nat),
                len == zero_run(segments@, start as int),
                start + len <= 8,
            decreases 8 - k,
        {
            let run = zero_run_at(segments, k);
            if run > len {
                start = k;
                len = run;
            }
            k = k + 1;
        }
        if len >= 2 {
            push_groups(out, segments, 0, start);
            out.push(COLON);
            out.push(COLON);
            push_groups(out, segments, start + len, 8);
        } else {
            push_groups(out, segments, 0, 8);
            assert(segments@.subrange(0, 8) =~= segments@);
        }
    }
}

impl NodeAddr {
    /// An IPv4 address from its octets and port.
    pub fn v4(a: u8, b: u8, c: u8, d: u8, port: u16) -> (addr: NodeAddr)
        ensures
            addr == (NodeAddr::V4 { octets: [a, b, c, d], port }),
    {
        NodeAddr::V4 { octets: [a, b, c, d], port }
    }

    /// An IPv6 address from its groups and port.
    pub fn v6(segments: [u16; 8], port: u16) -> (addr: NodeAddr)
        ensures
            addr == (NodeAddr::V6 { segments, port }),
    {
        NodeAddr::V6 { segments, port }
    }

    /// The port.
    pub open spec fn spec_port(&self) -> u16 {
        match *self {
            NodeAddr::V4 { port, .. } => port,
            NodeAddr::V6 { port, .. } => port,
        }
    }

    /// The host in text form: dotted decimal for IPv4, canonical for IPv6.
    pub open spec fn host_text(self) -> Seq<u8> {
        match self {
            NodeAddr::V4 { octets, .. } => ipv4_text(octets@),
            NodeAddr::V6 { segments, .. } => ipv6_text(segments@),
        }
    }

    /// The byte string that identifies the node: the host in text form, a
    /// zero byte, and the port in decimal.
    pub open spec fn identity(self) -> Seq<u8> {
        self.host_text() + seq![0u8] + decimal(self.spec_port() as nat)
    }

    /// The port.
    #[verifier::when_used_as_spec(spec_port)]
    pub fn port(&self) -> (port: u16)
        ensures
            port == self.spec_port(),
    {
        match self {
            NodeAddr::V4 { port, .. } => *port,
            NodeAddr::V6 { port, .. } => *port,
        }
    }

    /// Writes out [`NodeAddr::identity`].
    pub fn identity_bytes(&self) -> (bytes: Vec<u8>)
        ensures
            bytes@ == self.identity(),
    {
        let mut bytes: Vec<u8> = Vec::new();
        match self {
            NodeAddr::V4 { octets, port } => {
                push_ipv4(&mut bytes, octets[0], octets[1], octets[2], octets[3]);
                bytes.push(0u8);
                push_decimal(&mut bytes, *port);
            },
            NodeAddr::V6 { segments, port } => {
                push_ipv6(&mut bytes, segments);
                bytes.push(0u8);
                push_decimal(&mut bytes, *port);
            },
        }
        bytes
    }
}

} // verus!
