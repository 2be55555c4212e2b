//! The TCP SYN scan's decisions: the probe's bytes, which replies show an open
//! port, when a send is tried again, and the per-target results.
use vstd::prelude::*;

verus! {

/// TCP flag bits of a SYN and of an ACK.
pub const SYN: u8 = 2;
pub const ACK: u8 = 16;

/// The window that every probe advertises.
pub const PROBE_WINDOW: u16 = 64240;

/// The OS error of a send that found no buffer space (`ENOBUFS`).
pub const NO_BUFFER_SPACE: i32 = 105;

/// The checksum that `pnet::packet::tcp::ipv4_checksum` computes over the TCP
/// segment `segment` sent from IPv4 address `source` to `destination`.
pub uninterp spec fn tcp_ipv4_checksum(segment: Seq<u8>, source: u32, destination: u32) -> u16;

/// Relies on `pnet::packet::tcp::ipv4_checksum`: the TCP checksum over the
/// segment and the IPv4 pseudo-header. `TcpPacket::new` accepts any buffer of at
/// least 20 bytes, and the 32-bit sum cannot overflow below 65536 bytes.
#[verifier::external_body]
fn tcp_checksum(segment: &[u8], source: u32, destination: u32) -> (r: u16)
    requires
        20 <= segment@.len() <= 65535,
    ensures
        r == tcp_ipv4_checksum(segment@, source, destination),
{
    let packet = pnet::packet::tcp::TcpPacket::new(segment).unwrap();
    pnet::packet::tcp::ipv4_checksum(
        &packet,
        &core::net::Ipv4Addr::from(source),
        &core::net::Ipv4Addr::from(destination),
    )
}

/// Relies on `rand::random_range`: a value drawn from `1..=65535`.
#[verifier::external_body]
fn random_source_port() -> (r: u16)
    ensures
        1 <= r,
{
    rand::random_range(1..=65535u16)
}

/// Relies on `rand::random`: any `u32`.
#[verifier::external_body]
fn random_sequence() -> u32 {
    rand::random::<u32>()
}

pub open spec fn hi(x: u16) -> u8 {
    (x / 256) as u8
}

pub open spec fn lo(x: u16) -> u8 {
    (x % 256) as u8
}

/// A SYN segment before its checksum: ports and sequence number big-endian, no
/// acknowledgement, a five-word header, the SYN flag, the probe window, and 20
/// bytes of zeros after the header.
pub open spec fn syn_unsummed(source_port: u16, dest_port: u16, sequence: u32) -> Seq<u8> {
    seq![
        hi(source_port),
        lo(source_port),
        hi(dest_port),
        lo(dest_port),
        (sequence / 0x1000000) as u8,
        ((sequence / 0x10000) % 256) as u8,
        ((sequence / 256) % 256) as u8,
        (sequence % 256) as u8,
        0u8,
        0u8,
        0u8,
        0u8,
        0x50u8,
        SYN,
        hi(PROBE_WINDOW),
        lo(PROBE_WINDOW),
        0u8,
        0u8,
        0u8,
        0u8,
    ] + Seq::new(20, |i: int| 0u8)
}

/// The SYN probe, its checksum stored big-endian in bytes 16 and 17.
pub open spec fn syn_probe_bytes(
    source_ip: u32,
    target_ip: u32,
    source_port: u16,
    dest_port: u16,
    sequence: u32,
) -> Seq<u8> {
    let u = syn_unsummed(source_port, dest_port, sequence);
    let c = tcp_ipv4_checksum(u, source_ip, target_ip);
    u.update(16, hi(c)).update(17, lo(c))
}

/// The SYN segment from `source_ip:source_port` to `target_ip:dest_port`.
pub fn syn_probe(source_ip: u32, target_ip: u32, source_port: u16, dest_port: u16, sequence: u32) -> (r:
    Vec<u8>)
    ensures
        r@ == syn_probe_bytes(source_ip, target_ip, source_port, dest_port, sequence),
{
    let mut p: Vec<u8> = vec![
        (source_port / 256) as u8,
        (source_port % 256) as u8,
        (dest_port / 256) as u8,
        (dest_port % 256) as u8,
        (sequence / 0x1000000) as u8,
        ((sequence / 0x10000) % 256) as u8,
        ((sequence / 256) % 256) as u8,
        (sequence % 256) as u8,
        0u8,
        0u8,
        0u8,
        0u8,
        0x50u8,
        SYN,
        (PROBE_WINDOW / 256) as u8,
        (PROBE_WINDOW % 256) as u8,
        0u8,
        0u8,
        0u8,
        0u8,
    ];
    let mut i: usize = 0;
    while i < 20
        invariant
            i <= 20,
            p@.len() == 20 + i,
            forall|k: int| 20 <= k < 20 + i ==> p@[k] == 0u8,
            p@.subrange(0, 20) == syn_unsummed(source_port, dest_port, sequence).subrange(0, 20),
        decreases 20 - i,
    {
        p.push(0u8);
        proof {
            assert(p@.subrange(0, 20) =~= p@.subrange(0, 20 + i as int).subrange(0, 20));
        }
        i = i + 1;
    }
    proof {
        let u = syn_unsummed(source_port, dest_port, sequence);
        assert forall|k: int| 0 <= k < 40 implies p@[k] == u[k] by {
            if k < 20 {
                assert(p@.subrange(0, 20)[k] == u.subrange(0, 20)[k]);
            }
        }
        assert(p@ =~= u);
    }
    let c = tcp_checksum(p.as_slice(), source_ip, target_ip);
    p.set(16, (c / 256) as u8);
    p.set(17, (c % 256) as u8);
    p
}

/// A SYN probe to `port` on `target_ip`, from a random source port in
/// `1..=65535` and with a random sequence number.
pub fn next_syn_probe(source_ip: u32, target_ip: u32, port: i32) -> (r: Vec<u8>)
    ensures
        exists|source_port: u16, sequence: u32|
            1 <= source_port && r@ == #[trigger] syn_probe_bytes(
                source_ip,
                target_ip,
                source_port,
                port as u16,
                sequence,
            ),
{
    let source_port = random_source_port();
    let sequence = random_sequence();
    syn_probe(source_ip, target_ip, source_port, port as u16, sequence)
}

/// A reply shows an open port only where its flags are exactly SYN and ACK.
pub fn is_syn_ack(flags: u8) -> (r: bool)
    ensures
        r == (flags == (SYN | ACK)),
{
    flags == SYN | ACK
}

/// A failed send is tried again only where the OS found no buffer space.
pub fn should_retry_send(os_code: Option<i32>) -> (r: bool)
    ensures
        r == (os_code == Some(NO_BUFFER_SPACE)),
{
    match os_code {
        Some(c) => c == NO_BUFFER_SPACE,
        None => false,
    }
}

/// A TCP segment that reached the listener: who sent it, from which port, and
/// with which flags.
#[derive(Debug, Clone, Copy, PartialEq, Eq, Structural)]
pub struct TcpReply {
    pub source: u32,
    pub source_port: u16,
    pub flags: u8,
}

/// The open ports found on one target.
#[derive(Debug, Clone)]
pub struct ScanResult {
    pub ip: u32,
    pub open_ports: Vec<i32>,
}

pub open spec fn strictly_ascending(s: Seq<i32>) -> bool {
    forall|i: int, j: int| 0 <= i < j < s.len() ==> s[i] < s[j]
}

/// Some reply from `target` shows `port` open.
pub open spec fn shown_open(replies: Seq<TcpReply>, target: u32, port: i32) -> bool {
    exists|k: int|
        0 <= k < replies.len() && #[trigger] replies[k].source == target && replies[k].flags == (
        SYN | ACK) && replies[k].source_port as i32 == port
}

fn insert_sorted(v: &mut Vec<i32>, x: i32)
    requires
        strictly_ascending(old(v)@),
    ensures
        strictly_ascending(final(v)@),
        forall|p: i32| #[trigger] final(v)@.contains(p) <==> (old(v)@.contains(p) || p == x),
{
    let mut j: usize = 0;
    while j < v.len() && v[j] < x
        invariant
            j <= v@.len(),
            forall|k: int| 0 <= k < j ==> v@[k] < x,
        decreases v@.len() - j,
    {
        j = j + 1;
    }
    if j < v.len() && v[j] == x {
        return;
    }
    let ghost old_v = v@;
    v.insert(j, x);
    proof {
        assert forall|a: int, b: int| 0 <= a < b < v@.len() implies v@[a] < v@[b] by {
            if a < j as int && b < j as int {
                assert(v@[a] == old_v[a] && v@[b] == old_v[b]);
            } else if a < j as int && b == j as int {
            } else if a < j as int {
                assert(v@[a] == old_v[a] && v@[b] == old_v[b - 1]);
                assert(old_v[j as int] > x);
            } else if a == j as int {
                assert(v@[b] == old_v[b - 1]);
                assert(old_v[j as int] > x);
            } else {
                assert(v@[a] == old_v[a - 1] && v@[b] == old_v[b - 1]);
            }
        }
        assert forall|p: i32| #[trigger] v@.contains(p) <==> (old_v.contains(p) || p == x) by {
            if v@.contains(p) {
                let k = choose|k: int| 0 <= k < v@.len() && v@[k] == p;
                if k < j as int {
                    assert(old_v[k] == p);
                } else if k > j as int {
                    assert(old_v[k - 1] == p);
                }
            }
            if old_v.contains(p) {
                let k = choose|k: int| 0 <= k < old_v.len() && old_v[k] == p;
                if k < j as int {
                    assert(v@[k] == p);
                } else {
                    assert(v@[k + 1] == p);
                }
            }
            if p == x {
                assert(v@[j as int] == x);
            }
        }
    }
}

/// The open ports of `target`: each port that a SYN+ACK from it shows, once,
/// ascending.
pub fn open_ports_of(target: u32, replies: &Vec<TcpReply>) -> (r: Vec<i32>)
    ensures
        strictly_ascending(r@),
        forall|p: i32| #[trigger] r@.contains(p) <==> shown_open(replies@, target, p),
{
    let mut ports: Vec<i32> = Vec::new();
    let mut k: usize = 0;
    while k < replies.len()
        invariant
            k <= replies@.len(),
            strictly_ascending(ports@),
            forall|p: i32| #[trigger]
                ports@.contains(p) <==> shown_open(replies@.subrange(0, k as int), target, p),
        decreases replies@.len() - k,
    {
        let reply = replies[k];
        let ghost before = replies@.subrange(0, k as int);
        let ghost after = replies@.subrange(0, k as int + 1);
        if reply.source == target && is_syn_ack(reply.flags) {
            insert_sorted(&mut ports, reply.source_port as i32);
        }
        proof {
            assert forall|p: i32| #[trigger]
                ports@.contains(p) <==> shown_open(after, target, p) by {
                if shown_open(after, target, p) {
                    let m = choose|m: int|
                        0 <= m < after.len() && #[trigger] after[m].source == target
                            && after[m].flags == (SYN | ACK) && after[m].source_port as i32 == p;
                    if m < k as int {
                        assert(before[m] == after[m]);
                        assert(shown_open(before, target, p));
                    }
                }
                if shown_open(before, target, p) {
                    let m = choose|m: int|
                        0 <= m < before.len() && #[trigger] before[m].source == target
                            && before[m].flags == (SYN | ACK) && before[m].source_port as i32 == p;
                    assert(after[m] == before[m]);
                }
                if reply.source == target && reply.flags == (SYN | ACK) && reply.source_port as i32
                    == p {
                    assert(after[k as int] == reply);
                }
            }
        }
        k = k + 1;
    }
    proof {
        assert(replies@.subrange(0, replies@.len() as int) =~= replies@);
    }
    ports
}

/// One result per target, in target order, each with the ports that SYN+ACK
/// replies from that target show open, once each and ascending.
pub fn scan_results(targets: &Vec<u32>, replies: &Vec<TcpReply>) -> (r: Vec<ScanResult>)
    ensures
        r@.len() == targets@.len(),
        forall|i: int|
            0 <= i < r@.len() ==> {
                &&& #[trigger] r@[i].ip == targets@[i]
                &&& strictly_ascending(r@[i].open_ports@)
                &&& forall|p: i32|
                    #[trigger] r@[i].open_ports@.contains(p) <==> shown_open(
                        replies@,
                        targets@[i],
                        p,
                    )
            },
{
    let mut out: Vec<ScanResult> = Vec::new();
    let mut i: usize = 0;
    while i < targets.len()
        invariant
            i <= targets@.len(),
            out@.len() == i,
            forall|j: int|
                0 <= j < i ==> {
                    &&& #[trigger] out@[j].ip == targets@[j]
                    &&& strictly_ascending(out@[j].open_ports@)
                    &&& forall|p: i32|
                        #[trigger] out@[j].open_ports@.contains(p) <==> shown_open(
                            replies@,
                            targets@[j],
                            p,
                        )
                },
        decreases targets@.len() - i,
    {
        let ports = open_ports_of(targets[i], replies);
        out.push(ScanResult { ip: targets[i], open_ports: ports });
        i = i + 1;
    }
    out
}

} // verus!
