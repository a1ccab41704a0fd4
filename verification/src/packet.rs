//! SYN probe packets: crafting the 20-byte TCP header the stateless sender
//! transmits, the internet checksum over the IPv4 pseudo-header, and the
//! receiver's classification of inbound segments.
//!
//! The wire layout and checksum follow the TCP header format: big-endian
//! fields, ones'-complement sum of 16-bit words over the pseudo-header
//! (source, destination, protocol 6, segment length) and the segment with
//! its checksum field read as zero.

use vstd::prelude::*;

verus! {

/// The advertised receive window of a probe.
pub const SYN_WINDOW: u16 = 64240;

/// Sum of the big-endian 16-bit words of a byte string; a trailing odd
/// byte counts as the high byte of a final word.
pub open spec fn words_sum(b: Seq<u8>) -> int
    decreases b.len(),
{
    if b.len() == 0 {
        0
    } else if b.len() == 1 {
        b[0] * 256
    } else {
        b[0] * 256 + b[1] + words_sum(b.skip(2))
    }
}

/// End-around carry folding of a ones'-complement sum.
pub open spec fn fold16(x: int) -> int
    decreases x,
{
    if x < 0x10000 {
        x
    } else {
        fold16(x / 0x10000 + x % 0x10000)
    }
}

/// The TCP checksum of a segment sent from `src_ip` to `dst_ip`: the
/// complement of the folded word sum over the pseudo-header and the
/// segment, whose checksum field must already read zero.
pub open spec fn tcp_checksum(src_ip: u32, dst_ip: u32, seg: Seq<u8>) -> int {
    let total = (src_ip >> 16) + (src_ip & 0xFFFF) + (dst_ip >> 16) + (dst_ip & 0xFFFF) + 6
        + seg.len() + words_sum(seg);
    0xFFFF - fold16(total)
}

/// The bytes of a SYN probe's TCP header, before its checksum is filled
/// in: source and destination port, sequence number, no acknowledgement,
/// data offset 5, only the SYN flag, window `SYN_WINDOW`, zero checksum,
/// zero urgent pointer.
pub open spec fn syn_header_zero_checksum(src_port: u16, dst_port: u16, seqn: u32) -> Seq<u8> {
    seq![
        (src_port >> 8) as u8,
        (src_port & 0xFF) as u8,
        (dst_port >> 8) as u8,
        (dst_port & 0xFF) as u8,
        (seqn >> 24) as u8,
        ((seqn >> 16) & 0xFF) as u8,
        ((seqn >> 8) & 0xFF) as u8,
        (seqn & 0xFF) as u8,
        0u8,
        0u8,
        0u8,
        0u8,
        0x50u8,
        0x02u8,
        (SYN_WINDOW >> 8) as u8,
        (SYN_WINDOW & 0xFF) as u8,
        0u8,
        0u8,
        0u8,
        0u8,
    ]
}

/// The finished SYN probe: the zero-checksum header with the checksum of
/// the pseudo-header and segment written at offsets 16 and 17.
pub open spec fn syn_packet_spec(src_ip: u32, dst_ip: u32, src_port: u16, dst_port: u16, seqn: u32) -> Seq<u8> {
    let zeroed = syn_header_zero_checksum(src_port, dst_port, seqn);
    let ck = tcp_checksum(src_ip, dst_ip, zeroed);
    zeroed.update(16, (ck / 256) as u8).update(17, (ck % 256) as u8)
}

/// Fold a word sum until it fits sixteen bits.
fn fold_sum(x0: u64) -> (r: u16)
    requires
        x0 < 0x1_0000_0000,
    ensures
        r == fold16(x0 as int),
        0 <= fold16(x0 as int) < 0x10000,
    decreases x0,
{
    if x0 < 0x10000 {
        return x0 as u16;
    }
    let hi = x0 >> 16;
    let lo = x0 & 0xFFFF;
    proof {
        assert(x0 >> 16 == x0 / 0x10000 && x0 & 0xFFFF == x0 % 0x10000 && (x0 >> 16) + (x0
            & 0xFFFF) < x0 && x0 >> 16 < 0x1_0000_0000 && x0 & 0xFFFF < 0x10000)
            by (bit_vector)
            requires
                0x10000 <= x0 < 0x1_0000_0000,
        ;
    }
    fold_sum(hi + lo)
}

/// Sum the big-endian words of a whole byte vector.
fn words_sum_exec(b: &Vec<u8>) -> (r: u64)
    requires
        b@.len() <= 1000,
    ensures
        r == words_sum(b@),
        r <= b@.len() * 0x10000,
{
    let n = b.len();
    let mut i: usize = 0;
    let mut acc: u64 = 0;
    proof {
        assert(b@.skip(0) =~= b@);
    }
    while i + 1 < n
        invariant
            i <= n == b@.len(),
            n <= 1000,
            i % 2 == 0,
            words_sum(b@) == acc + words_sum(b@.skip(i as int)),
            acc <= i * 0x10000,
        decreases n - i,
    {
        let w: u64 = (b[i] as u64) * 256 + (b[i + 1] as u64);
        proof {
            let s = b@.skip(i as int);
            assert(s[0] == b@[i as int] && s[1] == b@[i as int + 1]);
            assert(s.skip(2) =~= b@.skip(i as int + 2));
            assert(words_sum(s) == s[0] * 256 + s[1] + words_sum(s.skip(2)));
        }
        acc = acc + w;
        i = i + 2;
    }
    if i < n {
        proof {
            let s = b@.skip(i as int);
            assert(s.len() == 1);
            assert(s[0] == b@[i as int]);
        }
        acc = acc + (b[i] as u64) * 256;
    } else {
        proof {
            assert(b@.skip(i as int) =~= Seq::<u8>::empty());
        }
    }
    acc
}

/// Build the TCP header of one SYN probe, checksum filled in. The source
/// port and sequence number are chosen by the caller; the sender draws
/// them at random.
pub fn build_syn_packet(src_ip: u32, dst_ip: u32, src_port: u16, dst_port: u16, seqn: u32) -> (r:
    Vec<u8>)
    ensures
        r@ == syn_packet_spec(src_ip, dst_ip, src_port, dst_port, seqn),
        r@.len() == 20,
{
    let mut v: Vec<u8> = Vec::new();
    v.push((src_port >> 8) as u8);
    v.push((src_port & 0xFF) as u8);
    v.push((dst_port >> 8) as u8);
    v.push((dst_port & 0xFF) as u8);
    v.push((seqn >> 24) as u8);
    v.push(((seqn >> 16) & 0xFF) as u8);
    v.push(((seqn >> 8) & 0xFF) as u8);
    v.push((seqn & 0xFF) as u8);
    v.push(0u8);
    v.push(0u8);
    v.push(0u8);
    v.push(0u8);
    v.push(0x50u8);
    v.push(0x02u8);
    v.push((SYN_WINDOW >> 8) as u8);
    v.push((SYN_WINDOW & 0xFF) as u8);
    v.push(0u8);
    v.push(0u8);
    v.push(0u8);
    v.push(0u8);
    proof {
        assert(v@ =~= syn_header_zero_checksum(src_port, dst_port, seqn));
    }
    let ws = words_sum_exec(&v);
    let sum: u64 = ((src_ip >> 16) as u64) + ((src_ip & 0xFFFF) as u64) + ((dst_ip >> 16) as u64)
        + ((dst_ip & 0xFFFF) as u64) + 6 + 20 + ws;
    proof {
        assert((src_ip >> 16) < 0x10000 && (src_ip & 0xFFFF) < 0x10000 && (dst_ip >> 16) < 0x10000
            && (dst_ip & 0xFFFF) < 0x10000) by (bit_vector);
    }
    let folded = fold_sum(sum);
    let ck: u16 = 0xFFFFu16 - folded;
    let ghost zeroed = v@;
    v.set(16, (ck / 256) as u8);
    v.set(17, (ck % 256) as u8);
    proof {
        assert(ck == tcp_checksum(src_ip, dst_ip, zeroed));
        assert(v@ =~= zeroed.update(16, ((ck as int) / 256) as u8).update(
            17,
            ((ck as int) % 256) as u8,
        ));
    }
    v
}

/// What the receiver reads from one inbound raw IPv4 packet: the sender's
/// address and TCP source port, exactly when the packet is a well-formed
/// TCP segment whose flags have both SYN and ACK set. Everything else —
/// RST replies included — is ignored.
pub open spec fn spec_classify(b: Seq<u8>) -> Option<(u32, u16)> {
    if b.len() >= 20 && (b[0] >> 4) == 4 && (b[0] & 0xF) >= 5 && b[9] == 6 && (b[0] & 0xF) * 4 + 14
        <= b.len() {
        let off = (b[0] & 0xF) * 4;
        let flags = b[off + 13];
        if flags & 0x12 == 0x12 {
            Some(
                (
                    (b[12] * 0x1000000 + b[13] * 0x10000 + b[14] * 0x100 + b[15]) as u32,
                    (b[off] * 0x100 + b[off + 1]) as u16,
                ),
            )
        } else {
            None
        }
    } else {
        None
    }
}

/// Classify one inbound packet as the receiver thread does.
pub fn classify_inbound(b: &[u8]) -> (r: Option<(u32, u16)>)
    ensures
        r == spec_classify(b@),
{
    let n = b.len();
    if n < 20 {
        return None;
    }
    let b0 = b[0];
    if (b0 >> 4) != 4 {
        return None;
    }
    let ihl = b0 & 0xF;
    if ihl < 5 {
        return None;
    }
    if b[9] != 6 {
        return None;
    }
    let off = (ihl as usize) * 4;
    if off + 14 > n {
        return None;
    }
    let flags = b[off + 13];
    if flags & 0x12 != 0x12 {
        return None;
    }
    let src_ip: u32 = (b[12] as u32) * 0x1000000 + (b[13] as u32) * 0x10000 + (b[14] as u32) * 0x100
        + (b[15] as u32);
    let src_port: u16 = (b[off] as u16) * 0x100 + (b[off + 1] as u16);
    proof {
        assert((b@[0] & 0xF) * 4 == off);
    }
    Some((src_ip, src_port))
}

/// Relies on `rand::random_range`: a value drawn from the given inclusive
/// range, here the ephemeral source-port range of the sender.
#[verifier::external_body]
fn random_ephemeral_port() -> (r: u16)
    ensures
        1025 <= r <= 65535,
{
    rand::random_range(1025..=65535u16)
}

/// Relies on `rand::random`: an arbitrary 32-bit value for the initial
/// sequence number; nothing is promised of it.
#[verifier::external_body]
fn random_sequence_number() -> (r: u32) {
    rand::random::<u32>()
}

/// Craft one SYN probe with a freshly drawn ephemeral source port and
/// initial sequence number, as the sender transmits it.
pub fn build_random_syn(src_ip: u32, dst_ip: u32, dst_port: u16) -> (r: (Vec<u8>, u16, u32))
    ensures
        r.0@ == syn_packet_spec(src_ip, dst_ip, r.1, dst_port, r.2),
        r.0@.len() == 20,
        1025 <= r.1 <= 65535,
{
    let src_port = random_ephemeral_port();
    let seqn = random_sequence_number();
    let pkt = build_syn_packet(src_ip, dst_ip, src_port, dst_port, seqn);
    (pkt, src_port, seqn)
}

/// One local interface address matches the destination's prefix.
pub open spec fn cand_matches(c: (u32, u8), dst: u32) -> bool {
    c.1 <= 32 && prefix_matches(c.0, c.1, dst)
}

/// The destination lies inside the candidate's network.
pub open spec fn prefix_matches(ip: u32, plen: u8, dst: u32) -> bool {
    if plen == 0 {
        true
    } else if plen > 32 {
        false
    } else {
        (ip >> ((32 - plen) as u32)) == (dst >> ((32 - plen) as u32))
    }
}

/// The index holds the first candidate among those with the longest
/// matching prefix.
pub open spec fn best_at(c: Seq<(u32, u8)>, dst: u32, i: int) -> bool {
    &&& 0 <= i < c.len()
    &&& cand_matches(c[i], dst)
    &&& forall|j: int| 0 <= j < c.len() && cand_matches(#[trigger] c[j], dst) ==> c[j].1 <= c[i].1
    &&& forall|j: int| 0 <= j < i && cand_matches(#[trigger] c[j], dst) ==> c[j].1 < c[i].1
}

/// A loopback address.
pub open spec fn is_loopback_index(n: u32) -> bool {
    (n >> 24) == 127
}

/// The index holds the first non-loopback candidate.
pub open spec fn first_nonloop_at(c: Seq<(u32, u8)>, i: int) -> bool {
    &&& 0 <= i < c.len()
    &&& !is_loopback_index(c[i].0)
    &&& forall|j: int| 0 <= j < i ==> is_loopback_index((#[trigger] c[j]).0)
}

/// Some candidate's network holds the destination.
pub open spec fn has_match(c: Seq<(u32, u8)>, dst: u32) -> bool {
    exists|i: int| 0 <= i < c.len() && cand_matches(#[trigger] c[i], dst)
}

/// Some candidate is not a loopback address.
pub open spec fn has_nonloop(c: Seq<(u32, u8)>) -> bool {
    exists|i: int| 0 <= i < c.len() && !is_loopback_index((#[trigger] c[i]).0)
}

/// Whether the destination lies inside a candidate's network.
fn candidate_matches(ip: u32, plen: u8, dst: u32) -> (r: bool)
    ensures
        r == cand_matches((ip, plen), dst),
{
    if plen > 32 {
        return false;
    }
    if plen == 0 {
        return true;
    }
    let shift: u32 = (32 - plen) as u32;
    (ip >> shift) == (dst >> shift)
}

/// The sender's source address for one destination: the first local
/// address among those whose network holds the destination with the
/// longest prefix, else the first non-loopback address, else nothing.
/// Candidates are `(address, prefix length)` pairs of the local
/// interfaces, in interface order.
pub fn pick_source_ip(candidates: &Vec<(u32, u8)>, dst: u32) -> (r: Option<u32>)
    ensures
        has_match(candidates@, dst) ==> exists|i: int|
            #[trigger] best_at(candidates@, dst, i) && r == Some(candidates@[i].0),
        !has_match(candidates@, dst) && has_nonloop(candidates@) ==> exists|i: int|
            #[trigger] first_nonloop_at(candidates@, i) && r == Some(candidates@[i].0),
        !has_match(candidates@, dst) && !has_nonloop(candidates@) ==> r is None,
{
    let n = candidates.len();
    let mut best: usize = n;
    let mut i: usize = 0;
    while i < n
        invariant
            i <= n == candidates@.len(),
            best <= n,
            best == n ==> forall|j: int|
                0 <= j < i ==> !cand_matches(#[trigger] candidates@[j], dst),
            best < n ==> {
                &&& (best as int) < i
                &&& cand_matches(candidates@[best as int], dst)
                &&& forall|j: int|
                    0 <= j < i && cand_matches(#[trigger] candidates@[j], dst) ==> candidates@[
                    j].1 <= candidates@[best as int].1
                &&& forall|j: int|
                    0 <= j < best && cand_matches(#[trigger] candidates@[j], dst) ==> candidates@[
                    j].1 < candidates@[best as int].1
            },
        decreases n - i,
    {
        let c = candidates[i];
        if candidate_matches(c.0, c.1, dst) {
            if best == n {
                best = i;
            } else {
                let b = candidates[best];
                if c.1 > b.1 {
                    best = i;
                }
            }
        }
        i = i + 1;
    }
    if best < n {
        proof {
            assert(best_at(candidates@, dst, best as int));
        }
        return Some(candidates[best].0);
    }
    proof {
        assert(!has_match(candidates@, dst)) by {
            if has_match(candidates@, dst) {
                let w = choose|w: int|
                    0 <= w < candidates@.len() && cand_matches(#[trigger] candidates@[w], dst);
            }
        }
    }
    let mut k: usize = 0;
    while k < n
        invariant
            k <= n == candidates@.len(),
            forall|j: int| 0 <= j < k ==> is_loopback_index((#[trigger] candidates@[j]).0),
            !has_match(candidates@, dst),
        decreases n - k,
    {
        let c = candidates[k];
        if (c.0 >> 24) != 127 {
            proof {
                assert(first_nonloop_at(candidates@, k as int));
            }
            return Some(c.0);
        }
        k = k + 1;
    }
    proof {
        assert(!has_nonloop(candidates@)) by {
            if has_nonloop(candidates@) {
                let w = choose|w: int|
                    0 <= w < candidates@.len() && !is_loopback_index((#[trigger] candidates@[w]).0);
            }
        }
    }
    None
}

} // verus!
