//! Static-peer UDP/IPv4 datagram codec and the broker-side send grant.
//! The codec holds no device or network authority; a grant is internal
//! accounting installed by trusted policy, never a token an application holds.
use vstd::prelude::*;
use crate::le::{be16, read_be16};

verus! {

pub const MAX_PAYLOAD: usize = 512;
pub const MAX_FRAME: usize = 554;
pub const MIN_FRAME: usize = 60;

#[derive(Clone, Copy, Debug, PartialEq, Eq, Structural)]
pub enum Error {
    Invalid,
    Denied,
    Expired,
    Exhausted,
}

/// A static peer: Ethernet address, IPv4 address and UDP port.
#[derive(Clone, Copy, Debug, PartialEq, Eq)]
pub struct Endpoint {
    pub mac: [u8; 6],
    pub ip: [u8; 4],
    pub port: u16,
}

/// A unicast, non-zero Ethernet address.
pub open spec fn mac_valid(mac: Seq<u8>) -> bool {
    &&& exists|i: int| 0 <= i < 6 && mac[i] != 0
    &&& mac[0] % 2 == 0
}

/// An ordinary unicast IPv4 host class: not 0/8, loopback, link-local or
/// class D and above.
pub open spec fn ip_valid(ip: Seq<u8>) -> bool {
    &&& 1 <= ip[0] < 224
    &&& ip[0] != 127
    &&& !(ip[0] == 169 && ip[1] == 254)
}

impl Endpoint {
    pub open spec fn spec_valid(self) -> bool {
        &&& mac_valid(self.mac@)
        &&& ip_valid(self.ip@)
        &&& self.port != 0
    }

    pub fn valid(&self) -> (r: bool)
        ensures
            r == self.spec_valid(),
    {
        let mut nonzero = false;
        let mut i: usize = 0;
        while i < 6
            invariant
                i <= 6,
                nonzero == (exists|k: int| 0 <= k < i && self.mac@[k] != 0),
            decreases 6 - i,
        {
            if self.mac[i] != 0 {
                nonzero = true;
            }
            i = i + 1;
        }
        nonzero && self.mac[0] % 2 == 0 && 1 <= self.ip[0] && self.ip[0] < 224 && self.ip[0] != 127
            && !(self.ip[0] == 169 && self.ip[1] == 254) && self.port != 0
    }

    /// Field-wise equality of two endpoints.
    pub fn same(&self, other: &Endpoint) -> (r: bool)
        ensures
            r == (*self == *other),
    {
        let r = same_bytes(&self.mac, &other.mac) && same_bytes(&self.ip, &other.ip) && self.port == other.port;
        proof {
            if same_bytes_spec(self.mac@, other.mac@) && same_bytes_spec(self.ip@, other.ip@) {
                assert(self.mac =~= other.mac);
                assert(self.ip =~= other.ip);
            }
        }
        r
    }
}

pub open spec fn same_bytes_spec(a: Seq<u8>, b: Seq<u8>) -> bool {
    a.len() == b.len() && forall|i: int| 0 <= i < a.len() ==> a[i] == b[i]
}

/// Byte-wise comparison of two byte strings.
pub fn same_bytes(a: &[u8], b: &[u8]) -> (r: bool)
    ensures
        r == same_bytes_spec(a@, b@),
        r == (a@ == b@),
{
    if a.len() != b.len() {
        return false;
    }
    let mut i: usize = 0;
    while i < a.len()
        invariant
            a.len() == b.len(),
            i <= a.len(),
            forall|k: int| 0 <= k < i ==> a@[k] == b@[k],
        decreases a.len() - i,
    {
        if a[i] != b[i] {
            return false;
        }
        i = i + 1;
    }
    proof {
        assert(a@ =~= b@);
    }
    true
}

/// Network-order (big-endian) encoding of a 16-bit value.
pub open spec fn be2(x: int) -> Seq<u8> {
    seq![((x / 256) % 256) as u8, (x % 256) as u8]
}

/// Network-order 16-bit word at `i`, with an absent trailing byte read as zero.
pub open spec fn word_at(s: Seq<u8>, i: int) -> nat {
    (s[i] as nat * 256 + if i + 1 < s.len() { s[i + 1] as nat } else { 0 }) as nat
}

/// Sum of the first `k` network-order words of `s`.
pub open spec fn words_sum(s: Seq<u8>, k: nat) -> nat
    decreases k,
{
    if k == 0 {
        0
    } else {
        words_sum(s, (k - 1) as nat) + word_at(s, 2 * (k - 1))
    }
}

/// Plain sum of all 16-bit words of `s` (an odd tail byte is padded with zero).
pub open spec fn sum16(s: Seq<u8>) -> nat {
    words_sum(s, ((s.len() + 1) / 2) as nat)
}

/// End-around-carry folding of a sum into 16 bits.
pub open spec fn fold16(v: nat) -> nat
    decreases v,
{
    if v < 65536 {
        v
    } else {
        fold16((v % 65536 + v / 65536) as nat)
    }
}

/// Internet checksum of a plain word sum: the ones' complement of its fold.
pub open spec fn complement16(v: nat) -> u16 {
    (65535 - fold16(v)) as u16
}

proof fn lemma_fold16_bound(v: nat)
    ensures
        fold16(v) < 65536,
    decreases v,
{
    if v >= 65536 {
        lemma_fold16_bound((v % 65536 + v / 65536) as nat);
    }
}

/// Ones' complement of the end-around-carry fold of a word sum.
pub fn complement(value: u32) -> (r: u16)
    ensures
        r == complement16(value as nat),
{
    let mut v = value;
    while v >= 65536
        invariant
            fold16(v as nat) == fold16(value as nat),
        decreases v,
    {
        v = v % 65536 + v / 65536;
    }
    proof {
        lemma_fold16_bound(value as nat);
    }
    (65535 - v) as u16
}

/// Plain sum of the network-order 16-bit words of `bytes`.
pub fn sum(bytes: &[u8]) -> (r: u32)
    requires
        bytes@.len() <= 65536,
    ensures
        r == sum16(bytes@),
{
    let r = sum_range(bytes, 0, bytes.len());
    proof {
        assert(bytes@.subrange(0, bytes@.len() as int) =~= bytes@);
    }
    r
}

/// Sum of the 16-bit words of `b[start..end]`.
fn sum_range(b: &[u8], start: usize, end: usize) -> (r: u32)
    requires
        start <= end <= b.len(),
        b.len() <= 65536,
    ensures
        r == sum16(b@.subrange(start as int, end as int)),
        r <= 65535 * ((end - start + 1) / 2),
{
    let ghost s = b@.subrange(start as int, end as int);
    let mut value: u32 = 0;
    let mut i: usize = start;
    let mut k: usize = 0;
    while i < end
        invariant
            start <= i,
            i <= end + 1,
            end <= b.len(),
            b.len() <= 65536,
            s == b@.subrange(start as int, end as int),
            i == start + 2 * k,
            value == words_sum(s, k as nat),
            value <= 65535 * k,
        decreases end + 1 - i,
    {
        let lo: u32 = if i + 1 < end { b[i + 1] as u32 } else { 0 };
        proof {
            assert(word_at(s, 2 * k as int) == b@[i as int] as nat * 256 + lo);
        }
        value = value + b[i] as u32 * 256 + lo;
        i = i + 2;
        k = k + 1;
    }
    proof {
        assert(k == (s.len() + 1) / 2);
    }
    value
}


/// IPv4 header of a datagram with `n` payload bytes, checksum field zero.
pub open spec fn ip_header0(source: Endpoint, destination: Endpoint, id: u16, n: nat) -> Seq<u8> {
    seq![0x45u8, 0u8] + be2(28 + n as int) + be2(id as int) + seq![0x40u8, 0u8, 64u8, 17u8, 0u8, 0u8]
        + source.ip@ + destination.ip@
}

/// UDP header for `n` payload bytes, checksum field zero.
pub open spec fn udp_header0(source: Endpoint, destination: Endpoint, n: nat) -> Seq<u8> {
    be2(source.port as int) + be2(destination.port as int) + be2(8 + n as int) + seq![0u8, 0u8]
}

/// UDP checksum over the IPv4 pseudo-header and the UDP header and payload.
pub open spec fn udp_checksum_spec(source_ip: Seq<u8>, destination_ip: Seq<u8>, udp: Seq<u8>) -> u16 {
    complement16(sum16(source_ip) + sum16(destination_ip) + 17 + udp.len() + sum16(udp))
}

/// Returns `s` with the 16-bit network-order value `x` written at `at`.
pub open spec fn put_be2(s: Seq<u8>, at: int, x: int) -> Seq<u8> {
    s.update(at, be2(x)[0]).update(at + 1, be2(x)[1])
}

/// Number of frame bytes for a payload of `n` bytes: headers plus payload,
/// padded to the Ethernet minimum.
pub open spec fn frame_len(n: nat) -> nat {
    if 42 + n < 60 { 60 } else { 42 + n }
}

/// Headers and payload of a datagram, before padding.
#[verifier::opaque]
pub open spec fn packet_spec(source: Endpoint, destination: Endpoint, id: u16, payload: Seq<u8>) -> Seq<u8> {
    let n = payload.len();
    let ip0 = ip_header0(source, destination, id, n);
    let udp0 = udp_header0(source, destination, n) + payload;
    let u = udp_checksum_spec(source.ip@, destination.ip@, udp0);
    let uf: int = if u == 0 { 0xffff } else { u as int };
    destination.mac@ + source.mac@ + be2(0x0800) + put_be2(ip0, 10, complement16(sum16(ip0)) as int) + put_be2(
        udp0,
        6,
        uf,
    )
}

/// The complete frame for a datagram from `source` to `destination`: the
/// packet, zero-padded to the Ethernet minimum.
#[verifier::opaque]
pub open spec fn frame_spec(source: Endpoint, destination: Endpoint, id: u16, payload: Seq<u8>) -> Seq<u8> {
    let packet = packet_spec(source, destination, id, payload);
    packet + Seq::new((frame_len(payload.len()) - packet.len()) as nat, |i: int| 0u8)
}

fn push_be2(v: &mut Vec<u8>, x: u16)
    ensures
        final(v)@ == old(v)@ + be2(x as int),
{
    v.push((x / 256) as u8);
    v.push((x % 256) as u8);
    proof {
        assert(final(v)@ =~= old(v)@ + be2(x as int));
    }
}

fn push_all(v: &mut Vec<u8>, s: &[u8])
    ensures
        final(v)@ == old(v)@ + s@,
{
    let mut i: usize = 0;
    while i < s.len()
        invariant
            i <= s.len(),
            v@ == old(v)@ + s@.subrange(0, i as int),
        decreases s.len() - i,
    {
        v.push(s[i]);
        i = i + 1;
        proof {
            assert(v@ =~= old(v)@ + s@.subrange(0, i as int));
        }
    }
    proof {
        assert(s@.subrange(0, i as int) =~= s@);
    }
}

fn set_be2(v: &mut Vec<u8>, at: usize, x: u16)
    requires
        at + 2 <= old(v)@.len(),
        old(v)@.len() <= 4096,
    ensures
        final(v)@ == put_be2(old(v)@, at as int, x as int),
{
    v.set(at, (x / 256) as u8);
    v.set(at + 1, (x % 256) as u8);
}

/// Ethernet and IPv4 headers of a datagram, with the IPv4 checksum set.
fn frame_head(source: Endpoint, destination: Endpoint, id: u16, n: usize) -> (f: Vec<u8>)
    requires
        n <= MAX_PAYLOAD,
    ensures
        f@ == destination.mac@ + source.mac@ + be2(0x0800) + put_be2(
            ip_header0(source, destination, id, n as nat),
            10,
            complement16(sum16(ip_header0(source, destination, id, n as nat))) as int,
        ),
{
    let ghost ip0 = ip_header0(source, destination, id, n as nat);
    let ghost head = destination.mac@ + source.mac@ + be2(0x0800);
    let mut f: Vec<u8> = Vec::new();
    push_all(&mut f, &destination.mac);
    push_all(&mut f, &source.mac);
    push_be2(&mut f, 0x0800);
    proof {
        assert(f@ =~= head);
    }
    f.push(0x45);
    f.push(0);
    push_be2(&mut f, (28 + n) as u16);
    push_be2(&mut f, id);
    f.push(0x40);
    f.push(0);
    f.push(64);
    f.push(17);
    f.push(0);
    f.push(0);
    push_all(&mut f, &source.ip);
    push_all(&mut f, &destination.ip);
    proof {
        assert(f@ =~= head + ip0);
        assert(f@.subrange(14, 34) =~= ip0);
    }
    let ip_check = complement(sum_range(f.as_slice(), 14, 34));
    set_be2(&mut f, 24, ip_check);
    proof {
        assert(f@ =~= head + put_be2(ip0, 10, ip_check as int));
    }
    f
}

/// The unpadded packet: headers, UDP header with its checksum, and payload.
#[verifier::rlimit(40)]
fn packet(source: Endpoint, destination: Endpoint, id: u16, payload: &[u8]) -> (f: Vec<u8>)
    requires
        payload@.len() <= MAX_PAYLOAD,
    ensures
        f@ == packet_spec(source, destination, id, payload@),
{
    reveal(packet_spec);
    let n = payload.len();
    let ghost udp0 = udp_header0(source, destination, n as nat) + payload@;
    let mut f = frame_head(source, destination, id, n);
    let ghost head = f@;
    push_be2(&mut f, source.port);
    push_be2(&mut f, destination.port);
    push_be2(&mut f, (8 + n) as u16);
    f.push(0);
    f.push(0);
    push_all(&mut f, payload);
    proof {
        assert(f@ =~= head + udp0);
        assert(f@.subrange(34, 42 + n as int) =~= udp0);
    }
    let udp_sum = sum_range(f.as_slice(), 34, 42 + n);
    let source_sum = sum_range(&source.ip, 0, 4);
    let destination_sum = sum_range(&destination.ip, 0, 4);
    proof {
        assert(source.ip@.subrange(0, 4) =~= source.ip@);
        assert(destination.ip@.subrange(0, 4) =~= destination.ip@);
    }
    let u = complement(source_sum + destination_sum + 17 + (8 + n) as u32 + udp_sum);
    let uf: u16 = if u == 0 { 0xffff } else { u };
    set_be2(&mut f, 40, uf);
    proof {
        assert(f@ =~= head + put_be2(udp0, 6, uf as int));
    }
    f
}

/// The padded frame of a datagram between two valid endpoints.
pub(crate) fn frame_vec(source: Endpoint, destination: Endpoint, id: u16, payload: &[u8]) -> (f: Vec<u8>)
    requires
        payload@.len() <= MAX_PAYLOAD,
    ensures
        f@ == frame_spec(source, destination, id, payload@),
        f@.len() == frame_len(payload@.len()),
{
    let n = payload.len();
    let packet_bytes = 42 + n;
    let frame_bytes = if packet_bytes < MIN_FRAME { MIN_FRAME } else { packet_bytes };
    let mut f = packet(source, destination, id, payload);
    let ghost p = f@;
    proof {
        lemma_packet_layout(source, destination, id, payload@);
    }
    while f.len() < frame_bytes
        invariant
            p.len() == packet_bytes,
            packet_bytes <= frame_bytes,
            frame_bytes <= 554,
            f@ == p + Seq::new((f@.len() - p.len()) as nat, |i: int| 0u8),
            f@.len() <= frame_bytes,
        decreases frame_bytes - f.len(),
    {
        f.push(0);
        proof {
            assert(f@ =~= p + Seq::new((f@.len() - p.len()) as nat, |i: int| 0u8));
        }
    }
    proof {
        reveal(frame_spec);
        assert(f@ =~= frame_spec(source, destination, id, payload@));
    }
    f
}

/// Encodes one datagram into the front of `output` and returns the frame
/// length. Refused inputs leave `output` unchanged; bytes beyond the frame are
/// never written.
pub fn encode(source: Endpoint, destination: Endpoint, id: u16, payload: &[u8], output: &mut [u8]) -> (r: Result<usize, Error>)
    ensures
        r is Err <==> (!source.spec_valid() || !destination.spec_valid() || payload@.len() > MAX_PAYLOAD
            || old(output)@.len() < frame_len(payload@.len())),
        match r {
            Ok(n) => n == frame_len(payload@.len()) && final(output)@ == frame_spec(source, destination, id, payload@)
                + old(output)@.subrange(n as int, old(output)@.len() as int),
            Err(e) => e == Error::Invalid && final(output)@ == old(output)@,
        },
{
    if !source.valid() || !destination.valid() || payload.len() > MAX_PAYLOAD {
        return Err(Error::Invalid);
    }
    let n = payload.len();
    let packet_bytes = 42 + n;
    let frame_bytes = if packet_bytes < MIN_FRAME { MIN_FRAME } else { packet_bytes };
    if output.len() < frame_bytes {
        return Err(Error::Invalid);
    }
    let f = frame_vec(source, destination, id, payload);
    let mut i: usize = 0;
    while i < frame_bytes
        invariant
            f@.len() == frame_bytes,
            frame_bytes <= output@.len(),
            output@.len() == old(output)@.len(),
            i <= frame_bytes,
            forall|k: int| 0 <= k < i ==> output@[k] == f@[k],
            forall|k: int| i <= k < output@.len() ==> output@[k] == old(output)@[k],
        decreases frame_bytes - i,
    {
        output[i] = f[i];
        i = i + 1;
    }
    proof {
        assert(final(output)@ =~= f@ + old(output)@.subrange(frame_bytes as int, old(output)@.len() as int));
    }
    Ok(frame_bytes)
}

/// What `decode` makes of a frame: the bounds of the payload within it, or
/// the refusal, checked in this order: configuration and frame length;
/// Ethernet addressing; IPv4 shape and header checksum; IPv4 length; IPv4
/// addressing; UDP length and checksum; UDP ports.
pub open spec fn decode_spec(frame: Seq<u8>, local: Endpoint, peer: Endpoint) -> Result<(int, int), Error> {
    if !local.spec_valid() || !peer.spec_valid() || frame.len() < MIN_FRAME || frame.len() > MAX_FRAME {
        Err(Error::Invalid)
    } else if frame.subrange(0, 6) != local.mac@ || frame.subrange(6, 12) != peer.mac@ || be16(frame, 12) != 0x0800 {
        Err(Error::Denied)
    } else if frame[14] != 0x45 || frame[22] == 0 || frame[23] != 17 || !(be16(frame, 20) == 0 || be16(frame, 20)
        == 0x4000) || complement16(sum16(frame.subrange(14, 34))) != 0 {
        Err(Error::Invalid)
    } else if be16(frame, 16) < 28 || be16(frame, 16) > 28 + MAX_PAYLOAD || be16(frame, 16) > frame.len() - 14 {
        Err(Error::Invalid)
    } else if frame.subrange(26, 30) != peer.ip@ || frame.subrange(30, 34) != local.ip@ {
        Err(Error::Denied)
    } else {
        let end = 14 + be16(frame, 16);
        let udp = frame.subrange(34, end);
        if be16(frame, 38) != udp.len() || be16(frame, 40) == 0 || udp_checksum_spec(peer.ip@, local.ip@, udp) != 0 {
            Err(Error::Invalid)
        } else if be16(frame, 34) != peer.port || be16(frame, 36) != local.port {
            Err(Error::Denied)
        } else {
            Ok((42, end))
        }
    }
}

/// Accepts a datagram from exactly the configured peer to `local` and returns
/// its payload, a view into `frame`. Bytes after the IPv4 length are padding
/// and are never returned.
pub fn decode<'a>(frame: &'a [u8], local: Endpoint, peer: Endpoint) -> (r: Result<&'a [u8], Error>)
    ensures
        match r {
            Ok(p) => decode_spec(frame@, local, peer) is Ok && p@ == frame@.subrange(
                decode_spec(frame@, local, peer)->Ok_0.0,
                decode_spec(frame@, local, peer)->Ok_0.1,
            ),
            Err(e) => decode_spec(frame@, local, peer) == Err::<(int, int), Error>(e),
        },
{
    if !local.valid() || !peer.valid() || frame.len() < MIN_FRAME || frame.len() > MAX_FRAME {
        return Err(Error::Invalid);
    }
    if !same_bytes(&frame[0..6], &local.mac) || !same_bytes(&frame[6..12], &peer.mac) || read_be16(frame, 12)
        != 0x0800 {
        return Err(Error::Denied);
    }
    let flags = read_be16(frame, 20);
    if frame[14] != 0x45 || frame[22] == 0 || frame[23] != 17 || !(flags == 0 || flags == 0x4000) || complement(
        sum_range(frame, 14, 34),
    ) != 0 {
        return Err(Error::Invalid);
    }
    let total = read_be16(frame, 16) as usize;
    if total < 28 || total > 28 + MAX_PAYLOAD || total > frame.len() - 14 {
        return Err(Error::Invalid);
    }
    if !same_bytes(&frame[26..30], &peer.ip) || !same_bytes(&frame[30..34], &local.ip) {
        return Err(Error::Denied);
    }
    let end = 14 + total;
    let peer_sum = sum_range(&peer.ip, 0, 4);
    let local_sum = sum_range(&local.ip, 0, 4);
    proof {
        assert(peer.ip@.subrange(0, 4) =~= peer.ip@);
        assert(local.ip@.subrange(0, 4) =~= local.ip@);
    }
    let udp_len = read_be16(frame, 38) as usize;
    if udp_len != end - 34 || read_be16(frame, 40) == 0 || complement(
        peer_sum + local_sum + 17 + (end - 34) as u32 + sum_range(frame, 34, end),
    ) != 0 {
        return Err(Error::Invalid);
    }
    if read_be16(frame, 34) != peer.port || read_be16(frame, 36) != local.port {
        return Err(Error::Denied);
    }
    Ok(&frame[42..end])
}

/// Abstract state of a send grant.
pub struct GrantView {
    pub principal: u64,
    pub incarnation: u64,
    pub peer: Endpoint,
    pub expires: u64,
    pub last_tick: u64,
    pub packets: u32,
    pub bytes: u32,
    pub revoked: bool,
}

/// Broker-side accounting for sends by one principal incarnation to one peer
/// until an expiry tick. Caller identity must come from authenticated kernel
/// envelope metadata, never from application payload bytes.
pub struct Grant {
    principal: u64,
    incarnation: u64,
    peer: Endpoint,
    expires: u64,
    last_tick: u64,
    packets: u32,
    bytes: u32,
    revoked: bool,
}

impl View for Grant {
    type V = GrantView;

    closed spec fn view(&self) -> GrantView {
        GrantView {
            principal: self.principal,
            incarnation: self.incarnation,
            peer: self.peer,
            expires: self.expires,
            last_tick: self.last_tick,
            packets: self.packets,
            bytes: self.bytes,
            revoked: self.revoked,
        }
    }
}

/// Outcome of a reservation: the grant afterwards and the result. Identity is
/// checked first, then the clock (an observed tick is kept even when the
/// reservation fails, so a stale later sample cannot resurrect the grant),
/// then the payload bound, then the remaining budget.
pub open spec fn reserve_spec(g: GrantView, principal: u64, incarnation: u64, peer: Endpoint, now: u64, payload_bytes: nat) -> (GrantView, Result<(), Error>) {
    if g.revoked || principal != g.principal || incarnation != g.incarnation || peer != g.peer {
        (g, Err(Error::Denied))
    } else if now < g.last_tick || now >= g.expires {
        (GrantView { last_tick: if now > g.last_tick { now } else { g.last_tick }, ..g }, Err(Error::Expired))
    } else if payload_bytes > MAX_PAYLOAD {
        (GrantView { last_tick: now, ..g }, Err(Error::Invalid))
    } else if g.packets == 0 || payload_bytes > g.bytes {
        (GrantView { last_tick: now, ..g }, Err(Error::Exhausted))
    } else {
        (
            GrantView {
                last_tick: now,
                packets: (g.packets - 1) as u32,
                bytes: (g.bytes - payload_bytes) as u32,
                ..g
            },
            Ok(()),
        )
    }
}

impl Grant {
    pub fn new(principal: u64, incarnation: u64, peer: Endpoint, now: u64, expires: u64, packets: u32, bytes: u32) -> (r: Result<Self, Error>)
        ensures
            r is Err <==> (principal == 0 || incarnation == 0 || !peer.spec_valid() || expires <= now || packets == 0),
            match r {
                Ok(g) => g@ == (GrantView {
                    principal,
                    incarnation,
                    peer,
                    expires,
                    last_tick: now,
                    packets,
                    bytes,
                    revoked: false,
                }),
                Err(e) => e == Error::Invalid,
            },
    {
        if principal == 0 || incarnation == 0 || !peer.valid() || expires <= now || packets == 0 {
            return Err(Error::Invalid);
        }
        Ok(Grant { principal, incarnation, peer, expires, last_tick: now, packets, bytes, revoked: false })
    }

    pub fn revoke(&mut self)
        ensures
            final(self)@ == (GrantView { revoked: true, ..old(self)@ }),
    {
        self.revoked = true;
    }

    /// Remaining packets and payload bytes.
    pub fn remaining(&self) -> (r: (u32, u32))
        ensures
            r == (self@.packets, self@.bytes),
    {
        (self.packets, self.bytes)
    }

    /// Reserves one packet of `payload_bytes` before any I/O; a reservation is
    /// never refunded.
    pub fn reserve(&mut self, principal: u64, incarnation: u64, peer: Endpoint, now: u64, payload_bytes: usize) -> (r: Result<(), Error>)
        ensures
            final(self)@ == reserve_spec(old(self)@, principal, incarnation, peer, now, payload_bytes as nat).0,
            r == reserve_spec(old(self)@, principal, incarnation, peer, now, payload_bytes as nat).1,
    {
        if self.revoked || principal != self.principal || incarnation != self.incarnation || !peer.same(&self.peer) {
            return Err(Error::Denied);
        }
        if now < self.last_tick || now >= self.expires {
            if now > self.last_tick {
                self.last_tick = now;
            }
            return Err(Error::Expired);
        }
        self.last_tick = now;
        if payload_bytes > MAX_PAYLOAD {
            return Err(Error::Invalid);
        }
        if self.packets == 0 || payload_bytes > self.bytes as usize {
            return Err(Error::Exhausted);
        }
        self.packets = self.packets - 1;
        self.bytes = self.bytes - payload_bytes as u32;
        Ok(())
    }
}

proof fn lemma_fold16(v: nat)
    ensures
        fold16(v) < 65536,
        fold16(v) % 65535 == v % 65535,
        (fold16(v) == 0) == (v == 0),
    decreases v,
{
    if v >= 65536 {
        let q = v / 65536;
        let r = v % 65536;
        let w = (r + q) as nat;
        assert(v == 65536 * q + r);
        vstd::arithmetic::div_mod::lemma_mod_multiples_vanish(q as int, w as int, 65535);
        assert(65535 * q + w == v);
        lemma_fold16(w);
    }
}

/// A positive multiple of 65535 folds to 65535, whose complement is zero.
proof fn lemma_fold16_multiple(v: nat)
    requires
        v > 0,
        v % 65535 == 0,
    ensures
        complement16(v) == 0,
{
    lemma_fold16(v);
    let f = fold16(v);
    assert(f == 65535) by {
        if f != 65535 {
            assert(f < 65535);
            assert(f % 65535 == f);
        }
    }
}

/// Adding the complement of a fold to the sum it came from gives a sum whose
/// checksum is zero.
proof fn lemma_checksum_closes(s: nat)
    ensures
        complement16(s + (65535 - fold16(s)) as nat) == 0,
{
    lemma_fold16(s);
    let t = (s + (65535 - fold16(s))) as nat;
    assert(s == 65535 * (s / 65535) + s % 65535) by {
        vstd::arithmetic::div_mod::lemma_fundamental_div_mod(s as int, 65535);
    }
    assert(fold16(s) == 65535 * (fold16(s) / 65535) + fold16(s) % 65535) by {
        vstd::arithmetic::div_mod::lemma_fundamental_div_mod(fold16(s) as int, 65535);
    }
    assert(t == 65535 * (s / 65535 - fold16(s) / 65535 + 1));
    vstd::arithmetic::div_mod::lemma_mod_multiples_vanish((s / 65535 - fold16(s) / 65535 + 1) as int, 0, 65535);
    lemma_fold16_multiple(t);
}

proof fn lemma_words_sum_put(s: Seq<u8>, at: int, x: int, k: nat)
    requires
        0 <= at,
        at % 2 == 0,
        at + 1 < s.len(),
        s[at] == 0,
        s[at + 1] == 0,
        0 <= x < 65536,
        2 * k <= s.len() + 1,
    ensures
        words_sum(put_be2(s, at, x), k) == words_sum(s, k) + if 2 * k > at { x } else { 0 },
    decreases k,
{
    if k > 0 {
        lemma_words_sum_put(s, at, x, (k - 1) as nat);
        let t = put_be2(s, at, x);
        let j = 2 * (k - 1);
        if j == at {
            assert(word_at(t, j) == x);
            assert(word_at(s, j) == 0);
        } else {
            assert(t.len() == s.len());
            assert(t[j] == s[j]);
            assert(j + 1 < t.len() ==> t[j + 1] == s[j + 1]);
            assert(word_at(t, j) == word_at(s, j));
        }
    }
}

/// Writing a word into an even, zeroed position adds it to the word sum.
proof fn lemma_sum16_put(s: Seq<u8>, at: int, x: int)
    requires
        0 <= at,
        at % 2 == 0,
        at + 1 < s.len(),
        s[at] == 0,
        s[at + 1] == 0,
        0 <= x < 65536,
    ensures
        sum16(put_be2(s, at, x)) == sum16(s) + x,
{
    lemma_words_sum_put(s, at, x, ((s.len() + 1) / 2) as nat);
}

/// Where the fields of an encoded packet stand.
#[verifier::rlimit(60)]
proof fn lemma_packet_layout(source: Endpoint, destination: Endpoint, id: u16, payload: Seq<u8>)
    requires
        payload.len() <= MAX_PAYLOAD,
    ensures
        ({
            let n = payload.len() as int;
            let ip0 = ip_header0(source, destination, id, n as nat);
            let udp0 = udp_header0(source, destination, n as nat) + payload;
            let u = udp_checksum_spec(source.ip@, destination.ip@, udp0);
            let uf: int = if u == 0 { 0xffff } else { u as int };
            let p = packet_spec(source, destination, id, payload);
            &&& ip0.len() == 20
            &&& udp0.len() == 8 + n
            &&& ip0[10] == 0 && ip0[11] == 0
            &&& udp0[6] == 0 && udp0[7] == 0
            &&& p.len() == 42 + n
            &&& p.subrange(0, 6) == destination.mac@
            &&& p.subrange(6, 12) == source.mac@
            &&& p.subrange(12, 14) == be2(0x0800)
            &&& p.subrange(14, 34) == put_be2(ip0, 10, complement16(sum16(ip0)) as int)
            &&& p.subrange(34, 42 + n) == put_be2(udp0, 6, uf)
            &&& p.subrange(26, 30) == source.ip@
            &&& p.subrange(30, 34) == destination.ip@
            &&& p.subrange(42, 42 + n) == payload
        }),
{
    reveal(packet_spec);
    let n = payload.len() as int;
    let ip0 = ip_header0(source, destination, id, n as nat);
    let c = complement16(sum16(ip0));
    let iph = put_be2(ip0, 10, c as int);
    let udp0 = udp_header0(source, destination, n as nat) + payload;
    let u = udp_checksum_spec(source.ip@, destination.ip@, udp0);
    let uf: int = if u == 0 { 0xffff } else { u as int };
    let udph = put_be2(udp0, 6, uf);
    let p = packet_spec(source, destination, id, payload);
    assert(p.subrange(0, 6) =~= destination.mac@);
    assert(p.subrange(6, 12) =~= source.mac@);
    assert(p.subrange(12, 14) =~= be2(0x0800));
    assert(p.subrange(14, 34) =~= iph);
    assert(p.subrange(34, 42 + n) =~= udph);
    assert(p.subrange(26, 30) =~= source.ip@);
    assert(p.subrange(30, 34) =~= destination.ip@);
    assert(p.subrange(42, 42 + n) =~= payload);
}

/// The individual header bytes of an encoded packet.
proof fn lemma_packet_fields(source: Endpoint, destination: Endpoint, id: u16, payload: Seq<u8>)
    requires
        payload.len() <= MAX_PAYLOAD,
    ensures
        ({
            let n = payload.len() as int;
            let udp0 = udp_header0(source, destination, n as nat) + payload;
            let u = udp_checksum_spec(source.ip@, destination.ip@, udp0);
            let uf: int = if u == 0 { 0xffff } else { u as int };
            let p = packet_spec(source, destination, id, payload);
            &&& p[12] == 8 && p[13] == 0
            &&& p[14] == 0x45 && p[22] == 64 && p[23] == 17
            &&& p[16] == be2(28 + n)[0] && p[17] == be2(28 + n)[1]
            &&& p[20] == 0x40 && p[21] == 0
            &&& p[34] == be2(source.port as int)[0] && p[35] == be2(source.port as int)[1]
            &&& p[36] == be2(destination.port as int)[0] && p[37] == be2(destination.port as int)[1]
            &&& p[38] == be2(8 + n)[0] && p[39] == be2(8 + n)[1]
            &&& p[40] == be2(uf)[0] && p[41] == be2(uf)[1]
        }),
{
    lemma_packet_layout(source, destination, id, payload);
    let n = payload.len() as int;
    let ip0 = ip_header0(source, destination, id, n as nat);
    let p = packet_spec(source, destination, id, payload);
    let iph = p.subrange(14, 34);
    let udph = p.subrange(34, 42 + n);
    assert(p[12] == p.subrange(12, 14)[0] && p[13] == p.subrange(12, 14)[1]);
    assert(p[14] == iph[0] && p[16] == iph[2] && p[17] == iph[3] && p[20] == iph[6] && p[21] == iph[7]);
    assert(p[22] == iph[8] && p[23] == iph[9]);
    assert(p[34] == udph[0] && p[35] == udph[1] && p[36] == udph[2] && p[37] == udph[3]);
    assert(p[38] == udph[4] && p[39] == udph[5] && p[40] == udph[6] && p[41] == udph[7]);
}

/// The frame keeps the packet in front and only pads it.
proof fn lemma_frame_prefix(source: Endpoint, destination: Endpoint, id: u16, payload: Seq<u8>)
    requires
        payload.len() <= MAX_PAYLOAD,
    ensures
        ({
            let p = packet_spec(source, destination, id, payload);
            let f = frame_spec(source, destination, id, payload);
            &&& f.len() == frame_len(payload.len())
            &&& f.subrange(0, p.len() as int) == p
            &&& forall|i: int| 0 <= i < p.len() ==> f[i] == p[i]
        }),
{
    reveal(frame_spec);
    lemma_packet_layout(source, destination, id, payload);
    let p = packet_spec(source, destination, id, payload);
    let f = frame_spec(source, destination, id, payload);
    assert(f.subrange(0, p.len() as int) =~= p);
}

/// The IPv4 header checksum of an encoded frame verifies.
proof fn lemma_ip_checksum(source: Endpoint, destination: Endpoint, id: u16, n: nat)
    requires
        n <= MAX_PAYLOAD,
    ensures
        ({
            let ip0 = ip_header0(source, destination, id, n);
            complement16(sum16(put_be2(ip0, 10, complement16(sum16(ip0)) as int))) == 0
        }),
{
    let ip0 = ip_header0(source, destination, id, n);
    assert(ip0.len() == 20 && ip0[10] == 0 && ip0[11] == 0);
    let c = complement16(sum16(ip0));
    lemma_fold16(sum16(ip0));
    lemma_sum16_put(ip0, 10, c as int);
    lemma_checksum_closes(sum16(ip0));
}

/// The UDP checksum of an encoded frame verifies, also where a computed zero
/// was sent as 0xffff.
proof fn lemma_udp_checksum(source: Endpoint, destination: Endpoint, payload: Seq<u8>)
    requires
        payload.len() <= MAX_PAYLOAD,
    ensures
        ({
            let udp0 = udp_header0(source, destination, payload.len()) + payload;
            let u = udp_checksum_spec(source.ip@, destination.ip@, udp0);
            let uf: int = if u == 0 { 0xffff } else { u as int };
            udp_checksum_spec(source.ip@, destination.ip@, put_be2(udp0, 6, uf)) == 0
        }),
{
    let udp0 = udp_header0(source, destination, payload.len()) + payload;
    assert(udp0[6] == 0 && udp0[7] == 0);
    let u = udp_checksum_spec(source.ip@, destination.ip@, udp0);
    let uf: int = if u == 0 { 0xffff } else { u as int };
    let base = sum16(source.ip@) + sum16(destination.ip@) + 17 + udp0.len();
    let total = (base + sum16(udp0)) as nat;
    lemma_fold16(total);
    lemma_sum16_put(udp0, 6, uf);
    assert(put_be2(udp0, 6, uf).len() == udp0.len());
    if u == 0 {
        assert(fold16(total) == 65535);
        assert(((total + 65535) as nat) % 65535 == 0) by {
            vstd::arithmetic::div_mod::lemma_mod_multiples_vanish(1, total as int, 65535);
        }
        lemma_fold16_multiple((total + 65535) as nat);
    } else {
        lemma_checksum_closes(total);
    }
}

/// Decoding the frame that `encode` produces, at the destination and from the
/// source, gives back exactly the payload: the headers, both checksums and
/// the padding are accepted.
#[verifier::rlimit(100)]
pub proof fn law_decode_inverts_encode(source: Endpoint, destination: Endpoint, id: u16, payload: Seq<u8>)
    requires
        source.spec_valid(),
        destination.spec_valid(),
        payload.len() <= MAX_PAYLOAD,
    ensures
        decode_spec(frame_spec(source, destination, id, payload), destination, source) == Ok::<(int, int), Error>(
            (42, 42 + payload.len() as int),
        ),
        frame_spec(source, destination, id, payload).subrange(42, 42 + payload.len() as int) == payload,
        frame_spec(source, destination, id, payload).len() == frame_len(payload.len()),
        forall|k: int|
            42 + payload.len() <= k < frame_len(payload.len()) ==> #[trigger] frame_spec(source, destination, id, payload)[k]
                == 0,
{
    let n = payload.len() as int;
    let p = packet_spec(source, destination, id, payload);
    let frame = frame_spec(source, destination, id, payload);
    lemma_packet_layout(source, destination, id, payload);
    lemma_packet_fields(source, destination, id, payload);
    lemma_frame_prefix(source, destination, id, payload);
    lemma_ip_checksum(source, destination, id, n as nat);
    lemma_udp_checksum(source, destination, payload);
    assert(frame.subrange(0, 6) =~= p.subrange(0, 6));
    assert(frame.subrange(6, 12) =~= p.subrange(6, 12));
    assert(frame.subrange(14, 34) =~= p.subrange(14, 34));
    assert(frame.subrange(26, 30) =~= p.subrange(26, 30));
    assert(frame.subrange(30, 34) =~= p.subrange(30, 34));
    assert(frame.subrange(34, 42 + n) =~= p.subrange(34, 42 + n));
    assert(frame.subrange(42, 42 + n) =~= p.subrange(42, 42 + n));
    assert(be16(frame, 12) == 0x0800);
    assert(be16(frame, 16) == 28 + n);
    assert(be16(frame, 20) == 0x4000);
    assert(be16(frame, 34) == source.port);
    assert(be16(frame, 36) == destination.port);
    assert(be16(frame, 38) == 8 + n);
    assert(be16(frame, 40) != 0);
    assert(frame[14] == 0x45 && frame[22] == 64 && frame[23] == 17);
    assert(p.len() == 42 + n);
    let z = Seq::new((frame_len(payload.len()) - p.len()) as nat, |i: int| 0u8);
    assert(frame == p + z) by {
        reveal(frame_spec);
    }
    assert forall|k: int| 42 + n <= k < frame_len(payload.len()) implies #[trigger] frame[k] == 0 by {
        assert((p + z)[k] == z[k - p.len()]);
    }
}

} // verus!
