//! Application wire codec: the read-only bootstrap record an application is
//! started with, and the fixed-size message every request and reply travels
//! in. No syscall authority; decoding bytes never proves where they came from.
use vstd::prelude::*;
use crate::le::{le16, le32, le64, le_bytes, read16, read32, read64, put_le};

verus! {

pub const BOOT_BYTES: usize = 256;
pub const MESSAGE_BYTES: usize = 128;
pub const PAYLOAD_BYTES: usize = 112;
/// Version of the application binary interface carried in the bootstrap.
pub const ABI: u32 = 0;
/// The rights bit every application holds: it may draw its user interface.
pub const UI: u32 = 1;
pub const TOOL: u8 = 1;
pub const READ_DOCUMENT: u8 = 2;
pub const WRITE_DOCUMENT: u8 = 3;
pub const DATAGRAM: u8 = 4;
pub const INPUT: u8 = 5;
pub const PAINT: u8 = 6;

#[derive(Clone, Copy, Debug, PartialEq, Eq, Structural)]
pub enum Error {
    Invalid,
    Version,
}

/// The bootstrap record: application identity, kernel-stamped incarnation
/// and principal, rights, entry point, capability handles and the expected
/// peers.
#[derive(Clone, Copy, Debug, PartialEq, Eq)]
pub struct Boot {
    pub application: [u8; 16],
    pub incarnation: u64,
    pub principal: u32,
    pub rights: u32,
    pub entry: u64,
    pub caps: [u64; 5],
    pub peer_principals: [u32; 4],
    pub peer_incarnations: [u64; 4],
}

/// Whether right `bit` is held.
pub open spec fn has_right(rights: int, bit: int) -> bool {
    (rights / vstd::arithmetic::power2::pow2(bit as nat) as int) % 2 == 1
}

/// Principal expected for peer `i`.
pub open spec fn peer_principal(i: int) -> int {
    if i == 0 { 3 } else if i == 1 { 1 } else if i == 2 { 7 } else { 12 }
}

/// Validity of the authority a bootstrap grants, over its field values: a
/// named application, a live incarnation, an application principal, the UI
/// right and no unknown right, an entry inside the image window; slot 0 and
/// each slot whose right is held carry a handle for exactly that slot, other
/// slots are empty; each peer whose right is held is named with its expected
/// principal and a live incarnation, other peers are empty.
pub open spec fn authority_valid(
    application: Seq<u8>,
    incarnation: int,
    principal: int,
    rights: int,
    entry: int,
    caps: Seq<int>,
    pp: Seq<int>,
    pi: Seq<int>,
) -> bool {
    &&& exists|i: int| 0 <= i < 16 && application[i] != 0
    &&& incarnation != 0
    &&& (principal == 10 || principal == 11)
    &&& rights % 2 == 1
    &&& rights < 16
    &&& 0x400000 <= entry < 0x420000
    &&& forall|i: int| 0 <= i < 5 ==> #[trigger] cap_ok(rights, i, caps[i])
    &&& forall|i: int| 0 <= i < 4 ==> #[trigger] peer_ok(rights, i, pp[i], pi[i])
}

/// Slot 0, and each slot whose right is held, carries a handle for exactly
/// that slot; other slots are empty.
pub open spec fn cap_ok(rights: int, i: int, cap: int) -> bool {
    if i == 0 || has_right(rights, i - 1) {
        cap >= 0x1_0000_0000 && cap % 0x1_0000_0000 == i + 1
    } else {
        cap == 0
    }
}

/// A peer whose right is held is named with its expected principal and a
/// live incarnation; other peers are empty.
pub open spec fn peer_ok(rights: int, i: int, principal: int, incarnation: int) -> bool {
    if has_right(rights, i) {
        principal == peer_principal(i) && incarnation != 0
    } else {
        principal == 0 && incarnation == 0
    }
}

impl Boot {
    pub open spec fn spec_valid(self) -> bool {
        authority_valid(
            self.application@,
            self.incarnation as int,
            self.principal as int,
            self.rights as int,
            self.entry as int,
            self.caps@.map_values(|c: u64| c as int),
            self.peer_principals@.map_values(|c: u32| c as int),
            self.peer_incarnations@.map_values(|c: u64| c as int),
        )
    }
}

pub open spec fn boot_magic() -> Seq<u8> {
    seq![0x52u8, 0x41u8, 0x52u8, 0x41u8, 0x50u8, 0x50u8, 0x30u8, 0x30u8]
}

/// Framing of a bootstrap record: length, magic, declared size and zeroed
/// reserved tail.
pub open spec fn boot_framed(raw: Seq<u8>) -> bool {
    &&& raw.len() == BOOT_BYTES
    &&& raw.subrange(0, 8) == boot_magic()
    &&& le32(raw, 12) == 256
    &&& forall|i: int| 144 <= i < 256 ==> raw[i] == 0
}

/// Validity of the authority that framed record bytes encode.
pub open spec fn raw_authority_valid(raw: Seq<u8>) -> bool {
    authority_valid(
        raw.subrange(16, 32),
        le64(raw, 32),
        le32(raw, 40),
        le32(raw, 44),
        le64(raw, 48),
        Seq::new(5, |i: int| le64(raw, 56 + 8 * i)),
        Seq::new(4, |i: int| le32(raw, 96 + 4 * i)),
        Seq::new(4, |i: int| le64(raw, 112 + 8 * i)),
    )
}

/// A record value holds exactly the fields that the bytes encode.
pub open spec fn boot_matches(b: Boot, raw: Seq<u8>) -> bool {
    &&& b.application@ == raw.subrange(16, 32)
    &&& b.incarnation == le64(raw, 32)
    &&& b.principal == le32(raw, 40)
    &&& b.rights == le32(raw, 44)
    &&& b.entry == le64(raw, 48)
    &&& forall|i: int| 0 <= i < 5 ==> #[trigger] b.caps[i] == le64(raw, 56 + 8 * i)
    &&& forall|i: int| 0 <= i < 4 ==> #[trigger] b.peer_principals[i] == le32(raw, 96 + 4 * i)
    &&& forall|i: int| 0 <= i < 4 ==> #[trigger] b.peer_incarnations[i] == le64(raw, 112 + 8 * i)
}

/// Header fields of a bootstrap record: magic, version, size, application,
/// incarnation, principal, rights and entry (56 bytes).
pub open spec fn boot_head(b: Boot) -> Seq<u8> {
    boot_magic() + le_bytes(ABI as int, 4) + le_bytes(256, 4) + b.application@ + le_bytes(b.incarnation as int, 8)
        + le_bytes(b.principal as int, 4) + le_bytes(b.rights as int, 4) + le_bytes(b.entry as int, 8)
}

/// The five capability handles (40 bytes).
pub open spec fn boot_caps(b: Boot) -> Seq<u8> {
    le_bytes(b.caps[0] as int, 8) + le_bytes(b.caps[1] as int, 8) + le_bytes(b.caps[2] as int, 8) + le_bytes(
        b.caps[3] as int,
        8,
    ) + le_bytes(b.caps[4] as int, 8)
}

/// The expected peers: four principals, then four incarnations (48 bytes).
pub open spec fn boot_peers(b: Boot) -> Seq<u8> {
    le_bytes(b.peer_principals[0] as int, 4) + le_bytes(b.peer_principals[1] as int, 4) + le_bytes(
        b.peer_principals[2] as int,
        4,
    ) + le_bytes(b.peer_principals[3] as int, 4) + le_bytes(b.peer_incarnations[0] as int, 8) + le_bytes(
        b.peer_incarnations[1] as int,
        8,
    ) + le_bytes(b.peer_incarnations[2] as int, 8) + le_bytes(b.peer_incarnations[3] as int, 8)
}

/// The bytes of a bootstrap record, zero-filled to its fixed size.
#[verifier::opaque]
pub open spec fn boot_bytes(b: Boot) -> Seq<u8> {
    boot_head(b) + boot_caps(b) + boot_peers(b) + Seq::new(112, |i: int| 0u8)
}


/// Whether right `bit` (below 4) is held.
fn right(rights: u32, bit: usize) -> (r: bool)
    requires
        bit < 4,
    ensures
        r == has_right(rights as int, bit as int),
{
    proof {
        vstd::arithmetic::power2::lemma2_to64();
    }
    let p: u32 = if bit == 0 { 1 } else if bit == 1 { 2 } else if bit == 2 { 4 } else { 8 };
    (rights / p) % 2 == 1
}

fn push_le(v: &mut Vec<u8>, x: u64, n: usize)
    requires
        n <= 8,
    ensures
        final(v)@ == old(v)@ + le_bytes(x as int, n as nat),
        final(v)@.len() == old(v)@.len() + n,
{
    let mut i: usize = 0;
    let mut w: u64 = x;
    let ghost x0 = x as int;
    proof {
        crate::le::lemma_le_bytes_len(x0, n as nat);
    }
    while i < n
        invariant
            n <= 8,
            x0 >= 0,
            i <= n,
            le_bytes(x0, n as nat).len() == n,
            w as int == x0 / crate::le::pow256(i as nat),
            v@ == old(v)@ + le_bytes(x0, n as nat).subrange(0, i as int),
        decreases n - i,
    {
        proof {
            crate::le::lemma_le_bytes_index(x0, n as nat, i as nat);
            crate::le::lemma_pow256_step(x0, i as nat);
        }
        v.push((w % 256) as u8);
        w = w / 256;
        i = i + 1;
        proof {
            assert(v@ =~= old(v)@ + le_bytes(x0, n as nat).subrange(0, i as int));
        }
    }
    proof {
        assert(le_bytes(x0, n as nat).subrange(0, n as int) =~= le_bytes(x0, n as nat));
    }
}

impl Boot {
    /// Validity of the authority this record grants.
    pub fn valid(&self) -> (r: bool)
        ensures
            r == self.spec_valid(),
    {
        let mut named = false;
        let mut i: usize = 0;
        while i < 16
            invariant
                i <= 16,
                named == (exists|k: int| 0 <= k < i && self.application@[k] != 0),
            decreases 16 - i,
        {
            if self.application[i] != 0 {
                named = true;
            }
            i = i + 1;
        }
        if !named || self.incarnation == 0 || !(self.principal == 10 || self.principal == 11) || self.rights % 2
            != 1 || self.rights >= 16 || self.entry < 0x400000 || self.entry >= 0x420000 {
            return false;
        }
        let mut c: usize = 0;
        while c < 5
            invariant
                c <= 5,
                self.rights < 16,
                forall|k: int| 0 <= k < c ==> #[trigger] cap_ok(self.rights as int, k, self.caps[k] as int),
            decreases 5 - c,
        {
            let enabled = c == 0 || right(self.rights, c - 1);
            if enabled && (self.caps[c] < 0x1_0000_0000 || self.caps[c] % 0x1_0000_0000 != c as u64 + 1) || !enabled
                && self.caps[c] != 0 {
                proof {
                    assert(!cap_ok(self.rights as int, c as int, self.caps@.map_values(|c: u64| c as int)[c as int]));
                }
                return false;
            }
            c = c + 1;
        }
        let mut p: usize = 0;
        while p < 4
            invariant
                p <= 4,
                forall|k: int|
                    0 <= k < p ==> #[trigger] peer_ok(
                        self.rights as int,
                        k,
                        self.peer_principals[k] as int,
                        self.peer_incarnations[k] as int,
                    ),
            decreases 4 - p,
        {
            let expected: u32 = if p == 0 { 3 } else if p == 1 { 1 } else if p == 2 { 7 } else { 12 };
            let held = right(self.rights, p);
            if held && (self.peer_principals[p] != expected || self.peer_incarnations[p] == 0) || !held && (
            self.peer_principals[p] != 0 || self.peer_incarnations[p] != 0) {
                proof {
                    let k = p as int;
                    assert(!peer_ok(
                        self.rights as int,
                        k,
                        self.peer_principals@.map_values(|c: u32| c as int)[k],
                        self.peer_incarnations@.map_values(|c: u64| c as int)[k],
                    ));
                }
                return false;
            }
            p = p + 1;
        }
        proof {
            let caps = self.caps@.map_values(|c: u64| c as int);
            let pp = self.peer_principals@.map_values(|c: u32| c as int);
            let pi = self.peer_incarnations@.map_values(|c: u64| c as int);
            assert forall|i: int| 0 <= i < 5 implies #[trigger] cap_ok(self.rights as int, i, caps[i]) by {
                assert(caps[i] == self.caps[i] as int);
            }
            assert forall|i: int| 0 <= i < 4 implies #[trigger] peer_ok(self.rights as int, i, pp[i], pi[i]) by {
                assert(pp[i] == self.peer_principals[i] as int);
            }
        }
        true
    }

    /// Kernel-side construction of the record bytes; refused unless the
    /// fields grant valid authority.
    pub fn encode(&self) -> (r: Result<[u8; 256], Error>)
        ensures
            r is Ok <==> self.spec_valid(),
            match r {
                Ok(raw) => raw@ == boot_bytes(*self),
                Err(e) => e == Error::Invalid,
            },
    {
        if !self.valid() {
            return Err(Error::Invalid);
        }
        let mut v: Vec<u8> = Vec::new();
        v.push(0x52);
        v.push(0x41);
        v.push(0x52);
        v.push(0x41);
        v.push(0x50);
        v.push(0x50);
        v.push(0x30);
        v.push(0x30);
        proof {
            assert(v@ =~= boot_magic());
        }
        push_le(&mut v, ABI as u64, 4);
        push_le(&mut v, 256, 4);
        let ghost before = v@;
        let mut i: usize = 0;
        while i < 16
            invariant
                i <= 16,
                v@ == before + self.application@.subrange(0, i as int),
            decreases 16 - i,
        {
            v.push(self.application[i]);
            i = i + 1;
            proof {
                assert(v@ =~= before + self.application@.subrange(0, i as int));
            }
        }
        proof {
            assert(self.application@.subrange(0, 16) =~= self.application@);
        }
        push_le(&mut v, self.incarnation, 8);
        push_le(&mut v, self.principal as u64, 4);
        push_le(&mut v, self.rights as u64, 4);
        push_le(&mut v, self.entry, 8);
        push_le(&mut v, self.caps[0], 8);
        push_le(&mut v, self.caps[1], 8);
        push_le(&mut v, self.caps[2], 8);
        push_le(&mut v, self.caps[3], 8);
        push_le(&mut v, self.caps[4], 8);
        push_le(&mut v, self.peer_principals[0] as u64, 4);
        push_le(&mut v, self.peer_principals[1] as u64, 4);
        push_le(&mut v, self.peer_principals[2] as u64, 4);
        push_le(&mut v, self.peer_principals[3] as u64, 4);
        push_le(&mut v, self.peer_incarnations[0], 8);
        push_le(&mut v, self.peer_incarnations[1], 8);
        push_le(&mut v, self.peer_incarnations[2], 8);
        push_le(&mut v, self.peer_incarnations[3], 8);
        let ghost fields = v@;
        let mut z: usize = 0;
        while z < 112
            invariant
                z <= 112,
                v@ == fields + Seq::new(z as nat, |k: int| 0u8),
            decreases 112 - z,
        {
            v.push(0);
            z = z + 1;
            proof {
                assert(v@ =~= fields + Seq::new(z as nat, |k: int| 0u8));
            }
        }
        proof {
            reveal(boot_bytes);
            assert(v@ =~= boot_bytes(*self));
        }
        let mut raw = [0u8; 256];
        let mut k: usize = 0;
        while k < 256
            invariant
                k <= 256,
                v@.len() == 256,
                forall|j: int| 0 <= j < k ==> raw@[j] == v@[j],
            decreases 256 - k,
        {
            raw[k] = v[k];
            k = k + 1;
        }
        proof {
            assert(raw@ =~= v@);
        }
        Ok(raw)
    }

    /// Decodes a record from the kernel's read-only bootstrap mapping. Valid
    /// bytes cannot prove their source: this must not be accepted over IPC.
    pub fn decode(raw: &[u8]) -> (r: Result<Boot, Error>)
        ensures
            match r {
                Ok(b) => boot_framed(raw@) && le32(raw@, 8) == ABI && raw_authority_valid(raw@) && boot_matches(b, raw@)
                    && b.spec_valid(),
                Err(e) => (e == Error::Invalid && (!boot_framed(raw@) || (le32(raw@, 8) == ABI && !raw_authority_valid(
                    raw@,
                )))) || (e == Error::Version && boot_framed(raw@) && le32(raw@, 8) != ABI),
            },
    {
        if raw.len() != BOOT_BYTES || raw[0] != 0x52 || raw[1] != 0x41 || raw[2] != 0x52 || raw[3] != 0x41 || raw[4]
            != 0x50 || raw[5] != 0x50 || raw[6] != 0x30 || raw[7] != 0x30 || read32(raw, 12) != 256 {
            proof {
                if raw@.len() == BOOT_BYTES && raw@.subrange(0, 8) == boot_magic() {
                    assert(raw@[0] == raw@.subrange(0, 8)[0] && raw@[1] == raw@.subrange(0, 8)[1]);
                    assert(raw@[2] == raw@.subrange(0, 8)[2] && raw@[3] == raw@.subrange(0, 8)[3]);
                    assert(raw@[4] == raw@.subrange(0, 8)[4] && raw@[5] == raw@.subrange(0, 8)[5]);
                    assert(raw@[6] == raw@.subrange(0, 8)[6] && raw@[7] == raw@.subrange(0, 8)[7]);
                }
            }
            return Err(Error::Invalid);
        }
        proof {
            assert(raw@.subrange(0, 8) =~= boot_magic());
        }
        let mut t: usize = 144;
        while t < 256
            invariant
                144 <= t <= 256,
                raw@.len() == 256,
                forall|k: int| 144 <= k < t ==> raw@[k] == 0,
            decreases 256 - t,
        {
            if raw[t] != 0 {
                return Err(Error::Invalid);
            }
            t = t + 1;
        }
        if read32(raw, 8) != ABI {
            return Err(Error::Version);
        }
        let mut application = [0u8; 16];
        let mut i: usize = 0;
        while i < 16
            invariant
                i <= 16,
                raw@.len() == 256,
                forall|k: int| 0 <= k < i ==> application@[k] == raw@[16 + k],
            decreases 16 - i,
        {
            application[i] = raw[16 + i];
            i = i + 1;
        }
        let mut caps = [0u64; 5];
        let mut c: usize = 0;
        while c < 5
            invariant
                c <= 5,
                raw@.len() == 256,
                forall|k: int| 0 <= k < c ==> #[trigger] caps@[k] == le64(raw@, 56 + 8 * k),
            decreases 5 - c,
        {
            caps[c] = read64(raw, 56 + c * 8);
            c = c + 1;
        }
        let mut pp = [0u32; 4];
        let mut pi = [0u64; 4];
        let mut p: usize = 0;
        while p < 4
            invariant
                p <= 4,
                raw@.len() == 256,
                forall|k: int| 0 <= k < p ==> #[trigger] pp@[k] == le32(raw@, 96 + 4 * k),
                forall|k: int| 0 <= k < p ==> #[trigger] pi@[k] == le64(raw@, 112 + 8 * k),
            decreases 4 - p,
        {
            pp[p] = read32(raw, 96 + p * 4);
            pi[p] = read64(raw, 112 + p * 8);
            p = p + 1;
        }
        let b = Boot {
            application,
            incarnation: read64(raw, 32),
            principal: read32(raw, 40),
            rights: read32(raw, 44),
            entry: read64(raw, 48),
            caps,
            peer_principals: pp,
            peer_incarnations: pi,
        };
        proof {
            assert(b.application@ =~= raw@.subrange(16, 32));
            assert(b.caps@.map_values(|c: u64| c as int) =~= Seq::new(5, |k: int| le64(raw@, 56 + 8 * k)));
            assert(b.peer_principals@.map_values(|c: u32| c as int) =~= Seq::new(4, |k: int| le32(raw@, 96 + 4 * k)));
            assert(b.peer_incarnations@.map_values(|c: u64| c as int) =~= Seq::new(
                4,
                |k: int| le64(raw@, 112 + 8 * k),
            ));
        }
        if !b.valid() {
            return Err(Error::Invalid);
        }
        Ok(b)
    }
}

/// Abstract message: operation, status, sequence number and payload.
pub struct MessageView {
    pub operation: u8,
    pub status: u8,
    pub sequence: u32,
    pub payload: Seq<u8>,
}

/// A canonical message: bytes past the payload are always zero.
#[derive(Clone, Copy, Debug, PartialEq, Eq)]
pub struct Message {
    operation: u8,
    status: u8,
    sequence: u32,
    len: u16,
    data: [u8; 112],
}

impl View for Message {
    type V = MessageView;

    closed spec fn view(&self) -> MessageView {
        MessageView {
            operation: self.operation,
            status: self.status,
            sequence: self.sequence,
            payload: self.data@.subrange(0, self.len as int),
        }
    }
}

/// The fields a message may carry: a known operation, a known status, a
/// nonzero sequence number and a bounded payload.
pub open spec fn message_fields_ok(operation: u8, status: u8, sequence: u32, payload_len: nat) -> bool {
    1 <= operation <= 6 && status <= 7 && sequence != 0 && payload_len <= PAYLOAD_BYTES
}

pub open spec fn message_magic() -> Seq<u8> {
    seq![0x52u8, 0x41u8, 0x50u8, 0x50u8]
}

/// The 128 bytes of a message.
pub open spec fn message_bytes(m: MessageView) -> Seq<u8> {
    message_magic() + seq![0u8, m.operation, m.status, 0u8] + le_bytes(m.sequence as int, 4) + le_bytes(
        m.payload.len() as int,
        2,
    ) + seq![0u8, 0u8] + m.payload + Seq::new((PAYLOAD_BYTES - m.payload.len()) as nat, |i: int| 0u8)
}

/// Canonical framing of message bytes: length, magic, zero reserved bytes, a
/// bounded length field and zero fill past the payload.
pub open spec fn message_framed(b: Seq<u8>) -> bool {
    &&& b.len() == MESSAGE_BYTES
    &&& b.subrange(0, 4) == message_magic()
    &&& b[4] == 0 && b[7] == 0 && b[14] == 0 && b[15] == 0
    &&& le16(b, 12) <= PAYLOAD_BYTES
    &&& forall|i: int| 16 + le16(b, 12) <= i < MESSAGE_BYTES ==> b[i] == 0
}

impl Message {
    #[verifier::type_invariant]
    spec fn canonical(self) -> bool {
        &&& self.len <= 112
        &&& forall|i: int| self.len <= i < 112 ==> self.data@[i] == 0
    }

    pub fn operation(&self) -> (r: u8)
        ensures
            r == self@.operation,
    {
        self.operation
    }

    pub fn status(&self) -> (r: u8)
        ensures
            r == self@.status,
    {
        self.status
    }

    pub fn sequence(&self) -> (r: u32)
        ensures
            r == self@.sequence,
    {
        self.sequence
    }

    pub fn new(operation: u8, status: u8, sequence: u32, payload: &[u8]) -> (r: Result<Self, Error>)
        ensures
            r is Ok <==> message_fields_ok(operation, status, sequence, payload@.len()),
            match r {
                Ok(m) => m@ == (MessageView { operation, status, sequence, payload: payload@ }),
                Err(e) => e == Error::Invalid,
            },
    {
        if !(1 <= operation && operation <= 6) || status > 7 || sequence == 0 || payload.len() > PAYLOAD_BYTES {
            return Err(Error::Invalid);
        }
        let mut data = [0u8; 112];
        let mut i: usize = 0;
        while i < payload.len()
            invariant
                i <= payload@.len(),
                payload@.len() <= 112,
                forall|k: int| 0 <= k < i ==> data@[k] == payload@[k],
                forall|k: int| payload@.len() <= k < 112 ==> data@[k] == 0,
            decreases payload@.len() - i,
        {
            data[i] = payload[i];
            i = i + 1;
        }
        let m = Message { operation, status, sequence, len: payload.len() as u16, data };
        proof {
            assert(m@.payload =~= payload@);
        }
        Ok(m)
    }

    pub fn payload(&self) -> (r: &[u8])
        ensures
            r@ == self@.payload,
    {
        proof {
            use_type_invariant(self);
        }
        let n = self.len as usize;
        &self.data[0..n]
    }

    pub fn encode(&self) -> (r: [u8; 128])
        ensures
            r@ == message_bytes(self@),
    {
        proof {
            use_type_invariant(self);
        }
        let mut b = [0u8; 128];
        b[0] = 0x52;
        b[1] = 0x41;
        b[2] = 0x50;
        b[3] = 0x50;
        b[5] = self.operation;
        b[6] = self.status;
        put_le(&mut b, 8, self.sequence as u64, 4);
        put_le(&mut b, 12, self.len as u64, 2);
        proof {
            crate::le::lemma_le_bytes_len(self.sequence as int, 4);
            crate::le::lemma_le_bytes_len(self.len as int, 2);
            assert(b@.subrange(0, 16) =~= message_magic() + seq![0u8, self.operation, self.status, 0u8] + le_bytes(
                self.sequence as int,
                4,
            ) + le_bytes(self.len as int, 2) + seq![0u8, 0u8]);
        }
        let mut i: usize = 0;
        while i < 112
            invariant
                i <= 112,
                b@.len() == 128,
                b@.subrange(0, 16) == message_magic() + seq![0u8, self.operation, self.status, 0u8] + le_bytes(
                    self.sequence as int,
                    4,
                ) + le_bytes(self.len as int, 2) + seq![0u8, 0u8],
                forall|k: int| 0 <= k < i ==> b@[16 + k] == self.data@[k],
            decreases 112 - i,
        {
            b[16 + i] = self.data[i];
            i = i + 1;
        }
        proof {
            assert(b@ =~= b@.subrange(0, 16) + self.data@);
            assert(self.data@ =~= self@.payload + Seq::new((PAYLOAD_BYTES - self@.payload.len()) as nat, |i: int| 0u8));
            assert(b@ =~= message_bytes(self@));
        }
        b
    }

    /// Decodes a canonical message; any framing or field defect is refused.
    pub fn decode(b: &[u8]) -> (r: Result<Self, Error>)
        ensures
            r is Ok <==> (message_framed(b@) && message_fields_ok(b@[5], b@[6], le32(b@, 8) as u32, le16(b@, 12) as nat)),
            match r {
                Ok(m) => m@ == (MessageView {
                    operation: b@[5],
                    status: b@[6],
                    sequence: le32(b@, 8) as u32,
                    payload: b@.subrange(16, 16 + le16(b@, 12)),
                }),
                Err(e) => e == Error::Invalid,
            },
    {
        if b.len() != MESSAGE_BYTES || b[0] != 0x52 || b[1] != 0x41 || b[2] != 0x50 || b[3] != 0x50 || b[4] != 0
            || b[7] != 0 || b[14] != 0 || b[15] != 0 {
            proof {
                if b@.len() == MESSAGE_BYTES && b@.subrange(0, 4) == message_magic() {
                    assert(b@[0] == b@.subrange(0, 4)[0] && b@[1] == b@.subrange(0, 4)[1]);
                    assert(b@[2] == b@.subrange(0, 4)[2] && b@[3] == b@.subrange(0, 4)[3]);
                }
            }
            return Err(Error::Invalid);
        }
        proof {
            assert(b@.subrange(0, 4) =~= message_magic());
        }
        let len = read16(b, 12) as usize;
        if len > PAYLOAD_BYTES {
            return Err(Error::Invalid);
        }
        let mut i: usize = 16 + len;
        while i < MESSAGE_BYTES
            invariant
                16 + len <= i <= MESSAGE_BYTES,
                b@.len() == MESSAGE_BYTES,
                len == le16(b@, 12),
                forall|k: int| 16 + len <= k < i ==> b@[k] == 0,
            decreases MESSAGE_BYTES - i,
        {
            if b[i] != 0 {
                return Err(Error::Invalid);
            }
            i = i + 1;
        }
        Self::new(b[5], b[6], read32(b, 8), &b[16..16 + len])
    }

    /// Whether this message is the reply to `request`: the kernel-stamped
    /// sender identity is the expected live one and the sequence number and
    /// operation correlate.
    pub fn reply_to(&self, request: &Self, principal: u32, incarnation: u64, expected_principal: u32, expected_incarnation: u64) -> (r: bool)
        ensures
            r == (expected_incarnation != 0 && principal == expected_principal && incarnation == expected_incarnation
                && self@.sequence == request@.sequence && self@.operation == request@.operation),
    {
        expected_incarnation != 0 && principal == expected_principal && incarnation == expected_incarnation
            && self.sequence == request.sequence && self.operation == request.operation
    }
}

/// Decoding the bytes of a valid message gives back the same message.
pub proof fn law_message_roundtrip(m: MessageView)
    requires
        message_fields_ok(m.operation, m.status, m.sequence, m.payload.len()),
    ensures
        ({
            let b = message_bytes(m);
            &&& message_framed(b)
            &&& message_fields_ok(b[5], b[6], le32(b, 8) as u32, le16(b, 12) as nat)
            &&& (MessageView {
                operation: b[5],
                status: b[6],
                sequence: le32(b, 8) as u32,
                payload: b.subrange(16, 16 + le16(b, 12)),
            }) == m
        }),
{
    let b = message_bytes(m);
    let n = m.payload.len();
    crate::le::lemma_le_bytes_len(m.sequence as int, 4);
    crate::le::lemma_le_bytes_len(n as int, 2);
    crate::le::lemma_le_sub_short(b, 8);
    crate::le::lemma_le_sub_short(b, 12);
    assert(b.subrange(8, 12) =~= le_bytes(m.sequence as int, 4));
    assert(b.subrange(12, 14) =~= le_bytes(n as int, 2));
    crate::le::lemma_le32_bytes(m.sequence);
    crate::le::lemma_le16_bytes(n as u16);
    assert(b.subrange(0, 4) =~= message_magic());
    assert(b.subrange(16, 16 + n as int) =~= m.payload);
}

proof fn lemma_boot_head_fields(b: Boot)
    ensures
        boot_head(b).len() == 56,
        boot_head(b).subrange(0, 8) == boot_magic(),
        boot_head(b).subrange(8, 12) == le_bytes(ABI as int, 4),
        boot_head(b).subrange(12, 16) == le_bytes(256, 4),
        boot_head(b).subrange(16, 32) == b.application@,
        boot_head(b).subrange(32, 40) == le_bytes(b.incarnation as int, 8),
        boot_head(b).subrange(40, 44) == le_bytes(b.principal as int, 4),
        boot_head(b).subrange(44, 48) == le_bytes(b.rights as int, 4),
        boot_head(b).subrange(48, 56) == le_bytes(b.entry as int, 8),
{
    crate::le::lemma_le_bytes_len(ABI as int, 4);
    crate::le::lemma_le_bytes_len(256, 4);
    crate::le::lemma_le_bytes_len(b.incarnation as int, 8);
    crate::le::lemma_le_bytes_len(b.principal as int, 4);
    crate::le::lemma_le_bytes_len(b.rights as int, 4);
    crate::le::lemma_le_bytes_len(b.entry as int, 8);
    assert(boot_head(b).subrange(0, 8) =~= boot_magic());
    assert(boot_head(b).subrange(8, 12) =~= le_bytes(ABI as int, 4));
    assert(boot_head(b).subrange(12, 16) =~= le_bytes(256, 4));
    assert(boot_head(b).subrange(16, 32) =~= b.application@);
    assert(boot_head(b).subrange(32, 40) =~= le_bytes(b.incarnation as int, 8));
    assert(boot_head(b).subrange(40, 44) =~= le_bytes(b.principal as int, 4));
    assert(boot_head(b).subrange(44, 48) =~= le_bytes(b.rights as int, 4));
    assert(boot_head(b).subrange(48, 56) =~= le_bytes(b.entry as int, 8));
}

proof fn lemma_boot_caps_fields(b: Boot)
    ensures
        boot_caps(b).len() == 40,
        boot_caps(b).subrange(0, 8) == le_bytes(b.caps[0] as int, 8),
        boot_caps(b).subrange(8, 16) == le_bytes(b.caps[1] as int, 8),
        boot_caps(b).subrange(16, 24) == le_bytes(b.caps[2] as int, 8),
        boot_caps(b).subrange(24, 32) == le_bytes(b.caps[3] as int, 8),
        boot_caps(b).subrange(32, 40) == le_bytes(b.caps[4] as int, 8),
{
    crate::le::lemma_le_bytes_len(b.caps[0] as int, 8);
    crate::le::lemma_le_bytes_len(b.caps[1] as int, 8);
    crate::le::lemma_le_bytes_len(b.caps[2] as int, 8);
    crate::le::lemma_le_bytes_len(b.caps[3] as int, 8);
    crate::le::lemma_le_bytes_len(b.caps[4] as int, 8);
    assert(boot_caps(b).subrange(0, 8) =~= le_bytes(b.caps[0] as int, 8));
    assert(boot_caps(b).subrange(8, 16) =~= le_bytes(b.caps[1] as int, 8));
    assert(boot_caps(b).subrange(16, 24) =~= le_bytes(b.caps[2] as int, 8));
    assert(boot_caps(b).subrange(24, 32) =~= le_bytes(b.caps[3] as int, 8));
    assert(boot_caps(b).subrange(32, 40) =~= le_bytes(b.caps[4] as int, 8));
}

proof fn lemma_boot_peer_fields(b: Boot)
    ensures
        boot_peers(b).len() == 48,
        boot_peers(b).subrange(0, 4) == le_bytes(b.peer_principals[0] as int, 4),
        boot_peers(b).subrange(4, 8) == le_bytes(b.peer_principals[1] as int, 4),
        boot_peers(b).subrange(8, 12) == le_bytes(b.peer_principals[2] as int, 4),
        boot_peers(b).subrange(12, 16) == le_bytes(b.peer_principals[3] as int, 4),
        boot_peers(b).subrange(16, 24) == le_bytes(b.peer_incarnations[0] as int, 8),
        boot_peers(b).subrange(24, 32) == le_bytes(b.peer_incarnations[1] as int, 8),
        boot_peers(b).subrange(32, 40) == le_bytes(b.peer_incarnations[2] as int, 8),
        boot_peers(b).subrange(40, 48) == le_bytes(b.peer_incarnations[3] as int, 8),
{
    crate::le::lemma_le_bytes_len(b.peer_principals[0] as int, 4);
    crate::le::lemma_le_bytes_len(b.peer_principals[1] as int, 4);
    crate::le::lemma_le_bytes_len(b.peer_principals[2] as int, 4);
    crate::le::lemma_le_bytes_len(b.peer_principals[3] as int, 4);
    crate::le::lemma_le_bytes_len(b.peer_incarnations[0] as int, 8);
    crate::le::lemma_le_bytes_len(b.peer_incarnations[1] as int, 8);
    crate::le::lemma_le_bytes_len(b.peer_incarnations[2] as int, 8);
    crate::le::lemma_le_bytes_len(b.peer_incarnations[3] as int, 8);
    assert(boot_peers(b).subrange(0, 4) =~= le_bytes(b.peer_principals[0] as int, 4));
    assert(boot_peers(b).subrange(4, 8) =~= le_bytes(b.peer_principals[1] as int, 4));
    assert(boot_peers(b).subrange(8, 12) =~= le_bytes(b.peer_principals[2] as int, 4));
    assert(boot_peers(b).subrange(12, 16) =~= le_bytes(b.peer_principals[3] as int, 4));
    assert(boot_peers(b).subrange(16, 24) =~= le_bytes(b.peer_incarnations[0] as int, 8));
    assert(boot_peers(b).subrange(24, 32) =~= le_bytes(b.peer_incarnations[1] as int, 8));
    assert(boot_peers(b).subrange(32, 40) =~= le_bytes(b.peer_incarnations[2] as int, 8));
    assert(boot_peers(b).subrange(40, 48) =~= le_bytes(b.peer_incarnations[3] as int, 8));
}

proof fn lemma_boot_layout(b: Boot)
    ensures
        boot_bytes(b).len() == 256,
        boot_bytes(b).subrange(0, 56) == boot_head(b),
        boot_bytes(b).subrange(56, 96) == boot_caps(b),
        boot_bytes(b).subrange(96, 144) == boot_peers(b),
        forall|i: int| 144 <= i < 256 ==> #[trigger] boot_bytes(b)[i] == 0,
{
    reveal(boot_bytes);
    lemma_boot_head_fields(b);
    lemma_boot_caps_fields(b);
    lemma_boot_peer_fields(b);
    assert(boot_bytes(b).subrange(0, 56) =~= boot_head(b));
    assert(boot_bytes(b).subrange(56, 96) =~= boot_caps(b));
    assert(boot_bytes(b).subrange(96, 144) =~= boot_peers(b));
}

/// The bytes `encode` writes for a valid record decode to exactly that record:
/// framing and version hold, the authority is valid and every field reads back.
#[verifier::rlimit(60)]
pub proof fn law_boot_roundtrip(b: Boot)
    requires
        b.spec_valid(),
    ensures
        ({
            let raw = boot_bytes(b);
            &&& boot_framed(raw)
            &&& le32(raw, 8) == ABI
            &&& raw_authority_valid(raw)
            &&& boot_matches(b, raw)
        }),
{
    let raw = boot_bytes(b);
    lemma_boot_layout(b);
    lemma_boot_head_fields(b);
    lemma_boot_caps_fields(b);
    lemma_boot_peer_fields(b);
    assert(raw.subrange(0, 8) =~= raw.subrange(0, 56).subrange(0, 8));
    assert(raw.subrange(8, 12) =~= raw.subrange(0, 56).subrange(8, 12));
    assert(raw.subrange(12, 16) =~= raw.subrange(0, 56).subrange(12, 16));
    assert(raw.subrange(16, 32) =~= raw.subrange(0, 56).subrange(16, 32));
    crate::le::lemma_le_sub(raw, 8);
    crate::le::lemma_le_sub(raw, 12);
    crate::le::lemma_le32_bytes(ABI);
    crate::le::lemma_le32_bytes(256);
    assert(raw.subrange(32, 40) =~= raw.subrange(0, 56).subrange(32, 40));
    crate::le::lemma_le_sub(raw, 32);
    crate::le::lemma_le64_bytes(b.incarnation);
    assert(raw.subrange(40, 44) =~= raw.subrange(0, 56).subrange(40, 44));
    crate::le::lemma_le_sub(raw, 40);
    crate::le::lemma_le32_bytes(b.principal);
    assert(raw.subrange(44, 48) =~= raw.subrange(0, 56).subrange(44, 48));
    crate::le::lemma_le_sub(raw, 44);
    crate::le::lemma_le32_bytes(b.rights);
    assert(raw.subrange(48, 56) =~= raw.subrange(0, 56).subrange(48, 56));
    crate::le::lemma_le_sub(raw, 48);
    crate::le::lemma_le64_bytes(b.entry);
    assert(raw.subrange(56, 64) =~= raw.subrange(56, 96).subrange(0, 8));
    crate::le::lemma_le_sub(raw, 56);
    crate::le::lemma_le64_bytes(b.caps[0]);
    assert(raw.subrange(64, 72) =~= raw.subrange(56, 96).subrange(8, 16));
    crate::le::lemma_le_sub(raw, 64);
    crate::le::lemma_le64_bytes(b.caps[1]);
    assert(raw.subrange(72, 80) =~= raw.subrange(56, 96).subrange(16, 24));
    crate::le::lemma_le_sub(raw, 72);
    crate::le::lemma_le64_bytes(b.caps[2]);
    assert(raw.subrange(80, 88) =~= raw.subrange(56, 96).subrange(24, 32));
    crate::le::lemma_le_sub(raw, 80);
    crate::le::lemma_le64_bytes(b.caps[3]);
    assert(raw.subrange(88, 96) =~= raw.subrange(56, 96).subrange(32, 40));
    crate::le::lemma_le_sub(raw, 88);
    crate::le::lemma_le64_bytes(b.caps[4]);
    assert(raw.subrange(96, 100) =~= raw.subrange(96, 144).subrange(0, 4));
    crate::le::lemma_le_sub(raw, 96);
    crate::le::lemma_le32_bytes(b.peer_principals[0]);
    assert(raw.subrange(100, 104) =~= raw.subrange(96, 144).subrange(4, 8));
    crate::le::lemma_le_sub(raw, 100);
    crate::le::lemma_le32_bytes(b.peer_principals[1]);
    assert(raw.subrange(104, 108) =~= raw.subrange(96, 144).subrange(8, 12));
    crate::le::lemma_le_sub(raw, 104);
    crate::le::lemma_le32_bytes(b.peer_principals[2]);
    assert(raw.subrange(108, 112) =~= raw.subrange(96, 144).subrange(12, 16));
    crate::le::lemma_le_sub(raw, 108);
    crate::le::lemma_le32_bytes(b.peer_principals[3]);
    assert(raw.subrange(112, 120) =~= raw.subrange(96, 144).subrange(16, 24));
    crate::le::lemma_le_sub(raw, 112);
    crate::le::lemma_le64_bytes(b.peer_incarnations[0]);
    assert(raw.subrange(120, 128) =~= raw.subrange(96, 144).subrange(24, 32));
    crate::le::lemma_le_sub(raw, 120);
    crate::le::lemma_le64_bytes(b.peer_incarnations[1]);
    assert(raw.subrange(128, 136) =~= raw.subrange(96, 144).subrange(32, 40));
    crate::le::lemma_le_sub(raw, 128);
    crate::le::lemma_le64_bytes(b.peer_incarnations[2]);
    assert(raw.subrange(136, 144) =~= raw.subrange(96, 144).subrange(40, 48));
    crate::le::lemma_le_sub(raw, 136);
    crate::le::lemma_le64_bytes(b.peer_incarnations[3]);
    assert(b.caps@.map_values(|c: u64| c as int) =~= Seq::new(5, |k: int| le64(raw, 56 + 8 * k)));
    assert(b.peer_principals@.map_values(|c: u32| c as int) =~= Seq::new(4, |k: int| le32(raw, 96 + 4 * k)));
    assert(b.peer_incarnations@.map_values(|c: u64| c as int) =~= Seq::new(4, |k: int| le64(raw, 112 + 8 * k)));
}

} // verus!
