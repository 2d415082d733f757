//! Client side of the bounded network request protocol: one outstanding
//! request per client, correlated replies and no automatic retry. Holds no
//! syscall or ambient authority; peer identity comes from the kernel envelope.
use vstd::prelude::*;
use crate::le::le_bytes;

verus! {

pub const HEADER: usize = 16;
pub const MESSAGE: usize = 128;
pub const PAYLOAD: usize = 112;

#[derive(Clone, Copy, Debug, PartialEq, Eq, Structural)]
pub enum Operation {
    Send,
    Receive,
    Close,
}

impl Operation {
    pub open spec fn spec_code(self) -> u8 {
        match self {
            Operation::Send => 1,
            Operation::Receive => 2,
            Operation::Close => 3,
        }
    }

    /// Wire code of the operation.
    pub fn code(&self) -> (r: u8)
        ensures
            r == self.spec_code(),
    {
        match self {
            Operation::Send => 1,
            Operation::Receive => 2,
            Operation::Close => 3,
        }
    }
}

/// Reply status; `Success` is wire code 0 and the others follow in order.
#[derive(Clone, Copy, Debug, PartialEq, Eq, Structural)]
pub enum Status {
    Success,
    Invalid,
    Denied,
    Closed,
    Full,
    Empty,
    Budget,
    Io,
    Oversize,
}

/// The status with the given wire code, if any.
pub open spec fn status_of(code: u8) -> Option<Status> {
    if code == 0 {
        Some(Status::Success)
    } else if code == 1 {
        Some(Status::Invalid)
    } else if code == 2 {
        Some(Status::Denied)
    } else if code == 3 {
        Some(Status::Closed)
    } else if code == 4 {
        Some(Status::Full)
    } else if code == 5 {
        Some(Status::Empty)
    } else if code == 6 {
        Some(Status::Budget)
    } else if code == 7 {
        Some(Status::Io)
    } else if code == 8 {
        Some(Status::Oversize)
    } else {
        None
    }
}

fn decode_status(code: u8) -> (r: Option<Status>)
    ensures
        r == status_of(code),
{
    match code {
        0 => Some(Status::Success),
        1 => Some(Status::Invalid),
        2 => Some(Status::Denied),
        3 => Some(Status::Closed),
        4 => Some(Status::Full),
        5 => Some(Status::Empty),
        6 => Some(Status::Budget),
        7 => Some(Status::Io),
        8 => Some(Status::Oversize),
        _ => None,
    }
}

#[derive(Clone, Copy, Debug, PartialEq, Eq, Structural)]
pub enum Error {
    Invalid,
    Busy,
    Closed,
    Exhausted,
    Peer,
    Unexpected,
}

#[derive(Debug, PartialEq, Eq)]
pub struct Response<'a> {
    pub operation: Operation,
    pub status: Status,
    pub payload: &'a [u8],
}

pub open spec fn magic() -> Seq<u8> {
    seq![0x52u8, 0x4eu8, 0x45u8, 0x54u8]
}

pub open spec fn zeros(n: nat) -> Seq<u8> {
    Seq::new(n, |i: int| 0u8)
}

/// The request message for a valid operation code, id and payload: magic,
/// operation, little-endian id, payload, zero fill; `None` where refused.
pub open spec fn encode_spec(operation: u8, id: u64, payload: Seq<u8>) -> Option<Seq<u8>> {
    if !(1 <= operation <= 3) || id == 0 || payload.len() > PAYLOAD || (operation != 1 && payload.len() != 0) {
        None
    } else {
        Some(magic() + seq![0u8, operation, 0u8, 0u8] + le_bytes(id as int, 8) + payload + zeros(
            (PAYLOAD - payload.len()) as nat,
        ))
    }
}

fn clear(out: &mut [u8; 128])
    ensures
        final(out)@ == zeros(128),
{
    let mut i: usize = 0;
    while i < MESSAGE
        invariant
            i <= MESSAGE,
            out@.len() == MESSAGE,
            forall|k: int| 0 <= k < i ==> out@[k] == 0,
        decreases MESSAGE - i,
    {
        out[i] = 0;
        i = i + 1;
    }
    proof {
        assert(out@ =~= zeros(128));
    }
}

/// Encodes a request from caller-owned bytes into `out`, which is zeroed
/// first in every case.
pub fn encode(operation: u8, id: u64, payload: &[u8], out: &mut [u8; 128]) -> (r: Option<usize>)
    ensures
        match encode_spec(operation, id, payload@) {
            Some(m) => r == Some((HEADER + payload@.len()) as usize) && final(out)@ == m,
            None => r is None && final(out)@ == zeros(128),
        },
{
    clear(out);
    if !(1 <= operation && operation <= 3) || id == 0 || payload.len() > PAYLOAD || (operation != 1
        && payload.len() != 0) {
        return None;
    }
    out[0] = 0x52;
    out[1] = 0x4e;
    out[2] = 0x45;
    out[3] = 0x54;
    out[5] = operation;
    let mut v = id;
    let mut i: usize = 0;
    while i < 8
        invariant
            i <= 8,
            out@.len() == MESSAGE,
            v as int == id as int / crate::le::pow256(i as nat),
            out@.subrange(0, 4) == magic(),
            out@[4] == 0 && out@[5] == operation && out@[6] == 0 && out@[7] == 0,
            forall|k: int| 0 <= k < i ==> out@[8 + k] == le_bytes(id as int, 8)[k],
            forall|k: int| 8 + i <= k < MESSAGE ==> out@[k] == 0,
        decreases 8 - i,
    {
        proof {
            crate::le::lemma_le_bytes_index(id as int, 8, i as nat);
            crate::le::lemma_pow256_step(id as int, i as nat);
        }
        out[8 + i] = (v % 256) as u8;
        v = v / 256;
        i = i + 1;
    }
    let mut j: usize = 0;
    while j < payload.len()
        invariant
            j <= payload@.len(),
            payload@.len() <= PAYLOAD,
            out@.len() == MESSAGE,
            out@.subrange(0, 4) == magic(),
            out@[4] == 0 && out@[5] == operation && out@[6] == 0 && out@[7] == 0,
            forall|k: int| 0 <= k < 8 ==> out@[8 + k] == le_bytes(id as int, 8)[k],
            forall|k: int| 0 <= k < j ==> out@[16 + k] == payload@[k],
            forall|k: int| 16 + j <= k < MESSAGE ==> out@[k] == 0,
        decreases payload@.len() - j,
    {
        out[16 + j] = payload[j];
        j = j + 1;
    }
    proof {
        crate::le::lemma_le_bytes_len(id as int, 8);
        assert(out@ =~= encode_spec(operation, id, payload@)->Some_0);
    }
    Some(HEADER + payload.len())
}

/// Abstract state of a client.
pub struct ClientView {
    pub peer: u64,
    pub incarnation: u64,
    pub next: u64,
    pub pending: Option<(Operation, u64)>,
    pub closed: bool,
}

/// A client with at most one outstanding request. It grants no SEND
/// authority; the kernel capability is separate.
pub struct Client {
    peer: u64,
    incarnation: u64,
    pub next: u64,
    pub pending: Option<(Operation, u64)>,
    closed: bool,
}

impl View for Client {
    type V = ClientView;

    closed spec fn view(&self) -> ClientView {
        ClientView {
            peer: self.peer,
            incarnation: self.incarnation,
            next: self.next,
            pending: self.pending,
            closed: self.closed,
        }
    }
}

/// What `begin` does: refusals in order (closed, busy, id space exhausted,
/// invalid request) leave the client unchanged; success records the pending
/// request and consumes its id.
pub open spec fn begin_spec(c: ClientView, operation: Operation, payload: Seq<u8>) -> (ClientView, Result<usize, Error>) {
    if c.closed {
        (c, Err(Error::Closed))
    } else if c.pending is Some {
        (c, Err(Error::Busy))
    } else if c.next == u64::MAX {
        (c, Err(Error::Exhausted))
    } else if encode_spec(operation.spec_code(), c.next, payload) is None {
        (c, Err(Error::Invalid))
    } else {
        (
            ClientView { pending: Some((operation, c.next)), next: (c.next + 1) as u64, ..c },
            Ok((HEADER + payload.len()) as usize),
        )
    }
}

/// What `accept` makes of a reply: the refusal, or the operation, status and
/// payload bounds, checked in order: peer identity, closed, pending, framing
/// and correlation, status code, payload shape.
pub open spec fn accept_spec(c: ClientView, peer: u64, incarnation: u64, raw: Seq<u8>) -> Result<(Operation, Status), Error> {
    if peer != c.peer || incarnation != c.incarnation {
        Err(Error::Peer)
    } else if c.closed {
        Err(Error::Closed)
    } else if c.pending is None {
        Err(Error::Unexpected)
    } else {
        let (operation, id) = c.pending->Some_0;
        if raw.len() < HEADER || raw.len() > MESSAGE || raw.subrange(0, 4) != magic() || raw[4] != 0 || raw[5]
            != operation.spec_code() || raw[7] != 0 || raw.subrange(8, 16) != le_bytes(id as int, 8) {
            Err(Error::Invalid)
        } else if status_of(raw[6]) is None {
            Err(Error::Invalid)
        } else if (operation != Operation::Receive || status_of(raw[6]) != Some(Status::Success)) && raw.len()
            != HEADER {
            Err(Error::Invalid)
        } else {
            Ok((operation, status_of(raw[6])->Some_0))
        }
    }
}

/// After an accepted reply nothing is pending; a closed or failed transport,
/// or a successful close, retires the client.
pub open spec fn accepted(c: ClientView, operation: Operation, status: Status) -> ClientView {
    ClientView {
        pending: None,
        closed: c.closed || status == Status::Closed || status == Status::Io || (operation == Operation::Close
            && status == Status::Success),
        ..c
    }
}

fn same_id(raw: &[u8], id: u64) -> (r: bool)
    requires
        raw@.len() >= 16,
    ensures
        r == (raw@.subrange(8, 16) == le_bytes(id as int, 8)),
{
    let mut v = id;
    let mut i: usize = 0;
    proof {
        crate::le::lemma_le_bytes_len(id as int, 8);
    }
    while i < 8
        invariant
            i <= 8,
            raw@.len() >= 16,
            v as int == id as int / crate::le::pow256(i as nat),
            le_bytes(id as int, 8).len() == 8,
            forall|k: int| 0 <= k < i ==> raw@[8 + k] == le_bytes(id as int, 8)[k],
        decreases 8 - i,
    {
        proof {
            crate::le::lemma_le_bytes_index(id as int, 8, i as nat);
            crate::le::lemma_pow256_step(id as int, i as nat);
        }
        if raw[8 + i] != (v % 256) as u8 {
            proof {
                assert(raw@.subrange(8, 16)[i as int] != le_bytes(id as int, 8)[i as int]);
            }
            return false;
        }
        v = v / 256;
        i = i + 1;
    }
    proof {
        assert(raw@.subrange(8, 16) =~= le_bytes(id as int, 8));
    }
    true
}

impl Client {
    pub fn new(peer: u64, incarnation: u64) -> (r: Result<Self, Error>)
        ensures
            r is Err <==> (peer != 7 || incarnation == 0),
            match r {
                Ok(c) => c@ == (ClientView { peer, incarnation, next: 1, pending: None, closed: false }),
                Err(e) => e == Error::Invalid,
            },
    {
        if peer != 7 || incarnation == 0 {
            return Err(Error::Invalid);
        }
        Ok(Client { peer, incarnation, next: 1, pending: None, closed: false })
    }

    /// Starts a request; `out` is zeroed first and holds the encoded request
    /// only on success.
    pub fn begin(&mut self, operation: Operation, payload: &[u8], out: &mut [u8; 128]) -> (r: Result<usize, Error>)
        ensures
            final(self)@ == begin_spec(old(self)@, operation, payload@).0,
            r == begin_spec(old(self)@, operation, payload@).1,
            match r {
                Ok(_) => final(out)@ == encode_spec(operation.spec_code(), old(self)@.next, payload@)->Some_0,
                Err(_) => final(out)@ == zeros(128),
            },
    {
        clear(out);
        if self.closed {
            return Err(Error::Closed);
        }
        if self.pending.is_some() {
            return Err(Error::Busy);
        }
        if self.next == u64::MAX {
            return Err(Error::Exhausted);
        }
        let next = self.next + 1;
        match encode(operation.code(), self.next, payload, out) {
            Some(n) => {
                self.pending = Some((operation, self.next));
                self.next = next;
                Ok(n)
            },
            None => Err(Error::Invalid),
        }
    }

    /// Accepts the reply to the pending request from the real peer. Refusals
    /// leave the client unchanged, so a wrong or malformed reply cannot
    /// discard the pending request.
    pub fn accept<'a>(&mut self, peer: u64, incarnation: u64, raw: &'a [u8]) -> (r: Result<Response<'a>, Error>)
        ensures
            match accept_spec(old(self)@, peer, incarnation, raw@) {
                Ok((operation, status)) => r is Ok && r->Ok_0.operation == operation && r->Ok_0.status == status
                    && r->Ok_0.payload@ == raw@.subrange(HEADER as int, raw@.len() as int) && final(self)@ == accepted(
                    old(self)@,
                    operation,
                    status,
                ),
                Err(e) => r == Err::<Response<'a>, Error>(e) && final(self)@ == old(self)@,
            },
    {
        if peer != self.peer || incarnation != self.incarnation {
            return Err(Error::Peer);
        }
        if self.closed {
            return Err(Error::Closed);
        }
        let (operation, id) = match self.pending {
            Some(p) => p,
            None => return Err(Error::Unexpected),
        };
        if raw.len() < HEADER || raw.len() > MESSAGE || raw[0] != 0x52 || raw[1] != 0x4e || raw[2] != 0x45 || raw[3]
            != 0x54 || raw[4] != 0 || raw[5] != operation.code() || raw[7] != 0 || !same_id(raw, id) {
            proof {
                if raw@.len() >= HEADER && raw@.len() <= MESSAGE && raw@.subrange(0, 4) == magic() {
                    assert(raw@[0] == raw@.subrange(0, 4)[0] && raw@[3] == raw@.subrange(0, 4)[3]);
                    assert(raw@[1] == raw@.subrange(0, 4)[1] && raw@[2] == raw@.subrange(0, 4)[2]);
                }
            }
            return Err(Error::Invalid);
        }
        proof {
            assert(raw@.subrange(0, 4) =~= magic());
        }
        let status = match decode_status(raw[6]) {
            Some(s) => s,
            None => return Err(Error::Invalid),
        };
        if (operation != Operation::Receive || status != Status::Success) && raw.len() != HEADER {
            return Err(Error::Invalid);
        }
        self.pending = None;
        if status == Status::Closed || status == Status::Io || (operation == Operation::Close && status
            == Status::Success) {
            self.closed = true;
        }
        Ok(Response { operation, status, payload: &raw[HEADER..raw.len()] })
    }

    /// Abandons an uncertain request by retiring the client for good. Remote
    /// effects are not cancelled and nothing is retried.
    pub fn retire(&mut self)
        ensures
            final(self)@ == (ClientView { closed: true, pending: None, ..old(self)@ }),
    {
        self.closed = true;
        self.pending = None;
    }
}

/// Law: request ids are issued in strictly increasing order and never wrap.
/// A successful begin takes the next id and moves past it; the last id is
/// never issued; accepting a reply or retiring the client leaves the next
/// id alone, so no id is ever sent twice.
pub proof fn law_request_ids_never_repeat(c: ClientView, operation: Operation, payload: Seq<u8>, status: Status)
    ensures
        begin_spec(c, operation, payload).1 is Ok ==> {
            &&& c.next < u64::MAX
            &&& begin_spec(c, operation, payload).0.pending == Some((operation, c.next))
            &&& begin_spec(c, operation, payload).0.next == c.next + 1
        },
        begin_spec(c, operation, payload).1 is Err ==> begin_spec(c, operation, payload).0 == c,
        accepted(c, operation, status).next == c.next,
        (ClientView { closed: true, pending: None, ..c }).next == c.next,
{
}

} // verus!
