//! Application operation payloads carried in wire messages: the paint
//! protocol, keyboard input and document requests and replies. No caller
//! identity is inferred here.
use vstd::prelude::*;
use crate::alpha_wire::{Error, Message, MessageView, message_fields_ok, INPUT, PAINT, READ_DOCUMENT, WRITE_DOCUMENT};

verus! {

pub const OK: u8 = 0;
pub const INVALID: u8 = 1;
pub const DENIED: u8 = 2;
pub const UNAVAILABLE: u8 = 3;
pub const READ_ONLY: u8 = 4;
pub const INDETERMINATE: u8 = 5;
pub const BUSY: u8 = 6;
pub const EXHAUSTED: u8 = 7;

/// One paint step: begin a surface of `count` rows, set one row's text, or
/// commit the surface.
#[derive(Clone, Copy, Debug, PartialEq, Eq)]
pub enum Paint<'a> {
    Begin(u8),
    Line { row: u8, text: &'a [u8] },
    Commit,
}

/// Abstract paint step.
pub enum PaintView {
    Begin(u8),
    Line(u8, Seq<u8>),
    Commit,
}

impl<'a> View for Paint<'a> {
    type V = PaintView;

    closed spec fn view(&self) -> PaintView {
        match *self {
            Paint::Begin(c) => PaintView::Begin(c),
            Paint::Line { row, text } => PaintView::Line(row, text@),
            Paint::Commit => PaintView::Commit,
        }
    }
}

/// Printable ASCII only.
pub open spec fn printable(t: Seq<u8>) -> bool {
    forall|i: int| 0 <= i < t.len() ==> 32 <= #[trigger] t[i] <= 126
}

/// The paint step a message carries, if it is a well-formed one.
pub open spec fn paint_spec(m: MessageView) -> Option<PaintView> {
    let p = m.payload;
    if m.operation != PAINT || m.status != OK {
        None
    } else if p.len() == 2 && p[0] == 0 && 1 <= p[1] <= 6 {
        Some(PaintView::Begin(p[1]))
    } else if p.len() >= 2 && p[0] == 1 && p[1] < 6 && p.len() - 2 <= 48 && printable(p.subrange(2, p.len() as int)) {
        Some(PaintView::Line(p[1], p.subrange(2, p.len() as int)))
    } else if p.len() == 1 && p[0] == 2 {
        Some(PaintView::Commit)
    } else {
        None
    }
}

fn all_printable(t: &[u8]) -> (r: bool)
    ensures
        r == printable(t@),
{
    let mut i: usize = 0;
    while i < t.len()
        invariant
            i <= t@.len(),
            forall|k: int| 0 <= k < i ==> 32 <= #[trigger] t@[k] <= 126,
        decreases t@.len() - i,
    {
        if t[i] < 32 || t[i] > 126 {
            return false;
        }
        i = i + 1;
    }
    true
}

pub fn paint(message: &Message) -> (r: Result<Paint<'_>, Error>)
    ensures
        match r {
            Ok(p) => paint_spec(message@) == Some(p@),
            Err(e) => paint_spec(message@) is None && e == Error::Invalid,
        },
{
    if message.operation() != PAINT || message.status() != OK {
        return Err(Error::Invalid);
    }
    let p = message.payload();
    if p.len() == 2 && p[0] == 0 && 1 <= p[1] && p[1] <= 6 {
        return Ok(Paint::Begin(p[1]));
    }
    if p.len() >= 2 && p[0] == 1 && p[1] < 6 && p.len() - 2 <= 48 {
        let text = &p[2..p.len()];
        if all_printable(text) {
            return Ok(Paint::Line { row: p[1], text });
        }
    }
    if p.len() == 1 && p[0] == 2 {
        return Ok(Paint::Commit);
    }
    Err(Error::Invalid)
}

/// The message that begins a surface of `count` rows.
pub fn begin(sequence: u32, count: u8) -> (r: Result<Message, Error>)
    ensures
        r is Ok <==> (sequence != 0 && 1 <= count <= 6),
        match r {
            Ok(m) => m@ == (MessageView { operation: PAINT, status: OK, sequence, payload: seq![0u8, count] }),
            Err(e) => e == Error::Invalid,
        },
{
    let bytes = [0u8, count];
    proof {
        assert(bytes@ =~= seq![0u8, count]);
    }
    let m = match Message::new(PAINT, OK, sequence, &bytes) {
        Ok(m) => m,
        Err(e) => return Err(e),
    };
    match paint(&m) {
        Ok(_) => Ok(m),
        Err(e) => Err(e),
    }
}

/// The message that sets row `row` to `text`.
pub fn line(sequence: u32, row: u8, text: &[u8]) -> (r: Result<Message, Error>)
    ensures
        r is Ok <==> (sequence != 0 && row < 6 && text@.len() <= 48 && printable(text@)),
        match r {
            Ok(m) => m@ == (MessageView { operation: PAINT, status: OK, sequence, payload: seq![1u8, row] + text@ }),
            Err(e) => e == Error::Invalid,
        },
{
    if text.len() > 48 {
        return Err(Error::Invalid);
    }
    let mut bytes: Vec<u8> = Vec::new();
    bytes.push(1);
    bytes.push(row);
    let mut i: usize = 0;
    while i < text.len()
        invariant
            i <= text@.len(),
            bytes@ == seq![1u8, row] + text@.subrange(0, i as int),
        decreases text@.len() - i,
    {
        bytes.push(text[i]);
        i = i + 1;
        proof {
            assert(bytes@ =~= seq![1u8, row] + text@.subrange(0, i as int));
        }
    }
    proof {
        assert(text@.subrange(0, text@.len() as int) =~= text@);
    }
    let m = match Message::new(PAINT, OK, sequence, bytes.as_slice()) {
        Ok(m) => m,
        Err(e) => return Err(e),
    };
    proof {
        assert(m@.payload.subrange(2, m@.payload.len() as int) =~= text@);
    }
    match paint(&m) {
        Ok(_) => Ok(m),
        Err(e) => Err(e),
    }
}

/// The message that commits the surface.
pub fn commit(sequence: u32) -> (r: Result<Message, Error>)
    ensures
        r is Ok <==> sequence != 0,
        match r {
            Ok(m) => m@ == (MessageView { operation: PAINT, status: OK, sequence, payload: seq![2u8] }),
            Err(e) => e == Error::Invalid,
        },
{
    let bytes = [2u8];
    proof {
        assert(bytes@ =~= seq![2u8]);
    }
    Message::new(PAINT, OK, sequence, &bytes)
}

/// Keys an application may receive: backspace, enter, escape and printable
/// ASCII.
pub open spec fn key_ok(key: u8) -> bool {
    key == 8 || key == 13 || key == 27 || (32 <= key <= 126)
}

/// The input message that delivers one key.
pub fn input(sequence: u32, key: u8) -> (r: Result<Message, Error>)
    ensures
        r is Ok <==> (sequence != 0 && key_ok(key)),
        match r {
            Ok(m) => m@ == (MessageView { operation: INPUT, status: OK, sequence, payload: seq![key] }),
            Err(e) => e == Error::Invalid,
        },
{
    let bytes = [key];
    proof {
        assert(bytes@ =~= seq![key]);
    }
    let m = match Message::new(INPUT, OK, sequence, &bytes) {
        Ok(m) => m,
        Err(e) => return Err(e),
    };
    match key_of(&m) {
        Ok(_) => Ok(m),
        Err(e) => Err(e),
    }
}

/// The key an input message carries.
pub fn key_of(m: &Message) -> (r: Result<u8, Error>)
    ensures
        r is Ok <==> (m@.operation == INPUT && m@.status == OK && m@.payload.len() == 1 && key_ok(m@.payload[0])),
        match r {
            Ok(k) => k == m@.payload[0],
            Err(e) => e == Error::Invalid,
        },
{
    if m.operation() != INPUT || m.status() != OK {
        return Err(Error::Invalid);
    }
    let p = m.payload();
    if p.len() == 1 && (p[0] == 8 || p[0] == 13 || p[0] == 27 || (32 <= p[0] && p[0] <= 126)) {
        Ok(p[0])
    } else {
        Err(Error::Invalid)
    }
}

/// A document request: read the document, or write these bytes.
#[derive(Clone, Copy, Debug, PartialEq, Eq)]
pub enum Document<'a> {
    Read,
    Write(&'a [u8]),
}

/// The document request a message carries: a read has no payload, a write
/// at most 64 bytes; only status `OK` requests are requests at all.
pub fn document(m: &Message) -> (r: Result<Document<'_>, Error>)
    ensures
        r is Ok <==> (m@.status == OK && ((m@.operation == READ_DOCUMENT && m@.payload.len() == 0) || (m@.operation
            == WRITE_DOCUMENT && m@.payload.len() <= 64))),
        match r {
            Ok(Document::Read) => m@.operation == READ_DOCUMENT,
            Ok(Document::Write(d)) => m@.operation == WRITE_DOCUMENT && d@ == m@.payload,
            Err(e) => e == Error::Invalid,
        },
{
    if m.status() != OK {
        return Err(Error::Invalid);
    }
    let op = m.operation();
    let p = m.payload();
    if op == READ_DOCUMENT && p.len() == 0 {
        Ok(Document::Read)
    } else if op == WRITE_DOCUMENT && p.len() <= 64 {
        Ok(Document::Write(p))
    } else {
        Err(Error::Invalid)
    }
}

/// Shape check of a reply to a document request: a refusal carries no
/// payload, a read's reply at most 64 bytes and a write's reply none.
pub fn document_reply(m: &Message) -> (r: Result<(), Error>)
    ensures
        r is Ok <==> ((m@.operation == READ_DOCUMENT || m@.operation == WRITE_DOCUMENT) && if m@.status != OK {
            m@.payload.len() == 0
        } else {
            (m@.operation == READ_DOCUMENT && m@.payload.len() <= 64) || (m@.operation == WRITE_DOCUMENT
                && m@.payload.len() == 0)
        }),
        r is Err ==> r == Err::<(), Error>(Error::Invalid),
{
    let op = m.operation();
    if op != READ_DOCUMENT && op != WRITE_DOCUMENT {
        return Err(Error::Invalid);
    }
    let n = m.payload().len();
    if m.status() != OK {
        return if n == 0 { Ok(()) } else { Err(Error::Invalid) };
    }
    if op == READ_DOCUMENT && n <= 64 || op == WRITE_DOCUMENT && n == 0 {
        Ok(())
    } else {
        Err(Error::Invalid)
    }
}

/// Law: the paint builders and the parser agree: the payloads `begin`,
/// `line` and `commit` build from valid arguments parse back to the same
/// step, whatever the sequence number.
pub proof fn law_paint_roundtrip(sequence: u32, count: u8, row: u8, text: Seq<u8>)
    ensures
        1 <= count <= 6 ==> paint_spec(MessageView { operation: PAINT, status: OK, sequence, payload: seq![0u8, count] })
            == Some(PaintView::Begin(count)),
        row < 6 && text.len() <= 48 && printable(text) ==> paint_spec(
            MessageView { operation: PAINT, status: OK, sequence, payload: seq![1u8, row] + text },
        ) == Some(PaintView::Line(row, text)),
        paint_spec(MessageView { operation: PAINT, status: OK, sequence, payload: seq![2u8] }) == Some(
            PaintView::Commit,
        ),
{
    let p = seq![1u8, row] + text;
    assert(p.subrange(2, p.len() as int) =~= text);
}

} // verus!
