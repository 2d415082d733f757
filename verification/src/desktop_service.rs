//! Desktop service models: the shared Files/Terminal workspace over the
//! platform store, and the PS/2 set-1 keyboard translator.
use vstd::prelude::*;
use crate::platform_store::{self as storage, FileView, Owner, process_spec, status_reply, store_wf};

verus! {

/// The workspace every desktop tool shares: Files (4) and Terminal (6) of
/// the first incarnation, both acting as one owner.
pub open spec fn workspace() -> Owner {
    Owner { task: 4, generation: 1 }
}

pub open spec fn desktop_process_spec(files: Seq<Option<FileView>>, sender: u64, generation: u32, m: Seq<u8>) -> (Seq<Option<FileView>>, Seq<u8>) {
    if !(sender == 4 || sender == 6) || generation != 1 {
        (files, status_reply(storage::INVALID))
    } else {
        process_spec(files, workspace(), m)
    }
}

/// `welcome`, the file every workspace starts with, holding `RAR OS ALPHA`.
pub open spec fn welcome_name() -> Seq<u8> {
    seq![0x77u8, 0x65, 0x6c, 0x63, 0x6f, 0x6d, 0x65]
}

pub open spec fn welcome_text() -> Seq<u8> {
    seq![0x52u8, 0x41, 0x52, 0x20, 0x4f, 0x53, 0x20, 0x41, 0x4c, 0x50, 0x48, 0x41]
}

/// The bytes of a request, as the platform store frames them.
pub open spec fn request_bytes(op: u8, name: Seq<u8>, data: Seq<u8>) -> Seq<u8> {
    seq![op, name.len() as u8, data.len() as u8, 0u8] + name + storage::zeros((12 - name.len()) as nat) + data
        + storage::zeros((112 - data.len()) as nat)
}

/// The workspace after creating and writing the welcome file.
pub open spec fn initial_workspace() -> Seq<Option<FileView>> {
    let empty = Seq::new(storage::FILES as nat, |i: int| None::<FileView>);
    let created = process_spec(empty, workspace(), request_bytes(storage::CREATE, welcome_name(), Seq::empty())).0;
    process_spec(created, workspace(), request_bytes(storage::WRITE, welcome_name(), welcome_text())).0
}

/// The profile's store: the platform store and its per-owner contract,
/// unchanged, with one shared workspace.
pub struct DesktopStore {
    inner: storage::Store,
}

impl View for DesktopStore {
    type V = Seq<Option<FileView>>;

    closed spec fn view(&self) -> Seq<Option<FileView>> {
        self.inner@
    }
}

impl DesktopStore {
    pub closed spec fn wf(&self) -> bool {
        store_wf(self.inner@)
    }

    /// The workspace with its welcome file.
    pub fn new() -> (s: Self)
        ensures
            s.wf(),
            s@ == initial_workspace(),
    {
        let mut value = DesktopStore { inner: storage::Store::new() };
        let name: [u8; 7] = [0x77, 0x65, 0x6c, 0x63, 0x6f, 0x6d, 0x65];
        let text: [u8; 12] = [0x52, 0x41, 0x52, 0x20, 0x4f, 0x53, 0x20, 0x41, 0x4c, 0x50, 0x48, 0x41];
        let none: [u8; 0] = [];
        proof {
            assert(name@ =~= welcome_name());
            assert(text@ =~= welcome_text());
            assert(none@ =~= Seq::<u8>::empty());
        }
        let create = storage::request(storage::CREATE, &name, &none);
        let write = storage::request(storage::WRITE, &name, &text);
        if let Some(c) = create {
            value.process(4, 1, &c);
        }
        if let Some(w) = write {
            value.process(4, 1, &w);
        }
        value
    }

    /// Serves one request from a kernel-stamped sender: only Files and
    /// Terminal of the first incarnation, on the shared workspace.
    pub fn process(&mut self, sender: u64, generation: u32, m: &[u8; 128]) -> (r: [u8; 128])
        requires
            old(self).wf(),
        ensures
            final(self).wf(),
            final(self)@ == desktop_process_spec(old(self)@, sender, generation, m@).0,
            r@ == desktop_process_spec(old(self)@, sender, generation, m@).1,
    {
        if !(sender == 4 || sender == 6) || generation != 1 {
            let mut out = [0u8; 128];
            out[0] = storage::INVALID;
            proof {
                assert(out@ =~= status_reply(storage::INVALID));
            }
            return out;
        }
        self.inner.process(Owner { task: 4, generation: 1 }, m)
    }
}

pub struct KeyboardView {
    pub extended: bool,
    pub skip: u8,
    pub down: Seq<bool>,
    pub caps: bool,
}

/// The unshifted character of a make code, if it has one.
pub open spec fn base_key(scan: u8) -> Option<u8> {
    if scan == 1 {
        Some(27)
    } else if scan == 14 {
        Some(8)
    } else if scan == 28 {
        Some(13)
    } else if scan == 57 {
        Some(0x20)
    } else if scan == 59 {
        Some(0x81)
    } else if scan == 60 {
        Some(0x82)
    } else if scan == 61 {
        Some(0x83)
    } else if 2 <= scan <= 11 {
        Some(seq![0x31u8, 0x32, 0x33, 0x34, 0x35, 0x36, 0x37, 0x38, 0x39, 0x30][scan - 2])
    } else if 16 <= scan <= 25 {
        Some(seq![0x71u8, 0x77, 0x65, 0x72, 0x74, 0x79, 0x75, 0x69, 0x6f, 0x70][scan - 16])
    } else if 30 <= scan <= 38 {
        Some(seq![0x61u8, 0x73, 0x64, 0x66, 0x67, 0x68, 0x6a, 0x6b, 0x6c][scan - 30])
    } else if 44 <= scan <= 50 {
        Some(seq![0x7au8, 0x78, 0x63, 0x76, 0x62, 0x6e, 0x6d][scan - 44])
    } else if scan == 12 {
        Some(0x2d)
    } else if scan == 13 {
        Some(0x3d)
    } else if scan == 26 {
        Some(0x5b)
    } else if scan == 27 {
        Some(0x5d)
    } else if scan == 39 {
        Some(0x3b)
    } else if scan == 40 {
        Some(0x27)
    } else if scan == 41 {
        Some(0x60)
    } else if scan == 43 {
        Some(0x5c)
    } else if scan == 51 {
        Some(0x2c)
    } else if scan == 52 {
        Some(0x2e)
    } else if scan == 53 {
        Some(0x2f)
    } else {
        None
    }
}

/// The shifted form of a US-layout character that is not a letter.
pub open spec fn shifted(b: u8) -> u8 {
    if b == 0x31 {
        0x21
    } else if b == 0x32 {
        0x40
    } else if b == 0x33 {
        0x23
    } else if b == 0x34 {
        0x24
    } else if b == 0x35 {
        0x25
    } else if b == 0x36 {
        0x5e
    } else if b == 0x37 {
        0x26
    } else if b == 0x38 {
        0x2a
    } else if b == 0x39 {
        0x28
    } else if b == 0x30 {
        0x29
    } else if b == 0x2d {
        0x5f
    } else if b == 0x3d {
        0x2b
    } else if b == 0x5b {
        0x7b
    } else if b == 0x5d {
        0x7d
    } else if b == 0x3b {
        0x3a
    } else if b == 39 {
        34
    } else if b == 96 {
        0x7e
    } else if b == 92 {
        0x7c
    } else if b == 0x2c {
        0x3c
    } else if b == 0x2e {
        0x3e
    } else if b == 0x2f {
        0x3f
    } else {
        b
    }
}

pub open spec fn reset_spec(k: KeyboardView) -> KeyboardView {
    KeyboardView { extended: false, skip: 0, down: Seq::new(256, |i: int| false), ..k }
}

/// One byte of PS/2 set 1: the pause sequence is skipped whole, `e0`
/// prefixes an extended key, 0 and 255 reset, a break releases, a held key
/// does not repeat, caps lock toggles, and a make of a known key gives its
/// character under shift and caps; extended up and down arrows give `84`
/// and `85`.
pub open spec fn feed_spec(k: KeyboardView, byte: u8) -> (KeyboardView, Option<u8>) {
    if k.skip > 0 {
        (KeyboardView { skip: (k.skip - 1) as u8, ..k }, None)
    } else if byte == 0xe1 {
        (KeyboardView { extended: false, skip: 5, ..k }, None)
    } else if byte == 0xe0 {
        (KeyboardView { extended: true, ..k }, None)
    } else if byte == 0 || byte == 255 {
        (reset_spec(k), None)
    } else {
        let ext = k.extended;
        let scan = byte % 128;
        let index = scan + if ext { 128int } else { 0int };
        let k1 = KeyboardView { extended: false, ..k };
        if byte >= 128 {
            (KeyboardView { down: k1.down.update(index, false), ..k1 }, None)
        } else if k1.down[index] {
            (k1, None)
        } else {
            let k2 = KeyboardView { down: k1.down.update(index, true), ..k1 };
            if ext {
                (k2, if scan == 0x48 { Some(0x84u8) } else if scan == 0x50 { Some(0x85u8) } else { None })
            } else if scan == 0x3a {
                (KeyboardView { caps: !k2.caps, ..k2 }, None)
            } else {
                let shift = k2.down[0x2a] || k2.down[0x36];
                match base_key(scan as u8) {
                    None => (k2, None),
                    Some(b) => if 0x61 <= b <= 0x7a {
                        (k2, Some(if shift != k2.caps { (b - 32) as u8 } else { b }))
                    } else if shift {
                        (k2, Some(shifted(b)))
                    } else {
                        (k2, Some(b))
                    },
                }
            }
        }
    }
}

/// A keyboard with nothing held and caps lock off.
pub open spec fn fresh_keyboard() -> KeyboardView {
    KeyboardView { extended: false, skip: 0, down: Seq::new(256, |i: int| false), caps: false }
}

/// The US layout: on a fresh keyboard each set-1 make code gives the
/// character printed on its key cap (escape, backspace, enter and the
/// function keys their control bytes), and with left shift held the
/// shifted character of that key cap.
#[verifier::rlimit(60)]
pub proof fn law_us_key_caps()
    ensures
        feed_spec(fresh_keyboard(), 0x02).1 == Some('1' as u8),
        feed_spec(fresh_keyboard(), 0x03).1 == Some('2' as u8),
        feed_spec(fresh_keyboard(), 0x04).1 == Some('3' as u8),
        feed_spec(fresh_keyboard(), 0x05).1 == Some('4' as u8),
        feed_spec(fresh_keyboard(), 0x06).1 == Some('5' as u8),
        feed_spec(fresh_keyboard(), 0x07).1 == Some('6' as u8),
        feed_spec(fresh_keyboard(), 0x08).1 == Some('7' as u8),
        feed_spec(fresh_keyboard(), 0x09).1 == Some('8' as u8),
        feed_spec(fresh_keyboard(), 0x0a).1 == Some('9' as u8),
        feed_spec(fresh_keyboard(), 0x0b).1 == Some('0' as u8),
        feed_spec(fresh_keyboard(), 0x0c).1 == Some('-' as u8),
        feed_spec(fresh_keyboard(), 0x0d).1 == Some('=' as u8),
        feed_spec(fresh_keyboard(), 0x10).1 == Some('q' as u8),
        feed_spec(fresh_keyboard(), 0x11).1 == Some('w' as u8),
        feed_spec(fresh_keyboard(), 0x12).1 == Some('e' as u8),
        feed_spec(fresh_keyboard(), 0x13).1 == Some('r' as u8),
        feed_spec(fresh_keyboard(), 0x14).1 == Some('t' as u8),
        feed_spec(fresh_keyboard(), 0x15).1 == Some('y' as u8),
        feed_spec(fresh_keyboard(), 0x16).1 == Some('u' as u8),
        feed_spec(fresh_keyboard(), 0x17).1 == Some('i' as u8),
        feed_spec(fresh_keyboard(), 0x18).1 == Some('o' as u8),
        feed_spec(fresh_keyboard(), 0x19).1 == Some('p' as u8),
        feed_spec(fresh_keyboard(), 0x1a).1 == Some('[' as u8),
        feed_spec(fresh_keyboard(), 0x1b).1 == Some(']' as u8),
        feed_spec(fresh_keyboard(), 0x1e).1 == Some('a' as u8),
        feed_spec(fresh_keyboard(), 0x1f).1 == Some('s' as u8),
        feed_spec(fresh_keyboard(), 0x20).1 == Some('d' as u8),
        feed_spec(fresh_keyboard(), 0x21).1 == Some('f' as u8),
        feed_spec(fresh_keyboard(), 0x22).1 == Some('g' as u8),
        feed_spec(fresh_keyboard(), 0x23).1 == Some('h' as u8),
        feed_spec(fresh_keyboard(), 0x24).1 == Some('j' as u8),
        feed_spec(fresh_keyboard(), 0x25).1 == Some('k' as u8),
        feed_spec(fresh_keyboard(), 0x26).1 == Some('l' as u8),
        feed_spec(fresh_keyboard(), 0x27).1 == Some(';' as u8),
        feed_spec(fresh_keyboard(), 0x28).1 == Some('\'' as u8),
        feed_spec(fresh_keyboard(), 0x29).1 == Some('`' as u8),
        feed_spec(fresh_keyboard(), 0x2b).1 == Some('\\' as u8),
        feed_spec(fresh_keyboard(), 0x2c).1 == Some('z' as u8),
        feed_spec(fresh_keyboard(), 0x2d).1 == Some('x' as u8),
        feed_spec(fresh_keyboard(), 0x2e).1 == Some('c' as u8),
        feed_spec(fresh_keyboard(), 0x2f).1 == Some('v' as u8),
        feed_spec(fresh_keyboard(), 0x30).1 == Some('b' as u8),
        feed_spec(fresh_keyboard(), 0x31).1 == Some('n' as u8),
        feed_spec(fresh_keyboard(), 0x32).1 == Some('m' as u8),
        feed_spec(fresh_keyboard(), 0x33).1 == Some(',' as u8),
        feed_spec(fresh_keyboard(), 0x34).1 == Some('.' as u8),
        feed_spec(fresh_keyboard(), 0x35).1 == Some('/' as u8),
        feed_spec(fresh_keyboard(), 0x39).1 == Some(' ' as u8),
        feed_spec(fresh_keyboard(), 0x01).1 == Some(0x1bu8),
        feed_spec(fresh_keyboard(), 0x0e).1 == Some(0x08u8),
        feed_spec(fresh_keyboard(), 0x1c).1 == Some(0x0du8),
        feed_spec(fresh_keyboard(), 0x3b).1 == Some(0x81u8),
        feed_spec(fresh_keyboard(), 0x3c).1 == Some(0x82u8),
        feed_spec(fresh_keyboard(), 0x3d).1 == Some(0x83u8),
        feed_spec(feed_spec(fresh_keyboard(), 0x2a).0, 0x02).1 == Some('!' as u8),
        feed_spec(feed_spec(fresh_keyboard(), 0x2a).0, 0x03).1 == Some('@' as u8),
        feed_spec(feed_spec(fresh_keyboard(), 0x2a).0, 0x04).1 == Some('#' as u8),
        feed_spec(feed_spec(fresh_keyboard(), 0x2a).0, 0x05).1 == Some('$' as u8),
        feed_spec(feed_spec(fresh_keyboard(), 0x2a).0, 0x06).1 == Some('%' as u8),
        feed_spec(feed_spec(fresh_keyboard(), 0x2a).0, 0x07).1 == Some('^' as u8),
        feed_spec(feed_spec(fresh_keyboard(), 0x2a).0, 0x08).1 == Some('&' as u8),
        feed_spec(feed_spec(fresh_keyboard(), 0x2a).0, 0x09).1 == Some('*' as u8),
        feed_spec(feed_spec(fresh_keyboard(), 0x2a).0, 0x0a).1 == Some('(' as u8),
        feed_spec(feed_spec(fresh_keyboard(), 0x2a).0, 0x0b).1 == Some(')' as u8),
        feed_spec(feed_spec(fresh_keyboard(), 0x2a).0, 0x0c).1 == Some('_' as u8),
        feed_spec(feed_spec(fresh_keyboard(), 0x2a).0, 0x0d).1 == Some('+' as u8),
        feed_spec(feed_spec(fresh_keyboard(), 0x2a).0, 0x10).1 == Some('Q' as u8),
        feed_spec(feed_spec(fresh_keyboard(), 0x2a).0, 0x11).1 == Some('W' as u8),
        feed_spec(feed_spec(fresh_keyboard(), 0x2a).0, 0x12).1 == Some('E' as u8),
        feed_spec(feed_spec(fresh_keyboard(), 0x2a).0, 0x13).1 == Some('R' as u8),
        feed_spec(feed_spec(fresh_keyboard(), 0x2a).0, 0x14).1 == Some('T' as u8),
        feed_spec(feed_spec(fresh_keyboard(), 0x2a).0, 0x15).1 == Some('Y' as u8),
        feed_spec(feed_spec(fresh_keyboard(), 0x2a).0, 0x16).1 == Some('U' as u8),
        feed_spec(feed_spec(fresh_keyboard(), 0x2a).0, 0x17).1 == Some('I' as u8),
        feed_spec(feed_spec(fresh_keyboard(), 0x2a).0, 0x18).1 == Some('O' as u8),
        feed_spec(feed_spec(fresh_keyboard(), 0x2a).0, 0x19).1 == Some('P' as u8),
        feed_spec(feed_spec(fresh_keyboard(), 0x2a).0, 0x1a).1 == Some('{' as u8),
        feed_spec(feed_spec(fresh_keyboard(), 0x2a).0, 0x1b).1 == Some('}' as u8),
        feed_spec(feed_spec(fresh_keyboard(), 0x2a).0, 0x1e).1 == Some('A' as u8),
        feed_spec(feed_spec(fresh_keyboard(), 0x2a).0, 0x1f).1 == Some('S' as u8),
        feed_spec(feed_spec(fresh_keyboard(), 0x2a).0, 0x20).1 == Some('D' as u8),
        feed_spec(feed_spec(fresh_keyboard(), 0x2a).0, 0x21).1 == Some('F' as u8),
        feed_spec(feed_spec(fresh_keyboard(), 0x2a).0, 0x22).1 == Some('G' as u8),
        feed_spec(feed_spec(fresh_keyboard(), 0x2a).0, 0x23).1 == Some('H' as u8),
        feed_spec(feed_spec(fresh_keyboard(), 0x2a).0, 0x24).1 == Some('J' as u8),
        feed_spec(feed_spec(fresh_keyboard(), 0x2a).0, 0x25).1 == Some('K' as u8),
        feed_spec(feed_spec(fresh_keyboard(), 0x2a).0, 0x26).1 == Some('L' as u8),
        feed_spec(feed_spec(fresh_keyboard(), 0x2a).0, 0x27).1 == Some(':' as u8),
        feed_spec(feed_spec(fresh_keyboard(), 0x2a).0, 0x28).1 == Some('"' as u8),
        feed_spec(feed_spec(fresh_keyboard(), 0x2a).0, 0x29).1 == Some('~' as u8),
        feed_spec(feed_spec(fresh_keyboard(), 0x2a).0, 0x2b).1 == Some('|' as u8),
        feed_spec(feed_spec(fresh_keyboard(), 0x2a).0, 0x2c).1 == Some('Z' as u8),
        feed_spec(feed_spec(fresh_keyboard(), 0x2a).0, 0x2d).1 == Some('X' as u8),
        feed_spec(feed_spec(fresh_keyboard(), 0x2a).0, 0x2e).1 == Some('C' as u8),
        feed_spec(feed_spec(fresh_keyboard(), 0x2a).0, 0x2f).1 == Some('V' as u8),
        feed_spec(feed_spec(fresh_keyboard(), 0x2a).0, 0x30).1 == Some('B' as u8),
        feed_spec(feed_spec(fresh_keyboard(), 0x2a).0, 0x31).1 == Some('N' as u8),
        feed_spec(feed_spec(fresh_keyboard(), 0x2a).0, 0x32).1 == Some('M' as u8),
        feed_spec(feed_spec(fresh_keyboard(), 0x2a).0, 0x33).1 == Some('<' as u8),
        feed_spec(feed_spec(fresh_keyboard(), 0x2a).0, 0x34).1 == Some('>' as u8),
        feed_spec(feed_spec(fresh_keyboard(), 0x2a).0, 0x35).1 == Some('?' as u8),
        feed_spec(feed_spec(fresh_keyboard(), 0x2a).0, 0x39).1 == Some(' ' as u8),
{
}

/// Caps lock and shift: with caps lock on a letter key gives its capital,
/// and holding the right shift as well gives the small letter again; a
/// held key does not repeat until it is released; the extended up and
/// down arrows give `84` and `85`; a key without a character gives
/// nothing; and the six-byte pause sequence is swallowed whole.
#[verifier::rlimit(80)]
pub proof fn law_caps_and_shift()
    ensures
        feed_spec(feed_spec(fresh_keyboard(), 0x3a).0, 0x10).1 == Some('Q' as u8),
        feed_spec(feed_spec(feed_spec(fresh_keyboard(), 0x3a).0, 0x36).0, 0x10).1 == Some('q' as u8),
        feed_spec(feed_spec(fresh_keyboard(), 0x3a).0, 0x11).1 == Some('W' as u8),
        feed_spec(feed_spec(feed_spec(fresh_keyboard(), 0x3a).0, 0x36).0, 0x11).1 == Some('w' as u8),
        feed_spec(feed_spec(fresh_keyboard(), 0x3a).0, 0x12).1 == Some('E' as u8),
        feed_spec(feed_spec(feed_spec(fresh_keyboard(), 0x3a).0, 0x36).0, 0x12).1 == Some('e' as u8),
        feed_spec(feed_spec(fresh_keyboard(), 0x3a).0, 0x13).1 == Some('R' as u8),
        feed_spec(feed_spec(feed_spec(fresh_keyboard(), 0x3a).0, 0x36).0, 0x13).1 == Some('r' as u8),
        feed_spec(feed_spec(fresh_keyboard(), 0x3a).0, 0x14).1 == Some('T' as u8),
        feed_spec(feed_spec(feed_spec(fresh_keyboard(), 0x3a).0, 0x36).0, 0x14).1 == Some('t' as u8),
        feed_spec(feed_spec(fresh_keyboard(), 0x3a).0, 0x15).1 == Some('Y' as u8),
        feed_spec(feed_spec(feed_spec(fresh_keyboard(), 0x3a).0, 0x36).0, 0x15).1 == Some('y' as u8),
        feed_spec(feed_spec(fresh_keyboard(), 0x3a).0, 0x16).1 == Some('U' as u8),
        feed_spec(feed_spec(feed_spec(fresh_keyboard(), 0x3a).0, 0x36).0, 0x16).1 == Some('u' as u8),
        feed_spec(feed_spec(fresh_keyboard(), 0x3a).0, 0x17).1 == Some('I' as u8),
        feed_spec(feed_spec(feed_spec(fresh_keyboard(), 0x3a).0, 0x36).0, 0x17).1 == Some('i' as u8),
        feed_spec(feed_spec(fresh_keyboard(), 0x3a).0, 0x18).1 == Some('O' as u8),
        feed_spec(feed_spec(feed_spec(fresh_keyboard(), 0x3a).0, 0x36).0, 0x18).1 == Some('o' as u8),
        feed_spec(feed_spec(fresh_keyboard(), 0x3a).0, 0x19).1 == Some('P' as u8),
        feed_spec(feed_spec(feed_spec(fresh_keyboard(), 0x3a).0, 0x36).0, 0x19).1 == Some('p' as u8),
        feed_spec(feed_spec(fresh_keyboard(), 0x3a).0, 0x1e).1 == Some('A' as u8),
        feed_spec(feed_spec(feed_spec(fresh_keyboard(), 0x3a).0, 0x36).0, 0x1e).1 == Some('a' as u8),
        feed_spec(feed_spec(fresh_keyboard(), 0x3a).0, 0x1f).1 == Some('S' as u8),
        feed_spec(feed_spec(feed_spec(fresh_keyboard(), 0x3a).0, 0x36).0, 0x1f).1 == Some('s' as u8),
        feed_spec(feed_spec(fresh_keyboard(), 0x3a).0, 0x20).1 == Some('D' as u8),
        feed_spec(feed_spec(feed_spec(fresh_keyboard(), 0x3a).0, 0x36).0, 0x20).1 == Some('d' as u8),
        feed_spec(feed_spec(fresh_keyboard(), 0x3a).0, 0x21).1 == Some('F' as u8),
        feed_spec(feed_spec(feed_spec(fresh_keyboard(), 0x3a).0, 0x36).0, 0x21).1 == Some('f' as u8),
        feed_spec(feed_spec(fresh_keyboard(), 0x3a).0, 0x22).1 == Some('G' as u8),
        feed_spec(feed_spec(feed_spec(fresh_keyboard(), 0x3a).0, 0x36).0, 0x22).1 == Some('g' as u8),
        feed_spec(feed_spec(fresh_keyboard(), 0x3a).0, 0x23).1 == Some('H' as u8),
        feed_spec(feed_spec(feed_spec(fresh_keyboard(), 0x3a).0, 0x36).0, 0x23).1 == Some('h' as u8),
        feed_spec(feed_spec(fresh_keyboard(), 0x3a).0, 0x24).1 == Some('J' as u8),
        feed_spec(feed_spec(feed_spec(fresh_keyboard(), 0x3a).0, 0x36).0, 0x24).1 == Some('j' as u8),
        feed_spec(feed_spec(fresh_keyboard(), 0x3a).0, 0x25).1 == Some('K' as u8),
        feed_spec(feed_spec(feed_spec(fresh_keyboard(), 0x3a).0, 0x36).0, 0x25).1 == Some('k' as u8),
        feed_spec(feed_spec(fresh_keyboard(), 0x3a).0, 0x26).1 == Some('L' as u8),
        feed_spec(feed_spec(feed_spec(fresh_keyboard(), 0x3a).0, 0x36).0, 0x26).1 == Some('l' as u8),
        feed_spec(feed_spec(fresh_keyboard(), 0x3a).0, 0x2c).1 == Some('Z' as u8),
        feed_spec(feed_spec(feed_spec(fresh_keyboard(), 0x3a).0, 0x36).0, 0x2c).1 == Some('z' as u8),
        feed_spec(feed_spec(fresh_keyboard(), 0x3a).0, 0x2d).1 == Some('X' as u8),
        feed_spec(feed_spec(feed_spec(fresh_keyboard(), 0x3a).0, 0x36).0, 0x2d).1 == Some('x' as u8),
        feed_spec(feed_spec(fresh_keyboard(), 0x3a).0, 0x2e).1 == Some('C' as u8),
        feed_spec(feed_spec(feed_spec(fresh_keyboard(), 0x3a).0, 0x36).0, 0x2e).1 == Some('c' as u8),
        feed_spec(feed_spec(fresh_keyboard(), 0x3a).0, 0x2f).1 == Some('V' as u8),
        feed_spec(feed_spec(feed_spec(fresh_keyboard(), 0x3a).0, 0x36).0, 0x2f).1 == Some('v' as u8),
        feed_spec(feed_spec(fresh_keyboard(), 0x3a).0, 0x30).1 == Some('B' as u8),
        feed_spec(feed_spec(feed_spec(fresh_keyboard(), 0x3a).0, 0x36).0, 0x30).1 == Some('b' as u8),
        feed_spec(feed_spec(fresh_keyboard(), 0x3a).0, 0x31).1 == Some('N' as u8),
        feed_spec(feed_spec(feed_spec(fresh_keyboard(), 0x3a).0, 0x36).0, 0x31).1 == Some('n' as u8),
        feed_spec(feed_spec(fresh_keyboard(), 0x3a).0, 0x32).1 == Some('M' as u8),
        feed_spec(feed_spec(feed_spec(fresh_keyboard(), 0x3a).0, 0x36).0, 0x32).1 == Some('m' as u8),
        feed_spec(feed_spec(fresh_keyboard(), 0x1f).0, 0x1f).1 == None::<u8>,
        feed_spec(feed_spec(feed_spec(fresh_keyboard(), 0x1f).0, 0x9f).0, 0x1f).1 == Some('s' as u8),
        feed_spec(feed_spec(fresh_keyboard(), 0x36).0, 0x1f).1 == Some('S' as u8),
        feed_spec(feed_spec(fresh_keyboard(), 0xe0).0, 0x48).1 == Some(0x84u8),
        feed_spec(feed_spec(fresh_keyboard(), 0xe0).0, 0x50).1 == Some(0x85u8),
        feed_spec(fresh_keyboard(), 0x54).1 == None::<u8>,
        ({
            let p1 = feed_spec(fresh_keyboard(), 0xe1).0;
            let p2 = feed_spec(p1, 0x1d).0;
            let p3 = feed_spec(p2, 0x45).0;
            let p4 = feed_spec(p3, 0xe1).0;
            let p5 = feed_spec(p4, 0x9d).0;
            let p6 = feed_spec(p5, 0xc5).0;
            &&& feed_spec(p1, 0x1d).1 is None && feed_spec(p2, 0x45).1 is None && feed_spec(p3, 0xe1).1 is None
            &&& feed_spec(p4, 0x9d).1 is None && feed_spec(p5, 0xc5).1 is None
            &&& feed_spec(p6, 0x1f).1 == Some('s' as u8)
        }),
{
}

/// A PS/2 set-1 keyboard decoder.
pub struct Keyboard {
    extended: bool,
    skip: u8,
    down: [bool; 256],
    caps: bool,
}

impl View for Keyboard {
    type V = KeyboardView;

    closed spec fn view(&self) -> KeyboardView {
        KeyboardView { extended: self.extended, skip: self.skip, down: self.down@, caps: self.caps }
    }
}

fn base_key_exec(scan: u8) -> (r: Option<u8>)
    ensures
        r == base_key(scan),
{
    let digits: [u8; 10] = [0x31, 0x32, 0x33, 0x34, 0x35, 0x36, 0x37, 0x38, 0x39, 0x30];
    let top: [u8; 10] = [0x71, 0x77, 0x65, 0x72, 0x74, 0x79, 0x75, 0x69, 0x6f, 0x70];
    let home: [u8; 9] = [0x61, 0x73, 0x64, 0x66, 0x67, 0x68, 0x6a, 0x6b, 0x6c];
    let bottom: [u8; 7] = [0x7a, 0x78, 0x63, 0x76, 0x62, 0x6e, 0x6d];
    proof {
        assert(digits@ =~= seq![0x31u8, 0x32, 0x33, 0x34, 0x35, 0x36, 0x37, 0x38, 0x39, 0x30]);
        assert(top@ =~= seq![0x71u8, 0x77, 0x65, 0x72, 0x74, 0x79, 0x75, 0x69, 0x6f, 0x70]);
        assert(home@ =~= seq![0x61u8, 0x73, 0x64, 0x66, 0x67, 0x68, 0x6a, 0x6b, 0x6c]);
        assert(bottom@ =~= seq![0x7au8, 0x78, 0x63, 0x76, 0x62, 0x6e, 0x6d]);
    }
    if scan == 1 {
        Some(27)
    } else if scan == 14 {
        Some(8)
    } else if scan == 28 {
        Some(13)
    } else if scan == 57 {
        Some(0x20)
    } else if scan == 59 {
        Some(0x81)
    } else if scan == 60 {
        Some(0x82)
    } else if scan == 61 {
        Some(0x83)
    } else if 2 <= scan && scan <= 11 {
        Some(digits[(scan - 2) as usize])
    } else if 16 <= scan && scan <= 25 {
        Some(top[(scan - 16) as usize])
    } else if 30 <= scan && scan <= 38 {
        Some(home[(scan - 30) as usize])
    } else if 44 <= scan && scan <= 50 {
        Some(bottom[(scan - 44) as usize])
    } else if scan == 12 {
        Some(0x2d)
    } else if scan == 13 {
        Some(0x3d)
    } else if scan == 26 {
        Some(0x5b)
    } else if scan == 27 {
        Some(0x5d)
    } else if scan == 39 {
        Some(0x3b)
    } else if scan == 40 {
        Some(0x27)
    } else if scan == 41 {
        Some(0x60)
    } else if scan == 43 {
        Some(0x5c)
    } else if scan == 51 {
        Some(0x2c)
    } else if scan == 52 {
        Some(0x2e)
    } else if scan == 53 {
        Some(0x2f)
    } else {
        None
    }
}

fn shifted_exec(b: u8) -> (r: u8)
    ensures
        r == shifted(b),
{
    match b {
        0x31 => 0x21,
        0x32 => 0x40,
        0x33 => 0x23,
        0x34 => 0x24,
        0x35 => 0x25,
        0x36 => 0x5e,
        0x37 => 0x26,
        0x38 => 0x2a,
        0x39 => 0x28,
        0x30 => 0x29,
        0x2d => 0x5f,
        0x3d => 0x2b,
        0x5b => 0x7b,
        0x5d => 0x7d,
        0x3b => 0x3a,
        39 => 34,
        96 => 0x7e,
        92 => 0x7c,
        0x2c => 0x3c,
        0x2e => 0x3e,
        0x2f => 0x3f,
        _ => b,
    }
}

impl Keyboard {
    pub fn new() -> (k: Self)
        ensures
            k@ == (KeyboardView { extended: false, skip: 0, down: Seq::new(256, |i: int| false), caps: false }),
    {
        let k = Keyboard { extended: false, skip: 0, down: [false; 256], caps: false };
        proof {
            assert(k.down@ =~= Seq::new(256, |i: int| false));
        }
        k
    }

    /// Forgets held keys and any pending prefix; caps lock stays.
    pub fn reset(&mut self)
        ensures
            final(self)@ == reset_spec(old(self)@),
    {
        self.extended = false;
        self.skip = 0;
        self.down = [false; 256];
        proof {
            assert(self.down@ =~= Seq::new(256, |i: int| false));
        }
    }

    pub fn feed(&mut self, byte: u8) -> (r: Option<u8>)
        ensures
            final(self)@ == feed_spec(old(self)@, byte).0,
            r == feed_spec(old(self)@, byte).1,
    {
        if self.skip > 0 {
            self.skip = self.skip - 1;
            return None;
        }
        if byte == 0xe1 {
            self.extended = false;
            self.skip = 5;
            return None;
        }
        if byte == 0xe0 {
            self.extended = true;
            return None;
        }
        if byte == 0 || byte == 255 {
            self.reset();
            return None;
        }
        let ext = self.extended;
        self.extended = false;
        let scan = byte & 0x7f;
        proof {
            assert(byte & 0x7f == byte % 128) by (bit_vector);
            assert(byte & 0x80 != 0 <==> byte >= 128) by (bit_vector);
        }
        let index = scan as usize + if ext { 128 } else { 0 };
        if byte & 0x80 != 0 {
            self.down[index] = false;
            return None;
        }
        if self.down[index] {
            return None;
        }
        self.down[index] = true;
        if ext {
            return if scan == 0x48 {
                Some(0x84)
            } else if scan == 0x50 {
                Some(0x85)
            } else {
                None
            };
        }
        if scan == 0x3a {
            self.caps = !self.caps;
            return None;
        }
        let shift = self.down[0x2a] || self.down[0x36];
        let b = match base_key_exec(scan) {
            None => {
                return None;
            },
            Some(b) => b,
        };
        if 0x61 <= b && b <= 0x7a {
            return Some(if shift != self.caps { b - 32 } else { b });
        }
        if shift {
            return Some(shifted_exec(b));
        }
        Some(b)
    }
}

} // verus!
