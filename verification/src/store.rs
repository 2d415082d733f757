//! Durable file service over a vault: the Terminal and Files request bytes,
//! plus one private document for a granted application. A mutation is
//! acknowledged only after the vault's durable publication.
use vstd::prelude::*;
use crate::vault::{self, Block, Entry, Snapshot, Vault, VaultView, vault_wf, put_spec, snapshot_valid, all_zero};
use crate::documents::{self, Grant, GrantView, Owner, lookup, install_spec, shared_spec, inspect_spec, shared_name, read_spec, write_spec};
use crate::platform_store::{CREATE, WRITE, READ, LIST, OK, INVALID, NOT_FOUND, EXISTS, QUOTA};
use crate::alpha_wire::Message;
use crate::alpha_protocol::{self, Document};
use crate::network::same_bytes;

verus! {

/// Why a request could not be served: the vault is full, unavailable after
/// a failed publication, or a publication may or may not have committed.
#[derive(Clone, Copy, Debug, PartialEq, Eq, Structural)]
pub enum Failure {
    ReadOnly,
    Unavailable,
    Indeterminate,
}

/// A file name the file service accepts.
pub open spec fn store_name_ok(name: Seq<u8>) -> bool {
    shared_name(name) && name.len() <= 12
}

pub fn name_ok(name: &[u8]) -> (r: bool)
    ensures
        r == store_name_ok(name@),
{
    name.len() <= 12 && documents::is_shared_name(name)
}

/// A canonical request: 128 bytes, a known operation, bounded name and data
/// lengths, zero padding, data only for a write, and a valid name (none for
/// a listing); its operation, name and data.
pub open spec fn decode_spec(r: Seq<u8>) -> Option<(u8, Seq<u8>, Seq<u8>)> {
    if r.len() != 128 {
        None
    } else {
        let op = r[0];
        let names = r[1] as int;
        let data = r[2] as int;
        if !(op == CREATE || op == WRITE || op == READ || op == LIST) || names > 12 || data > 64 || r[3] != 0
            || !all_zero(r.subrange(4 + names, 16)) || !all_zero(r.subrange(16 + data, 128)) || (op != WRITE && data
            != 0) {
            None
        } else {
            let name = r.subrange(4, 4 + names);
            if (op == LIST && names != 0) || (op != LIST && !store_name_ok(name)) {
                None
            } else {
                Some((op, name, r.subrange(16, 16 + data)))
            }
        }
    }
}

fn all_zero_at(r: &[u8], from: usize, to: usize) -> (b: bool)
    requires
        from <= to <= r@.len(),
    ensures
        b == all_zero(r@.subrange(from as int, to as int)),
{
    let mut i = from;
    while i < to
        invariant
            from <= i <= to <= r@.len(),
            forall|k: int| from <= k < i ==> r@[k] == 0,
        decreases to - i,
    {
        if r[i] != 0 {
            proof {
                assert(r@.subrange(from as int, to as int)[i - from] != 0);
            }
            return false;
        }
        i = i + 1;
    }
    proof {
        assert forall|k: int| 0 <= k < to - from implies #[trigger] r@.subrange(from as int, to as int)[k] == 0 by {
            assert(r@[from + k] == 0);
        }
    }
    true
}

pub fn decode(request: &[u8]) -> (r: Option<(u8, &[u8], &[u8])>)
    ensures
        match decode_spec(request@) {
            None => r is None,
            Some((op, name, data)) => r matches Some(x) && x.0 == op && x.1@ == name && x.2@ == data,
        },
{
    if request.len() != 128 {
        return None;
    }
    let op = request[0];
    let names = request[1] as usize;
    let data = request[2] as usize;
    if !(op == CREATE || op == WRITE || op == READ || op == LIST) || names > 12 || data > 64 || request[3] != 0
        || !all_zero_at(request, 4 + names, 16) || !all_zero_at(request, 16 + data, 128) || (op != WRITE && data
        != 0) {
        return None;
    }
    let name = &request[4..4 + names];
    if (op == LIST && names != 0) || (op != LIST && !name_ok(name)) {
        return None;
    }
    Some((op, name, &request[16..16 + data]))
}

/// A reply that carries only a status byte.
pub open spec fn status_bytes(value: u8) -> Seq<u8> {
    seq![value] + vault::zero_bytes(127)
}

fn status(value: u8) -> (r: [u8; 128])
    ensures
        r@ == status_bytes(value),
{
    let mut out = [0u8; 128];
    out[0] = value;
    proof {
        assert(out@ =~= status_bytes(value));
    }
    out
}

/// The reply to a read: status, zero, the data's length, zeros, the data at
/// byte 16, zeros.
pub open spec fn read_reply(value: Seq<u8>) -> Seq<u8> {
    seq![OK, 0u8, value.len() as u8] + vault::zero_bytes(13) + value + vault::zero_bytes(112 - value.len())
}

/// The names of a listing, each after its length.
pub open spec fn name_list(v: Seq<Entry>) -> Seq<u8>
    decreases v.len(),
{
    if v.len() == 0 {
        Seq::empty()
    } else {
        name_list(v.drop_last()) + seq![v.last().0.len() as u8] + v.last().0
    }
}

/// The reply to a listing: status, the count, zeros, then the names from
/// byte 4, zeros.
pub open spec fn list_reply(v: Seq<Entry>) -> Seq<u8> {
    seq![OK, v.len() as u8, 0u8, 0u8] + name_list(v) + vault::zero_bytes(124 - name_list(v).len())
}

pub struct StoreView {
    pub vault: VaultView,
    pub unavailable: bool,
    pub files_generation: u64,
    pub terminal_generation: u64,
    pub private: Option<GrantView>,
    pub app_sequence: u32,
    pub private_owner: Option<Seq<u8>>,
    pub private_principal: u32,
    pub private_highest: u64,
}

/// The durable store, mounted over one vault.
pub struct Store<B: Block> {
    vault: Vault<B>,
    unavailable: bool,
    files_generation: u64,
    terminal_generation: u64,
    private: Option<Grant>,
    app_sequence: u32,
    private_owner: Option<Owner>,
    private_principal: u32,
    private_highest: u64,
}

pub open spec fn grant_view(g: Option<Grant>) -> Option<GrantView> {
    match g {
        Some(x) => Some(x@),
        None => None,
    }
}

pub open spec fn owner_view(o: Option<Owner>) -> Option<Seq<u8>> {
    match o {
        Some(x) => Some(x@),
        None => None,
    }
}

impl<B: Block> View for Store<B> {
    type V = StoreView;

    closed spec fn view(&self) -> StoreView {
        StoreView {
            vault: self.vault@,
            unavailable: self.unavailable,
            files_generation: self.files_generation,
            terminal_generation: self.terminal_generation,
            private: grant_view(self.private),
            app_sequence: self.app_sequence,
            private_owner: owner_view(self.private_owner),
            private_principal: self.private_principal,
            private_highest: self.private_highest,
        }
    }
}

/// Whether every name in the snapshot is one the file service accepts.
pub open spec fn names_ok(v: Seq<Entry>) -> bool {
    forall|i: int| 0 <= i < v.len() ==> store_name_ok(#[trigger] v[i].0)
}

fn all_names_ok(s: &Snapshot) -> (r: bool)
    ensures
        r == names_ok(s@),
        snapshot_valid(s@),
{
    let entries = s.entries();
    let mut i: usize = 0;
    while i < entries.len()
        invariant
            i <= entries@.len() == s@.len(),
            snapshot_valid(s@),
            forall|k: int| 0 <= k < entries@.len() ==> (#[trigger] entries@[k]).0@ == s@[k].0,
            forall|k: int| 0 <= k < i ==> store_name_ok(#[trigger] s@[k].0),
        decreases entries@.len() - i,
    {
        if !name_ok(entries[i].0) {
            return false;
        }
        i = i + 1;
    }
    true
}

/// The files the shared file service sees: with a live private grant, or
/// when private records are present, only the shared projection.
pub open spec fn visible_spec(s: StoreView) -> Result<Seq<Entry>, Failure> {
    let snapshot = s.vault.snapshot;
    if s.private is Some || !names_ok(snapshot) {
        match shared_spec(snapshot) {
            Ok(v) => Ok(v),
            Err(_) => Err(Failure::Unavailable),
        }
    } else {
        Ok(snapshot)
    }
}

/// What a request to the file service calls for before any I/O.
pub enum Step {
    /// Answer with these bytes, changing nothing.
    Reply(Seq<u8>),
    /// Refuse, changing nothing.
    Refuse(Failure),
    /// Publish this snapshot, then answer by its outcome.
    Publish(Seq<Entry>),
}

/// The file service: only the Files (4) and Terminal (6) senders of the
/// installed incarnations; a canonical request; reads and listings of the
/// visible files; creates and writes checked for existence, quota and the
/// private reservation before anything is published.
pub open spec fn process_spec(s: StoreView, sender: u64, generation: u64, request: Seq<u8>) -> Step {
    let authorized = (sender == 4 && generation == s.files_generation) || (sender == 6 && generation
        == s.terminal_generation);
    if !authorized {
        Step::Reply(status_bytes(INVALID))
    } else {
        match decode_spec(request) {
            None => Step::Reply(status_bytes(INVALID)),
            Some((op, name, value)) => if s.unavailable {
                Step::Refuse(Failure::Unavailable)
            } else {
                match visible_spec(s) {
                    Err(f) => Step::Refuse(f),
                    Ok(visible) => {
                        let snapshot = s.vault.snapshot;
                        if op == READ {
                            match lookup(visible, name) {
                                None => Step::Reply(status_bytes(NOT_FOUND)),
                                Some(v) => Step::Reply(read_reply(v)),
                            }
                        } else if op == LIST {
                            Step::Reply(list_reply(visible))
                        } else {
                            let exists = lookup(snapshot, name) is Some;
                            if op == CREATE && exists {
                                Step::Reply(status_bytes(EXISTS))
                            } else if op == WRITE && !exists {
                                Step::Reply(status_bytes(NOT_FOUND))
                            } else if op == WRITE && lookup(snapshot, name) == Some(value) {
                                Step::Reply(status_bytes(OK))
                            } else if s.vault.readonly {
                                Step::Refuse(Failure::ReadOnly)
                            } else {
                                match put_spec(snapshot, name, value) {
                                    Err(_) => Step::Reply(status_bytes(QUOTA)),
                                    Ok(c) => if (s.private_owner is Some && install_spec(c, s.private_owner->Some_0) is Err) || (
                                    !names_ok(snapshot) && shared_spec(c) is Err) {
                                        Step::Reply(status_bytes(QUOTA))
                                    } else {
                                        Step::Publish(c)
                                    },
                                }
                            }
                        }
                    },
                }
            },
        }
    }
}

/// What a publication leaves: on success the new snapshot and revision; on
/// any failure the store is unavailable and nothing cached changes.
pub open spec fn published(old: StoreView, new: StoreView, candidate: Seq<Entry>, r: Result<(), Failure>) -> bool {
    &&& new.files_generation == old.files_generation
    &&& new.terminal_generation == old.terminal_generation
    &&& new.private == old.private
    &&& new.app_sequence == old.app_sequence
    &&& new.private_owner == old.private_owner
    &&& new.private_principal == old.private_principal
    &&& new.private_highest == old.private_highest
    &&& new.vault.descriptor == old.vault.descriptor
    &&& match r {
        Ok(()) => {
            &&& !new.unavailable
            &&& new.vault.snapshot == candidate
            &&& new.vault.revision == old.vault.revision + 1
        },
        Err(f) => {
            &&& new.vault.readonly
            &&& new.vault.snapshot == old.vault.snapshot
            &&& new.vault.revision == old.vault.revision
            &&& if f == Failure::ReadOnly {
                new.unavailable == old.unavailable
            } else {
                new.unavailable && (f == Failure::Unavailable || f == Failure::Indeterminate)
            }
        },
    }
}

/// A private publication: refused while unavailable or read-only,
/// otherwise published.
pub open spec fn publish_done(old: StoreView, new: StoreView, candidate: Seq<Entry>, r: Result<(), Failure>) -> bool {
    if old.unavailable {
        r == Err::<(), Failure>(Failure::Unavailable) && new == old
    } else if old.vault.readonly {
        r == Err::<(), Failure>(Failure::ReadOnly) && new == old
    } else {
        published(old, new, candidate, r)
    }
}

/// A private change: a candidate equal to the current snapshot needs no
/// publication.
pub open spec fn change_done(old: StoreView, new: StoreView, candidate: Seq<Entry>, r: Result<(), Failure>) -> bool {
    if candidate == old.vault.snapshot {
        r is Ok && new == old
    } else {
        publish_done(old, new, candidate, r)
    }
}

/// Writing the private document on behalf of a stamped caller.
pub open spec fn write_private_done(old: StoreView, new: StoreView, principal: u32, incarnation: u64, value: Seq<u8>, r: Result<(), Failure>) -> bool {
    if old.unavailable || old.private is None {
        r == Err::<(), Failure>(Failure::Unavailable) && new == old
    } else {
        match write_spec(old.vault.snapshot, old.private->Some_0, principal, incarnation, value) {
            Err(_) => r == Err::<(), Failure>(Failure::Unavailable) && new == old,
            Ok(c) => change_done(old, new, c, r),
        }
    }
}

/// Reading the private document on behalf of a stamped caller.
pub open spec fn read_private_spec(s: StoreView, principal: u32, incarnation: u64) -> Result<Seq<u8>, Failure> {
    if s.unavailable || s.private is None {
        Err(Failure::Unavailable)
    } else {
        match read_spec(s.vault.snapshot, s.private->Some_0, principal, incarnation) {
            Err(_) => Err(Failure::Unavailable),
            Ok(d) => Ok(d),
        }
    }
}

/// The protocol status a private result is reported as.
pub open spec fn app_status(r: Result<(), Failure>) -> u8 {
    match r {
        Ok(()) => alpha_protocol::OK,
        Err(Failure::ReadOnly) => alpha_protocol::READ_ONLY,
        Err(Failure::Unavailable) => alpha_protocol::UNAVAILABLE,
        Err(Failure::Indeterminate) => alpha_protocol::INDETERMINATE,
    }
}

/// The message an application frame carries, if it is a canonical one.
pub open spec fn app_message(b: Seq<u8>) -> Option<crate::alpha_wire::MessageView> {
    if crate::alpha_wire::message_framed(b) && crate::alpha_wire::message_fields_ok(
        b[5],
        b[6],
        crate::le::le32(b, 8) as u32,
        crate::le::le16(b, 12) as nat,
    ) {
        Some(
            crate::alpha_wire::MessageView {
                operation: b[5],
                status: b[6],
                sequence: crate::le::le32(b, 8) as u32,
                payload: b.subrange(16, 16 + crate::le::le16(b, 12)),
            },
        )
    } else {
        None
    }
}

/// Whether a message is a document request: status OK, a read with no
/// payload or a write of at most 64 bytes.
pub open spec fn document_request(m: crate::alpha_wire::MessageView) -> bool {
    m.status == alpha_protocol::OK && ((m.operation == crate::alpha_wire::READ_DOCUMENT && m.payload.len() == 0) || (
    m.operation == crate::alpha_wire::WRITE_DOCUMENT && m.payload.len() <= 64))
}

/// The application request the store accepts: from the live grant's exact
/// stamped identity, a document request, with a sequence number above the
/// last one consumed.
pub open spec fn app_accepted(s: StoreView, sender: u64, incarnation: u64, request: Seq<u8>) -> Option<crate::alpha_wire::MessageView> {
    if sender > u32::MAX || s.private is None || !(sender == s.private->Some_0.principal && incarnation
        == s.private->Some_0.incarnation) {
        None
    } else {
        match app_message(request) {
            None => None,
            Some(m) => if document_request(m) && m.sequence > s.app_sequence {
                Some(m)
            } else {
                None
            },
        }
    }
}

pub open spec fn store_wf(s: StoreView) -> bool {
    &&& vault_wf(s.vault)
    &&& s.files_generation != 0
    &&& s.terminal_generation != 0
}

/// The read reply bytes for `value`.
fn read_reply_bytes(value: &[u8]) -> (r: [u8; 128])
    requires
        value@.len() <= 64,
    ensures
        r@ == read_reply(value@),
{
    let mut out = [0u8; 128];
    out[0] = OK;
    out[2] = value.len() as u8;
    let mut i: usize = 0;
    while i < value.len()
        invariant
            i <= value@.len() <= 64,
            out@.len() == 128,
            out@[0] == OK && out@[1] == 0 && out@[2] == value@.len() as u8,
            forall|k: int| 3 <= k < 16 ==> out@[k] == 0,
            forall|k: int| 0 <= k < i ==> out@[16 + k] == value@[k],
            forall|k: int| 16 + i <= k < 128 ==> out@[k] == 0,
        decreases value@.len() - i,
    {
        out[16 + i] = value[i];
        i = i + 1;
    }
    proof {
        assert(out@ =~= read_reply(value@));
    }
    out
}

/// The listing reply bytes for a snapshot.
fn list_reply_bytes(v: &Snapshot) -> (r: [u8; 128])
    ensures
        r@ == list_reply(v@),
{
    let entries = v.entries();
    let ghost w = v@;
    let mut out = [0u8; 128];
    out[0] = OK;
    out[1] = entries.len() as u8;
    let mut at: usize = 4;
    let mut i: usize = 0;
    proof {
        assert(w.take(0) =~= Seq::<Entry>::empty());
        assert(out@ =~= seq![OK, w.len() as u8, 0u8, 0u8] + name_list(w.take(0)) + vault::zero_bytes(124));
    }
    while i < entries.len()
        invariant
            i <= entries@.len() == w.len() <= 4,
            snapshot_valid(w),
            forall|k: int| 0 <= k < w.len() ==> (#[trigger] entries@[k]).0@ == w[k].0,
            at == 4 + name_list(w.take(i as int)).len(),
            name_list(w.take(i as int)).len() <= 13 * i,
            out@ == seq![OK, w.len() as u8, 0u8, 0u8] + name_list(w.take(i as int)) + vault::zero_bytes(
                124 - name_list(w.take(i as int)).len(),
            ),
        decreases entries@.len() - i,
    {
        let name = entries[i].0;
        proof {
            assert(vault::name_valid(w[i as int].0));
            assert(w.take(i + 1).drop_last() =~= w.take(i as int));
        }
        let ghost before = out@;
        out[at] = name.len() as u8;
        let mut j: usize = 0;
        while j < name.len()
            invariant
                j <= name@.len() <= 12,
                at + 1 + 12 <= 128,
                out@.len() == 128,
                forall|k: int| 0 <= k < at ==> out@[k] == before[k],
                out@[at as int] == name@.len() as u8,
                forall|k: int| 0 <= k < j ==> out@[at + 1 + k] == name@[k],
                forall|k: int| at + 1 + j <= k < 128 ==> out@[k] == before[k],
            decreases name@.len() - j,
        {
            out[at + 1 + j] = name[j];
            j = j + 1;
        }
        proof {
            let n = name_list(w.take(i + 1));
            let p = name_list(w.take(i as int));
            assert(n == p + seq![w[i as int].0.len() as u8] + w[i as int].0);
            let head = seq![OK, w.len() as u8, 0u8, 0u8];
            let target = head + n + vault::zero_bytes(124 - n.len());
            assert(name@ == w[i as int].0);
            assert forall|k: int| 0 <= k < 128 implies out@[k] == target[k] by {
                if k < at {
                    assert(out@[k] == before[k]);
                    if k < 4 {
                    } else {
                        assert(before[k] == p[k - 4]);
                        assert(target[k] == n[k - 4]);
                    }
                } else if k == at {
                    assert(target[k] == n[p.len() as int]);
                } else if k < at + 1 + name@.len() {
                    assert(target[k] == n[k - 4]);
                } else {
                    assert(out@[k] == before[k]);
                }
            }
            assert(out@ =~= target);
        }
        at = at + 1 + name.len();
        i = i + 1;
    }
    proof {
        assert(w.take(i as int) =~= w);
    }
    out
}

impl<B: Block> Store<B> {
    /// The vault's current snapshot.
    pub fn snapshot(&self) -> (r: &Snapshot)
        ensures
            r@ == self@.vault.snapshot,
            snapshot_valid(r@),
    {
        self.vault.snapshot()
    }

    pub fn revision(&self) -> (r: u64)
        ensures
            r == self@.vault.revision,
    {
        self.vault.revision()
    }

    /// The last application sequence number consumed.
    pub fn app_sequence(&self) -> (r: u32)
        ensures
            r == self@.app_sequence,
    {
        self.app_sequence
    }

    /// The live private grant, if any.
    pub fn private_grant(&self) -> (r: Option<Grant>)
        ensures
            grant_view(r) == self@.private,
    {
        self.private
    }

    /// The highest private incarnation ever bound.
    pub fn private_highest(&self) -> (r: u64)
        ensures
            r == self@.private_highest,
    {
        self.private_highest
    }

    /// The block device the store is mounted over.
    pub closed spec fn device(&self) -> B {
        self.vault.device()
    }

    /// Gives the block device back.
    pub fn into_block(self) -> (r: B)
        ensures
            r == self.device(),
    {
        self.vault.into_block()
    }

    /// Mounts only: no file is created, nothing is formatted or written.
    /// Incarnations are the trusted bootstrap grants of Files and Terminal.
    pub fn mount(block: B, capacity: u32, files_generation: u64, terminal_generation: u64) -> (r: Result<Self, vault::Error>)
        ensures
            (files_generation == 0 || terminal_generation == 0) ==> r == Err::<Self, vault::Error>(vault::Error::Invalid),
            r matches Ok(s) ==> {
                &&& store_wf(s@)
                &&& names_ok(s@.vault.snapshot)
                &&& s@.vault.readonly == (s@.vault.next == s@.vault.descriptor.slots)
                &&& !s@.unavailable
                &&& s@.files_generation == files_generation
                &&& s@.terminal_generation == terminal_generation
                &&& s@.private is None
                &&& s@.app_sequence == 0
                &&& s@.private_owner is None
                &&& s@.private_principal == 0
                &&& s@.private_highest == 0
            },
    {
        if files_generation == 0 || terminal_generation == 0 {
            return Err(vault::Error::Invalid);
        }
        let vault = Vault::mount(block, capacity)?;
        if !all_names_ok(vault.snapshot()) {
            return Err(vault::Error::Invalid);
        }
        Ok(Store {
            vault,
            unavailable: false,
            files_generation,
            terminal_generation,
            private: None,
            app_sequence: 0,
            private_owner: None,
            private_principal: 0,
            private_highest: 0,
        })
    }

    /// Mounts with a private grant from the trusted installer: the snapshot
    /// must be unowned or owned by the grant's owner, and the whole future
    /// installation must fit; nothing is installed on mount.
    pub fn mount_private(block: B, capacity: u32, files_generation: u64, terminal_generation: u64, grant: Grant) -> (r: Result<Self, vault::Error>)
        ensures
            (files_generation == 0 || terminal_generation == 0) ==> r == Err::<Self, vault::Error>(vault::Error::Invalid),
            r matches Ok(s) ==> {
                &&& store_wf(s@)
                &&& s@.vault.readonly == (s@.vault.next == s@.vault.descriptor.slots)
                &&& match inspect_spec(s@.vault.snapshot) {
                    Ok(None) => true,
                    Ok(Some(o)) => o == grant@.owner,
                    Err(_) => false,
                }
                &&& install_spec(s@.vault.snapshot, grant@.owner) is Ok
                &&& !s@.unavailable
                &&& s@.files_generation == files_generation
                &&& s@.terminal_generation == terminal_generation
                &&& s@.private == Some(grant@)
                &&& s@.app_sequence == 0
                &&& s@.private_owner == Some(grant@.owner)
                &&& s@.private_principal == grant@.principal
                &&& s@.private_highest == grant@.incarnation
            },
    {
        if files_generation == 0 || terminal_generation == 0 {
            return Err(vault::Error::Invalid);
        }
        let vault = Vault::mount(block, capacity)?;
        if grant.validate_binding(vault.snapshot()).is_err() {
            return Err(vault::Error::Invalid);
        }
        if grant.installation(vault.snapshot()).is_err() {
            return Err(vault::Error::Bounds);
        }
        let owner = grant.owner();
        let principal = grant.principal();
        let highest = grant.incarnation();
        Ok(Store {
            vault,
            unavailable: false,
            files_generation,
            terminal_generation,
            private: Some(grant),
            app_sequence: 0,
            private_owner: Some(owner),
            private_principal: principal,
            private_highest: highest,
        })
    }

    /// Mounts for applications before any is bound: the owner is the fixed
    /// verified package identity; no grant is live and nothing is installed.
    pub fn mount_applications(block: B, capacity: u32, files_generation: u64, terminal_generation: u64, owner: Owner) -> (r: Result<Self, vault::Error>)
        ensures
            (files_generation == 0 || terminal_generation == 0) ==> r == Err::<Self, vault::Error>(vault::Error::Invalid),
            r matches Ok(s) ==> {
                &&& store_wf(s@)
                &&& s@.vault.readonly == (s@.vault.next == s@.vault.descriptor.slots)
                &&& install_spec(s@.vault.snapshot, owner@) is Ok
                &&& !s@.unavailable
                &&& s@.files_generation == files_generation
                &&& s@.terminal_generation == terminal_generation
                &&& s@.private is None
                &&& s@.app_sequence == 0
                &&& s@.private_owner == Some(owner@)
                &&& s@.private_principal == 10
                &&& s@.private_highest == 0
            },
    {
        if files_generation == 0 || terminal_generation == 0 {
            return Err(vault::Error::Invalid);
        }
        let vault = Vault::mount(block, capacity)?;
        if owner.validate_binding(vault.snapshot()).is_err() {
            return Err(vault::Error::Invalid);
        }
        if documents::install(vault.snapshot(), owner).is_err() {
            return Err(vault::Error::Bounds);
        }
        Ok(Store {
            vault,
            unavailable: false,
            files_generation,
            terminal_generation,
            private: None,
            app_sequence: 0,
            private_owner: Some(owner),
            private_principal: 10,
            private_highest: 0,
        })
    }

    /// Binds a new grant after the old one was revoked: the same owner and
    /// principal and a strictly newer incarnation, checked before any change.
    pub fn rebind_private(&mut self, grant: Grant) -> (r: Result<(), Failure>)
        requires
            store_wf(old(self)@),
        ensures
            store_wf(final(self)@),
            ({
                let s = old(self)@;
                let ok = !s.unavailable && s.private is None && s.private_owner == Some(grant@.owner)
                    && s.private_principal == grant@.principal && grant@.incarnation > s.private_highest
                    && match inspect_spec(s.vault.snapshot) {
                    Ok(None) => true,
                    Ok(Some(o)) => o == grant@.owner,
                    Err(_) => false,
                } && install_spec(s.vault.snapshot, grant@.owner) is Ok;
                if ok {
                    r is Ok && final(self)@ == (StoreView {
                        private: Some(grant@),
                        private_highest: grant@.incarnation,
                        app_sequence: 0,
                        ..s
                    })
                } else {
                    r == Err::<(), Failure>(Failure::Unavailable) && final(self)@ == s
                }
            }),
    {
        let same_owner = match self.private_owner {
            Some(o) => o.same(&grant.owner()),
            None => false,
        };
        if self.unavailable || self.private.is_some() || !same_owner || self.private_principal != grant.principal()
            || grant.incarnation() <= self.private_highest {
            return Err(Failure::Unavailable);
        }
        if grant.validate_binding(self.vault.snapshot()).is_err() {
            return Err(Failure::Unavailable);
        }
        if grant.installation(self.vault.snapshot()).is_err() {
            return Err(Failure::Unavailable);
        }
        self.private = Some(grant);
        self.private_highest = grant.incarnation();
        self.app_sequence = 0;
        Ok(())
    }

    /// Whether a reply retained with its envelope identity is still for the
    /// live grant.
    pub fn app_reply_current(&self, principal: u64, incarnation: u64) -> (r: bool)
        ensures
            r == (principal <= u32::MAX && self@.private is Some && self@.private->Some_0.principal == principal
                && self@.private->Some_0.incarnation == incarnation),
    {
        if principal > 0xffff_ffff {
            return false;
        }
        match self.private {
            Some(g) => g.allows(principal as u32, incarnation),
            None => false,
        }
    }

    pub fn revoke_private(&mut self)
        ensures
            final(self)@ == (StoreView { private: None, ..old(self)@ }),
    {
        self.private = None;
    }

    /// Whether the kernel-stamped sender is Files or Terminal at its
    /// installed incarnation.
    pub(crate) fn authorized(&self, sender: u64, generation: u64) -> (r: bool)
        ensures
            r == ((sender == 4 && generation == self@.files_generation) || (sender == 6 && generation
                == self@.terminal_generation)),
    {
        if sender == 4 {
            generation == self.files_generation
        } else if sender == 6 {
            generation == self.terminal_generation
        } else {
            false
        }
    }

    fn publish_private(&mut self, candidate: Snapshot) -> (r: Result<(), Failure>)
        requires
            store_wf(old(self)@),
        ensures
            store_wf(final(self)@),
            publish_done(old(self)@, final(self)@, candidate@, r),
    {
        if self.unavailable {
            return Err(Failure::Unavailable);
        }
        if self.vault.is_readonly() {
            return Err(Failure::ReadOnly);
        }
        self.publish_checked(candidate)
    }

    /// Publishes through the vault; any failure but a refusal leaves the
    /// store unavailable, since the publication may have taken effect.
    fn publish_checked(&mut self, candidate: Snapshot) -> (r: Result<(), Failure>)
        requires
            store_wf(old(self)@),
            !old(self)@.unavailable,
            !old(self)@.vault.readonly,
        ensures
            store_wf(final(self)@),
            published(old(self)@, final(self)@, candidate@, r),
    {
        match self.vault.publish(candidate) {
            Ok(_) => Ok(()),
            Err(vault::Error::ReadOnly) => Err(Failure::ReadOnly),
            Err(e) => {
                self.unavailable = true;
                if e == vault::Error::Indeterminate {
                    Err(Failure::Indeterminate)
                } else {
                    Err(Failure::Unavailable)
                }
            },
        }
    }

    fn change(&mut self, candidate: Snapshot) -> (r: Result<(), Failure>)
        requires
            store_wf(old(self)@),
        ensures
            store_wf(final(self)@),
            change_done(old(self)@, final(self)@, candidate@, r),
    {
        if candidate.same_files(self.vault.snapshot()) {
            return Ok(());
        }
        self.publish_private(candidate)
    }

    /// Installs the live grant's owner records, once.
    pub fn install_private(&mut self) -> (r: Result<(), Failure>)
        requires
            store_wf(old(self)@),
        ensures
            store_wf(final(self)@),
            ({
                let s = old(self)@;
                if s.private is None || s.unavailable {
                    r == Err::<(), Failure>(Failure::Unavailable) && final(self)@ == s
                } else {
                    match install_spec(s.vault.snapshot, s.private->Some_0.owner) {
                        Err(_) => r == Err::<(), Failure>(Failure::Unavailable) && final(self)@ == s,
                        Ok(c) => change_done(s, final(self)@, c, r),
                    }
                }
            }),
    {
        let grant = match self.private {
            Some(g) => g,
            None => {
                return Err(Failure::Unavailable);
            },
        };
        if self.unavailable {
            return Err(Failure::Unavailable);
        }
        let candidate = match grant.installation(self.vault.snapshot()) {
            Ok(c) => c,
            Err(_) => {
                return Err(Failure::Unavailable);
            },
        };
        self.change(candidate)
    }

    pub fn read_private(&self, principal: u32, incarnation: u64) -> (r: Result<&[u8], Failure>)
        ensures
            match read_private_spec(self@, principal, incarnation) {
                Ok(d) => r matches Ok(x) && x@ == d,
                Err(f) => r matches Err(x) && x == f,
            },
    {
        if self.unavailable {
            return Err(Failure::Unavailable);
        }
        let grant = match self.private {
            Some(g) => g,
            None => {
                return Err(Failure::Unavailable);
            },
        };
        match documents::read(self.vault.snapshot(), grant, principal, incarnation) {
            Ok(d) => Ok(d),
            Err(_) => Err(Failure::Unavailable),
        }
    }

    pub fn write_private(&mut self, principal: u32, incarnation: u64, value: &[u8]) -> (r: Result<(), Failure>)
        requires
            store_wf(old(self)@),
        ensures
            store_wf(final(self)@),
            write_private_done(old(self)@, final(self)@, principal, incarnation, value@, r),
    {
        if self.unavailable {
            return Err(Failure::Unavailable);
        }
        let grant = match self.private {
            Some(g) => g,
            None => {
                return Err(Failure::Unavailable);
            },
        };
        let candidate = match documents::write(self.vault.snapshot(), grant, principal, incarnation, value) {
            Ok(c) => c,
            Err(_) => {
                return Err(Failure::Unavailable);
            },
        };
        self.change(candidate)
    }
}

impl<B: Block> Store<B> {
    fn visible(&self) -> (r: Result<Snapshot, Failure>)
        ensures
            match visible_spec(self@) {
                Ok(v) => r matches Ok(x) && x@ == v,
                Err(f) => r matches Err(x) && x == f,
            },
    {
        let snapshot = self.vault.snapshot();
        if self.private.is_some() || !all_names_ok(snapshot) {
            match documents::shared(snapshot) {
                Ok(v) => Ok(v),
                Err(_) => Err(Failure::Unavailable),
            }
        } else {
            Ok(*snapshot)
        }
    }

    /// Serves one Files or Terminal request. Sender and generation come from
    /// the kernel's receive envelope, never from request bytes. A mutation
    /// is acknowledged only after the vault's durable publication; a failed
    /// publication leaves the store unavailable, since it may have taken
    /// effect, and nothing is retried.
    pub fn process(&mut self, sender: u64, generation: u64, request: &[u8]) -> (r: Result<[u8; 128], Failure>)
        requires
            store_wf(old(self)@),
        ensures
            store_wf(final(self)@),
            match process_spec(old(self)@, sender, generation, request@) {
                Step::Reply(b) => r matches Ok(x) && x@ == b && final(self)@ == old(self)@,
                Step::Refuse(f) => r == Err::<[u8; 128], Failure>(f) && final(self)@ == old(self)@,
                Step::Publish(c) => published(
                    old(self)@,
                    final(self)@,
                    c,
                    match r {
                        Ok(_) => Ok(()),
                        Err(f) => Err(f),
                    },
                ) && (r matches Ok(x) ==> x@ == status_bytes(OK)),
            },
    {
        if !self.authorized(sender, generation) {
            return Ok(status(INVALID));
        }
        let (op, name, value) = match decode(request) {
            None => {
                return Ok(status(INVALID));
            },
            Some(v) => v,
        };
        if self.unavailable {
            return Err(Failure::Unavailable);
        }
        let visible = match self.visible() {
            Ok(v) => v,
            Err(f) => {
                return Err(f);
            },
        };
        let snapshot = *self.vault.snapshot();
        if op == READ {
            return match documents::find(&visible, name) {
                None => Ok(status(NOT_FOUND)),
                Some(v) => {
                    proof {
                        documents::lemma_lookup_bounded(visible@, name@);
                    }
                    Ok(read_reply_bytes(v))
                },
            };
        }
        if op == LIST {
            return Ok(list_reply_bytes(&visible));
        }
        let current = documents::find(&snapshot, name);
        let exists = current.is_some();
        if op == CREATE && exists {
            return Ok(status(EXISTS));
        }
        if op == WRITE && !exists {
            return Ok(status(NOT_FOUND));
        }
        if op == WRITE {
            if let Some(v) = current {
                if same_bytes(v, value) {
                    return Ok(status(OK));
                }
            }
        }
        if self.vault.is_readonly() {
            return Err(Failure::ReadOnly);
        }
        let mut candidate = snapshot;
        if candidate.put(name, value).is_err() {
            return Ok(status(QUOTA));
        }
        let owner_refuses = match self.private_owner {
            Some(o) => documents::install(&candidate, o).is_err(),
            None => false,
        };
        if owner_refuses || (!all_names_ok(&snapshot) && documents::shared(&candidate).is_err()) {
            return Ok(status(QUOTA));
        }
        match self.publish_checked(candidate) {
            Ok(()) => Ok(status(OK)),
            Err(f) => Err(f),
        }
    }

    /// Serves one application document request. The runtime supplies the
    /// kernel sender and incarnation and routes the reply by its own fixed
    /// grant. A sequence number is consumed before any I/O, so a replay can
    /// never repeat a write that may have committed.
    pub fn process_app(&mut self, sender: u64, incarnation: u64, request: &[u8]) -> (r: Option<[u8; 128]>)
        requires
            store_wf(old(self)@),
        ensures
            store_wf(final(self)@),
            app_accepted(old(self)@, sender, incarnation, request@) matches Some(m) ==> final(self)@.app_sequence
                == m.sequence,
            match app_accepted(old(self)@, sender, incarnation, request@) {
                None => r is None && final(self)@ == old(self)@,
                Some(m) => {
                    let s1 = StoreView { app_sequence: m.sequence, ..old(self)@ };
                    if m.operation == crate::alpha_wire::READ_DOCUMENT {
                        let read = read_private_spec(s1, sender as u32, incarnation);
                        &&& final(self)@ == s1
                        &&& r is Some
                        &&& r->Some_0@ == crate::alpha_wire::message_bytes(
                            crate::alpha_wire::MessageView {
                                operation: m.operation,
                                status: match read {
                                    Ok(_) => alpha_protocol::OK,
                                    Err(f) => app_status(Err(f)),
                                },
                                sequence: m.sequence,
                                payload: match read {
                                    Ok(d) => d,
                                    Err(_) => Seq::empty(),
                                },
                            },
                        )
                    } else {
                        exists|w: Result<(), Failure>|
                            #[trigger] write_private_done(s1, final(self)@, sender as u32, incarnation, m.payload, w)
                                && r is Some && r->Some_0@ == crate::alpha_wire::message_bytes(
                                crate::alpha_wire::MessageView {
                                    operation: m.operation,
                                    status: app_status(w),
                                    sequence: m.sequence,
                                    payload: Seq::empty(),
                                },
                            )
                    }
                },
            },
    {
        if sender > 0xffff_ffff {
            return None;
        }
        let principal = sender as u32;
        match self.private {
            None => {
                return None;
            },
            Some(g) => {
                if !g.allows(principal, incarnation) {
                    return None;
                }
            },
        }
        let message = match Message::decode(request) {
            Ok(m) => m,
            Err(_) => {
                return None;
            },
        };
        let operation = match alpha_protocol::document(&message) {
            Ok(d) => d,
            Err(_) => {
                return None;
            },
        };
        if message.sequence() <= self.app_sequence {
            return None;
        }
        self.app_sequence = message.sequence();
        let none: [u8; 0] = [];
        proof {
            assert(none@ =~= Seq::<u8>::empty());
        }
        match operation {
            Document::Read => {
                let reply = match self.read_private(principal, incarnation) {
                    Ok(bytes) => {
                        proof {
                            documents::lemma_read_bounded(self@.vault.snapshot, self@.private->Some_0, principal, incarnation);
                        }
                        Message::new(message.operation(), alpha_protocol::OK, message.sequence(), bytes)
                    },
                    Err(f) => Message::new(message.operation(), status_of(Err(f)), message.sequence(), &none),
                };
                match reply {
                    Ok(m) => Some(m.encode()),
                    Err(_) => None,
                }
            },
            Document::Write(value) => {
                let w = self.write_private(principal, incarnation, value);
                match Message::new(message.operation(), status_of(w), message.sequence(), &none) {
                    Ok(m) => Some(m.encode()),
                    Err(_) => None,
                }
            },
        }
    }
}

fn status_of(r: Result<(), Failure>) -> (s: u8)
    ensures
        s == app_status(r),
{
    match r {
        Ok(()) => alpha_protocol::OK,
        Err(Failure::ReadOnly) => alpha_protocol::READ_ONLY,
        Err(Failure::Unavailable) => alpha_protocol::UNAVAILABLE,
        Err(Failure::Indeterminate) => alpha_protocol::INDETERMINATE,
    }
}

/// Once a publication failed, the store serves nothing from its cache: every
/// well-formed request is refused as unavailable and no private read, write
/// or install touches the vault.
pub proof fn law_unavailable_is_sticky(
    s: StoreView,
    sender: u64,
    generation: u64,
    request: Seq<u8>,
    principal: u32,
    incarnation: u64,
    value: Seq<u8>,
    candidate: Seq<Entry>,
    new: StoreView,
    r: Result<(), Failure>,
)
    requires
        s.unavailable,
    ensures
        ((sender == 4 && generation == s.files_generation) || (sender == 6 && generation == s.terminal_generation))
            && decode_spec(request) is Some ==> process_spec(s, sender, generation, request) == Step::Refuse(
            Failure::Unavailable,
        ),
        read_private_spec(s, principal, incarnation) == Err::<Seq<u8>, Failure>(Failure::Unavailable),
        write_private_done(s, new, principal, incarnation, value, r) ==> r == Err::<(), Failure>(Failure::Unavailable)
            && new == s,
        publish_done(s, new, candidate, r) ==> r == Err::<(), Failure>(Failure::Unavailable) && new == s,
{
}

/// A write of the value already stored is acknowledged without a
/// publication.
pub proof fn law_identical_write_is_acknowledged(s: StoreView, sender: u64, generation: u64, request: Seq<u8>)
    requires
        !s.unavailable,
        (sender == 4 && generation == s.files_generation) || (sender == 6 && generation == s.terminal_generation),
        decode_spec(request) matches Some((op, name, value)) && op == WRITE && lookup(s.vault.snapshot, name) == Some(
            value,
        ),
        visible_spec(s) is Ok,
    ensures
        process_spec(s, sender, generation, request) == Step::Reply(status_bytes(OK)),
{
}

/// A document request is accepted at most once: once its sequence number
/// has been consumed, the same request, or any with a sequence number not
/// above the last consumed one, is refused, whatever else changed.
pub proof fn law_replay_is_refused(s: StoreView, later: StoreView, sender: u64, incarnation: u64, request: Seq<u8>)
    requires
        app_accepted(s, sender, incarnation, request) is Some,
        later.app_sequence >= app_accepted(s, sender, incarnation, request)->Some_0.sequence,
    ensures
        app_accepted(later, sender, incarnation, request) is None,
{
}

} // verus!
