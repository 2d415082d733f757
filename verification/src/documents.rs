//! Private-document policy over unchanged vault snapshots: one owner record
//! and one document beside the shared files. No I/O, no caller
//! authentication, no mount mutation.
use vstd::prelude::*;
use crate::network::same_bytes;
use crate::vault::{Entry, Snapshot, snapshot_valid, name_valid, put_spec, total, precedes, sorted, all_zero, count_before, lemma_sorted_distinct};

verus! {

pub const MAX_DOCUMENT: usize = 64;

#[derive(Clone, Copy, Debug, PartialEq, Eq, Structural)]
pub enum Error {
    Invalid,
    Denied,
    Quota,
}

/// `_rar.app0`, the name of the owner record.
pub open spec fn owner_key() -> Seq<u8> {
    seq![0x5fu8, 0x72, 0x61, 0x72, 0x2e, 0x61, 0x70, 0x70, 0x30]
}

/// `_rar.doc0`, the name of the private document.
pub open spec fn document_key() -> Seq<u8> {
    seq![0x5fu8, 0x72, 0x61, 0x72, 0x2e, 0x64, 0x6f, 0x63, 0x30]
}

pub open spec fn shared_byte(b: u8) -> bool {
    (0x30 <= b <= 0x39) || (0x41 <= b <= 0x5a) || (0x61 <= b <= 0x7a) || b == 0x2e || b == 0x2d
}

/// A shared file's name: letters, digits, `.` and `-`, and neither `.` nor
/// `..`.
pub open spec fn shared_name(name: Seq<u8>) -> bool {
    &&& name.len() > 0
    &&& name != seq![0x2eu8]
    &&& name != seq![0x2eu8, 0x2e]
    &&& forall|i: int| 0 <= i < name.len() ==> shared_byte(#[trigger] name[i])
}

/// The shared files of a snapshot, in order.
pub open spec fn shared_part(v: Seq<Entry>) -> Seq<Entry>
    decreases v.len(),
{
    if v.len() == 0 {
        Seq::empty()
    } else if shared_name(v.last().0) {
        shared_part(v.drop_last()).push(v.last())
    } else {
        shared_part(v.drop_last())
    }
}

/// The data stored under `name`.
pub open spec fn lookup(v: Seq<Entry>, name: Seq<u8>) -> Option<Seq<u8>>
    decreases v.len(),
{
    if v.len() == 0 {
        None
    } else if v.last().0 == name {
        Some(v.last().1)
    } else {
        lookup(v.drop_last(), name)
    }
}

/// The owner a snapshot records: every name is the owner record, the
/// document or a shared name; either neither record is present, or both
/// are, with a 32-byte nonzero owner, a document within bounds and at most
/// 32 bytes of shared data.
pub open spec fn inspect_spec(v: Seq<Entry>) -> Result<Option<Seq<u8>>, Error> {
    if exists|i: int| 0 <= i < v.len() && !(#[trigger] v[i].0 == owner_key() || v[i].0 == document_key() || shared_name(v[i].0)) {
        Err(Error::Invalid)
    } else {
        match (lookup(v, owner_key()), lookup(v, document_key())) {
            (None, None) => Ok(None),
            (Some(raw), Some(doc)) => if raw.len() == 32 && doc.len() <= MAX_DOCUMENT && total(shared_part(v)) <= 32 {
                if all_zero(raw) {
                    Err(Error::Invalid)
                } else {
                    Ok(Some(raw))
                }
            } else {
                Err(Error::Invalid)
            },
            _ => Err(Error::Invalid),
        }
    }
}

/// Installing an owner: idempotent for the same owner, refused for another,
/// and otherwise both records are added in one new snapshot, reserving the
/// full document quota.
pub open spec fn install_spec(v: Seq<Entry>, owner: Seq<u8>) -> Result<Seq<Entry>, Error> {
    match inspect_spec(v) {
        Err(e) => Err(e),
        Ok(Some(current)) => if current == owner {
            Ok(v)
        } else {
            Err(Error::Denied)
        },
        Ok(None) => if total(v) > 32 {
            Err(Error::Quota)
        } else {
            match put_spec(v, owner_key(), owner) {
                Err(_) => Err(Error::Quota),
                Ok(n1) => match put_spec(n1, document_key(), Seq::empty()) {
                    Err(_) => Err(Error::Quota),
                    Ok(n2) => Ok(n2),
                },
            }
        },
    }
}

pub struct GrantView {
    pub owner: Seq<u8>,
    pub principal: u32,
    pub incarnation: u64,
}

/// Reading the document: only the grant's exact principal and incarnation,
/// and only from a snapshot that this grant's owner owns.
pub open spec fn read_spec(v: Seq<Entry>, g: GrantView, principal: u32, incarnation: u64) -> Result<Seq<u8>, Error> {
    if principal != g.principal || incarnation != g.incarnation {
        Err(Error::Denied)
    } else {
        match inspect_spec(v) {
            Err(e) => Err(e),
            Ok(o) => if o != Some(g.owner) {
                Err(Error::Denied)
            } else {
                match lookup(v, document_key()) {
                    None => Err(Error::Invalid),
                    Some(d) => Ok(d),
                }
            },
        }
    }
}

pub open spec fn write_spec(v: Seq<Entry>, g: GrantView, principal: u32, incarnation: u64, data: Seq<u8>) -> Result<Seq<Entry>, Error> {
    match read_spec(v, g, principal, incarnation) {
        Err(e) => Err(e),
        Ok(_) => if data.len() > MAX_DOCUMENT {
            Err(Error::Quota)
        } else {
            match put_spec(v, document_key(), data) {
                Err(_) => Err(Error::Quota),
                Ok(n) => Ok(n),
            }
        },
    }
}

/// The projection the shared file service sees.
pub open spec fn shared_spec(v: Seq<Entry>) -> Result<Seq<Entry>, Error> {
    match inspect_spec(v) {
        Err(e) => Err(e),
        Ok(_) => Ok(shared_part(v)),
    }
}

/// An owner identity derived by the trusted installer from a verified
/// publisher and app; never taken from IPC.
#[derive(Clone, Copy, Debug, PartialEq, Eq)]
pub struct Owner([u8; 32]);

impl View for Owner {
    type V = Seq<u8>;

    closed spec fn view(&self) -> Seq<u8> {
        self.0@
    }
}

impl Owner {
    /// Whether two owners are the same identity.
    pub fn same(&self, other: &Owner) -> (r: bool)
        ensures
            r == (self@ == other@),
    {
        same_owner(self, other)
    }

    /// Whether a mounted snapshot is unowned or owned by this owner.
    pub fn validate_binding(self, snapshot: &Snapshot) -> (r: Result<(), Error>)
        ensures
            match inspect_spec(snapshot@) {
                Err(e) => r == Err::<(), Error>(e),
                Ok(None) => r is Ok,
                Ok(Some(o)) => if o == self@ {
                    r is Ok
                } else {
                    r == Err::<(), Error>(Error::Denied)
                },
            },
    {
        match inspect(snapshot) {
            Err(e) => Err(e),
            Ok(None) => Ok(()),
            Ok(Some(o)) => if same_owner(&o, &self) {
                Ok(())
            } else {
                Err(Error::Denied)
            },
        }
    }

    pub fn from_verified_identity(digest: [u8; 32]) -> (r: Result<Owner, Error>)
        ensures
            match r {
                Ok(o) => !all_zero(digest@) && o@ == digest@,
                Err(e) => all_zero(digest@) && e == Error::Invalid,
            },
    {
        let mut i: usize = 0;
        while i < 32
            invariant
                i <= 32,
                forall|k: int| 0 <= k < i ==> digest@[k] == 0,
            decreases 32 - i,
        {
            if digest[i] != 0 {
                return Ok(Owner(digest));
            }
            i = i + 1;
        }
        Err(Error::Invalid)
    }
}

/// An owner bound to one principal incarnation by the trusted policy
/// broker; service callers can neither build one nor choose its identity.
#[derive(Clone, Copy, Debug, PartialEq, Eq)]
pub struct Grant {
    owner: Owner,
    principal: u32,
    incarnation: u64,
}

impl View for Grant {
    type V = GrantView;

    closed spec fn view(&self) -> GrantView {
        GrantView { owner: self.owner@, principal: self.principal, incarnation: self.incarnation }
    }
}

proof fn lemma_lookup(v: Seq<Entry>, name: Seq<u8>, i: int)
    requires
        sorted(v),
        0 <= i < v.len(),
        v[i].0 == name,
    ensures
        lookup(v, name) == Some(v[i].1),
    decreases v.len(),
{
    if i < v.len() - 1 {
        lemma_sorted_distinct(v, i, v.len() - 1);
        let u = v.drop_last();
        assert(sorted(u)) by {
            assert forall|a: int, b: int| 0 <= a < b < u.len() implies precedes(#[trigger] u[a].0, #[trigger] u[b].0) by {
                assert(u[a] == v[a] && u[b] == v[b]);
            }
        }
        assert(u[i] == v[i]);
        lemma_lookup(u, name, i);
    }
}

proof fn lemma_lookup_none(v: Seq<Entry>, name: Seq<u8>)
    requires
        forall|i: int| 0 <= i < v.len() ==> #[trigger] v[i].0 != name,
    ensures
        lookup(v, name) is None,
    decreases v.len(),
{
    if v.len() > 0 {
        let u = v.drop_last();
        assert(v[v.len() - 1].0 != name);
        assert forall|i: int| 0 <= i < u.len() implies #[trigger] u[i].0 != name by {
            assert(u[i] == v[i]);
        }
        lemma_lookup_none(u, name);
    }
}

/// The data under `name`, as `lookup` gives it.
pub(crate) fn find<'a>(s: &'a Snapshot, name: &[u8]) -> (r: Option<&'a [u8]>)
    ensures
        snapshot_valid(s@),
        match lookup(s@, name@) {
            None => r is None,
            Some(d) => r matches Some(x) && x@ == d,
        },
{
    let r = s.get(name);
    proof {
        if let Some(d) = r {
            let i = choose|i: int| 0 <= i < s@.len() && #[trigger] s@[i].0 == name@ && s@[i].1 == d@;
            lemma_lookup(s@, name@, i);
        } else {
            lemma_lookup_none(s@, name@);
        }
    }
    r
}

pub(crate) fn is_shared_name(name: &[u8]) -> (r: bool)
    ensures
        r == shared_name(name@),
{
    if name.len() == 0 {
        return false;
    }
    if name.len() == 1 && name[0] == 0x2e {
        proof {
            assert(name@ =~= seq![0x2eu8]);
        }
        return false;
    }
    if name.len() == 2 && name[0] == 0x2e && name[1] == 0x2e {
        proof {
            assert(name@ =~= seq![0x2eu8, 0x2e]);
        }
        return false;
    }
    let mut i: usize = 0;
    while i < name.len()
        invariant
            i <= name@.len(),
            forall|k: int| 0 <= k < i ==> shared_byte(#[trigger] name@[k]),
        decreases name@.len() - i,
    {
        let b = name[i];
        if !((0x30 <= b && b <= 0x39) || (0x41 <= b && b <= 0x5a) || (0x61 <= b && b <= 0x7a) || b == 0x2e || b
            == 0x2d) {
            return false;
        }
        i = i + 1;
    }
    true
}

fn owner_name() -> (r: [u8; 9])
    ensures
        r@ == owner_key(),
{
    let r: [u8; 9] = [0x5f, 0x72, 0x61, 0x72, 0x2e, 0x61, 0x70, 0x70, 0x30];
    proof {
        assert(r@ =~= owner_key());
    }
    r
}

fn document_name() -> (r: [u8; 9])
    ensures
        r@ == document_key(),
{
    let r: [u8; 9] = [0x5f, 0x72, 0x61, 0x72, 0x2e, 0x64, 0x6f, 0x63, 0x30];
    proof {
        assert(r@ =~= document_key());
    }
    r
}

proof fn lemma_shared_part_step(v: Seq<Entry>, i: int)
    requires
        0 <= i < v.len(),
    ensures
        shared_part(v.take(i + 1)) == if shared_name(v[i].0) {
            shared_part(v.take(i)).push(v[i])
        } else {
            shared_part(v.take(i))
        },
{
    assert(v.take(i + 1).drop_last() =~= v.take(i));
}

/// The shared part of a prefix holds only entries of that prefix.
proof fn lemma_shared_part_members(v: Seq<Entry>)
    ensures
        shared_part(v).len() <= v.len(),
        total(shared_part(v)) <= total(v),
        forall|j: int|
            0 <= j < shared_part(v).len() ==> exists|m: int| 0 <= m < v.len() && #[trigger] v[m] == #[trigger] shared_part(v)[j],
        forall|j: int| 0 <= j < shared_part(v).len() ==> shared_name(#[trigger] shared_part(v)[j].0),
    decreases v.len(),
{
    if v.len() > 0 {
        let u = v.drop_last();
        lemma_shared_part_members(u);
        let p = shared_part(u);
        assert forall|j: int| 0 <= j < shared_part(v).len() implies exists|m: int|
            0 <= m < v.len() && #[trigger] v[m] == #[trigger] shared_part(v)[j] by {
            if j < p.len() {
                let m = choose|m: int| 0 <= m < u.len() && #[trigger] u[m] == p[j];
                assert(v[m] == u[m]);
            } else {
                assert(v[v.len() - 1] == shared_part(v)[j]);
            }
        }
        if shared_name(v.last().0) {
            assert(p.push(v.last()).drop_last() =~= p);
        }
    }
}

/// Every entry that `inspect` accepted is checked; the `i`-th step of the
/// loop over names.
fn names_known(entries: &Vec<(&[u8], &[u8])>) -> (r: bool)
    ensures
        r == forall|i: int| 0 <= i < entries@.len() ==> (#[trigger] entries@[i].0@ == owner_key() || entries@[i].0@
            == document_key() || shared_name(entries@[i].0@)),
{
    let owner = owner_name();
    let document = document_name();
    let mut i: usize = 0;
    while i < entries.len()
        invariant
            i <= entries@.len(),
            owner@ == owner_key(),
            document@ == document_key(),
            forall|k: int| 0 <= k < i ==> (#[trigger] entries@[k].0@ == owner_key() || entries@[k].0@ == document_key()
                || shared_name(entries@[k].0@)),
        decreases entries@.len() - i,
    {
        let name = entries[i].0;
        if !(same_bytes(name, &owner) || same_bytes(name, &document) || is_shared_name(name)) {
            return false;
        }
        i = i + 1;
    }
    true
}

/// Bytes of shared data over the entries.
fn shared_total(entries: &Vec<(&[u8], &[u8])>, Ghost(v): Ghost<Seq<Entry>>) -> (r: usize)
    requires
        entries@.len() == v.len(),
        v.len() <= 4,
        forall|i: int| 0 <= i < v.len() ==> (#[trigger] entries@[i]).0@ == v[i].0 && entries@[i].1@ == v[i].1 && v[i].1.len() <= 64,
    ensures
        r == total(shared_part(v)),
{
    let mut sum: usize = 0;
    let mut i: usize = 0;
    while i < entries.len()
        invariant
            i <= entries@.len() == v.len() <= 4,
            forall|k: int| 0 <= k < v.len() ==> (#[trigger] entries@[k]).0@ == v[k].0 && entries@[k].1@ == v[k].1 && v[k].1.len() <= 64,
            sum == total(shared_part(v.take(i as int))),
            sum <= 64 * i,
        decreases entries@.len() - i,
    {
        proof {
            lemma_shared_part_step(v, i as int);
            let p = shared_part(v.take(i as int));
            assert(p.push(v[i as int]).drop_last() =~= p);
        }
        if is_shared_name(entries[i].0) {
            sum = sum + entries[i].1.len();
        }
        i = i + 1;
    }
    proof {
        assert(v.take(i as int) =~= v);
    }
    sum
}

fn inspect(s: &Snapshot) -> (r: Result<Option<Owner>, Error>)
    ensures
        snapshot_valid(s@),
        match inspect_spec(s@) {
            Err(e) => r == Err::<Option<Owner>, Error>(e),
            Ok(None) => r == Ok::<Option<Owner>, Error>(None),
            Ok(Some(o)) => r matches Ok(Some(x)) && x@ == o,
        },
{
    let entries = s.entries();
    let ghost v = s@;
    if !names_known(&entries) {
        proof {
            let i = choose|i: int| 0 <= i < entries@.len() && !(#[trigger] entries@[i].0@ == owner_key()
                || entries@[i].0@ == document_key() || shared_name(entries@[i].0@));
            assert(!(v[i].0 == owner_key() || v[i].0 == document_key() || shared_name(v[i].0)));
        }
        return Err(Error::Invalid);
    }
    proof {
        assert forall|i: int| 0 <= i < v.len() implies (#[trigger] v[i].0 == owner_key() || v[i].0 == document_key()
            || shared_name(v[i].0)) by {
            assert(entries@[i].0@ == v[i].0);
        }
    }
    let owner = owner_name();
    let document = document_name();
    match (find(s, &owner), find(s, &document)) {
        (None, None) => Ok(None),
        (Some(raw), Some(doc)) => {
            if raw.len() == 32 && doc.len() <= MAX_DOCUMENT && shared_total(&entries, Ghost(v)) <= 32 {
                let mut digest = [0u8; 32];
                let mut i: usize = 0;
                while i < 32
                    invariant
                        i <= 32,
                        raw@.len() == 32,
                        forall|k: int| 0 <= k < i ==> digest@[k] == raw@[k],
                    decreases 32 - i,
                {
                    digest[i] = raw[i];
                    i = i + 1;
                }
                proof {
                    assert(digest@ =~= raw@);
                }
                match Owner::from_verified_identity(digest) {
                    Ok(o) => Ok(Some(o)),
                    Err(e) => Err(e),
                }
            } else {
                Err(Error::Invalid)
            }
        },
        _ => Err(Error::Invalid),
    }
}

fn same_owner(a: &Owner, b: &Owner) -> (r: bool)
    ensures
        r == (a@ == b@),
{
    same_bytes(&a.0, &b.0)
}

impl Grant {
    /// Only the trusted policy broker builds grants, for principals 10 to 13.
    pub fn new(owner: Owner, principal: u32, incarnation: u64) -> (r: Result<Grant, Error>)
        ensures
            match r {
                Ok(g) => 10 <= principal <= 13 && incarnation != 0 && g@ == (GrantView {
                    owner: owner@,
                    principal,
                    incarnation,
                }),
                Err(e) => !(10 <= principal <= 13 && incarnation != 0) && e == Error::Invalid,
            },
    {
        if !(10 <= principal && principal <= 13) || incarnation == 0 {
            return Err(Error::Invalid);
        }
        Ok(Grant { owner, principal, incarnation })
    }

    /// Whether a mounted snapshot is unowned or owned by this grant's owner.
    pub fn validate_binding(self, snapshot: &Snapshot) -> (r: Result<(), Error>)
        ensures
            match inspect_spec(snapshot@) {
                Err(e) => r == Err::<(), Error>(e),
                Ok(None) => r is Ok,
                Ok(Some(o)) => if o == self@.owner {
                    r is Ok
                } else {
                    r == Err::<(), Error>(Error::Denied)
                },
            },
    {
        match inspect(snapshot) {
            Err(e) => Err(e),
            Ok(None) => Ok(()),
            Ok(Some(o)) => if same_owner(&o, &self.owner) {
                Ok(())
            } else {
                Err(Error::Denied)
            },
        }
    }

    /// The snapshot with this grant's owner installed.
    pub fn installation(self, snapshot: &Snapshot) -> (r: Result<Snapshot, Error>)
        ensures
            match install_spec(snapshot@, self@.owner) {
                Ok(n) => r matches Ok(x) && x@ == n,
                Err(e) => r matches Err(x) && x == e,
            },
    {
        install(snapshot, self.owner)
    }

    pub fn owner(&self) -> (r: Owner)
        ensures
            r@ == self@.owner,
    {
        self.owner
    }

    pub fn principal(&self) -> (r: u32)
        ensures
            r == self@.principal,
    {
        self.principal
    }

    pub fn incarnation(&self) -> (r: u64)
        ensures
            r == self@.incarnation,
    {
        self.incarnation
    }

    /// Whether a stamped caller is exactly this grant's principal incarnation.
    pub fn allows(&self, principal: u32, incarnation: u64) -> (r: bool)
        ensures
            r == (principal == self@.principal && incarnation == self@.incarnation),
    {
        principal == self.principal && incarnation == self.incarnation
    }

    fn authorize(self, principal: u32, incarnation: u64) -> (r: Result<Owner, Error>)
        ensures
            match r {
                Ok(o) => principal == self@.principal && incarnation == self@.incarnation && o@ == self@.owner,
                Err(e) => (principal != self@.principal || incarnation != self@.incarnation) && e == Error::Denied,
            },
    {
        if principal != self.principal || incarnation != self.incarnation {
            return Err(Error::Denied);
        }
        Ok(self.owner)
    }
}

/// One new snapshot that adds the owner record and an empty document and
/// keeps every shared file; the caller publishes exactly this snapshot in
/// one vault transaction.
pub fn install(snapshot: &Snapshot, owner: Owner) -> (r: Result<Snapshot, Error>)
    ensures
        match install_spec(snapshot@, owner@) {
            Ok(n) => r matches Ok(x) && x@ == n,
            Err(e) => r matches Err(x) && x == e,
        },
{
    match inspect(snapshot) {
        Err(e) => {
            return Err(e);
        },
        Ok(Some(current)) => {
            if same_owner(&current, &owner) {
                return Ok(*snapshot);
            } else {
                return Err(Error::Denied);
            }
        },
        Ok(None) => {},
    }
    let entries = snapshot.entries();
    let mut sum: usize = 0;
    let mut i: usize = 0;
    let ghost v = snapshot@;
    proof {
        assert forall|k: int| 0 <= k < v.len() implies v[k].1.len() <= 64 by {
            assert(name_valid(v[k].0));
        }
    }
    while i < entries.len()
        invariant
            i <= entries@.len() == v.len() <= 4,
            snapshot_valid(v),
            forall|k: int| 0 <= k < v.len() ==> (#[trigger] entries@[k]).1@ == v[k].1 && v[k].1.len() <= 64,
            sum == total(v.take(i as int)),
            sum <= 64 * i,
        decreases entries@.len() - i,
    {
        proof {
            assert(v.take(i + 1).drop_last() =~= v.take(i as int));
        }
        sum = sum + entries[i].1.len();
        i = i + 1;
    }
    proof {
        assert(v.take(i as int) =~= v);
    }
    if sum > 32 {
        return Err(Error::Quota);
    }
    let mut next = *snapshot;
    let owner_record = owner_name();
    let document = document_name();
    if next.put(&owner_record, &owner.0).is_err() {
        return Err(Error::Quota);
    }
    let none: [u8; 0] = [];
    proof {
        assert(none@ =~= Seq::<u8>::empty());
    }
    if next.put(&document, &none).is_err() {
        return Err(Error::Quota);
    }
    Ok(next)
}

/// The owner's document, for the grant's exact principal incarnation only.
pub fn read<'a>(snapshot: &'a Snapshot, grant: Grant, principal: u32, incarnation: u64) -> (r: Result<&'a [u8], Error>)
    ensures
        match read_spec(snapshot@, grant@, principal, incarnation) {
            Ok(d) => r matches Ok(x) && x@ == d,
            Err(e) => r matches Err(x) && x == e,
        },
{
    let owner = grant.authorize(principal, incarnation)?;
    match inspect(snapshot) {
        Err(e) => {
            return Err(e);
        },
        Ok(None) => {
            return Err(Error::Denied);
        },
        Ok(Some(o)) => {
            if !same_owner(&o, &owner) {
                return Err(Error::Denied);
            }
        },
    }
    let document = document_name();
    match find(snapshot, &document) {
        None => Err(Error::Invalid),
        Some(d) => Ok(d),
    }
}

/// A new snapshot with the owner's document replaced.
pub fn write(snapshot: &Snapshot, grant: Grant, principal: u32, incarnation: u64, data: &[u8]) -> (r: Result<Snapshot, Error>)
    ensures
        match write_spec(snapshot@, grant@, principal, incarnation, data@) {
            Ok(n) => r matches Ok(x) && x@ == n,
            Err(e) => r matches Err(x) && x == e,
        },
{
    read(snapshot, grant, principal, incarnation)?;
    if data.len() > MAX_DOCUMENT {
        return Err(Error::Quota);
    }
    let mut next = *snapshot;
    let document = document_name();
    if next.put(&document, data).is_err() {
        return Err(Error::Quota);
    }
    Ok(next)
}

/// The shared files alone, for the shared file service.
pub fn shared(snapshot: &Snapshot) -> (r: Result<Snapshot, Error>)
    ensures
        match shared_spec(snapshot@) {
            Ok(n) => r matches Ok(x) && x@ == n,
            Err(e) => r matches Err(x) && x == e,
        },
{
    inspect(snapshot)?;
    let entries = snapshot.entries();
    let ghost v = snapshot@;
    let mut out = Snapshot::empty();
    let mut i: usize = 0;
    proof {
        assert(v.take(0) =~= Seq::<Entry>::empty());
    }
    while i < entries.len()
        invariant
            i <= entries@.len() == v.len() <= 4,
            snapshot_valid(v),
            forall|k: int| 0 <= k < v.len() ==> (#[trigger] entries@[k]).0@ == v[k].0 && entries@[k].1@ == v[k].1,
            out@ == shared_part(v.take(i as int)),
        decreases entries@.len() - i,
    {
        let (name, data) = entries[i];
        proof {
            lemma_shared_part_step(v, i as int);
            if shared_name(v[i as int].0) {
                lemma_shared_part_next(v, i as int);
            }
        }
        if is_shared_name(name) {
            if out.put(name, data).is_err() {
                return Err(Error::Invalid);
            }
        }
        i = i + 1;
    }
    proof {
        assert(v.take(i as int) =~= v);
    }
    Ok(out)
}

/// Appending the next shared file to the shared part of a prefix succeeds
/// and extends it.
proof fn lemma_shared_part_next(v: Seq<Entry>, i: int)
    requires
        snapshot_valid(v),
        0 <= i < v.len(),
        shared_name(v[i].0),
    ensures
        put_spec(shared_part(v.take(i)), v[i].0, v[i].1) == Ok::<Seq<Entry>, crate::vault::Error>(
            shared_part(v.take(i)).push(v[i]),
        ),
{
    let u = v.take(i);
    let p = shared_part(u);
    lemma_shared_part_members(u);
    let e = v[i];
    assert forall|j: int| 0 <= j < p.len() implies precedes(#[trigger] p[j].0, e.0) by {
        let m = choose|m: int| 0 <= m < u.len() && #[trigger] u[m] == p[j];
        assert(u[m] == v[m]);
        assert(precedes(v[m].0, v[i].0));
    }
    assert forall|j: int| 0 <= j < p.len() implies #[trigger] p[j].0 != e.0 by {
        if p[j].0 == e.0 {
            crate::vault::lemma_precedes_irreflexive(e.0);
        }
    }
    crate::vault::lemma_total_take(v, i + 1);
    assert(v.take(i + 1).drop_last() =~= u);
    assert(v[i].0 == v.take(i + 1).last().0);
    crate::vault::lemma_put_append(p, e);
}

/// What `lookup` finds is the data of some entry.
pub proof fn lemma_lookup_bounded(v: Seq<Entry>, name: Seq<u8>)
    requires
        snapshot_valid(v),
    ensures
        lookup(v, name) matches Some(d) ==> d.len() <= 64,
    decreases v.len(),
{
    if v.len() > 0 {
        let u = v.drop_last();
        assert(name_valid(v[v.len() - 1].0));
        assert(crate::vault::snapshot_valid(u)) by {
            assert forall|i: int| 0 <= i < u.len() implies name_valid(#[trigger] u[i].0) && u[i].1.len() <= 64 by {
                assert(u[i] == v[i]);
                assert(name_valid(v[i].0));
            }
            assert forall|i: int, j: int| 0 <= i < j < u.len() implies precedes(#[trigger] u[i].0, #[trigger] u[j].0) by {
                assert(u[i] == v[i] && u[j] == v[j]);
            }
            crate::vault::lemma_total_take(v, v.len() - 1);
            assert(v.take(v.len() - 1) =~= u);
        }
        lemma_lookup_bounded(u, name);
    }
}

/// A document that can be read is at most 64 bytes.
pub proof fn lemma_read_bounded(v: Seq<Entry>, g: GrantView, principal: u32, incarnation: u64)
    ensures
        read_spec(v, g, principal, incarnation) matches Ok(d) ==> d.len() <= MAX_DOCUMENT,
{
}

proof fn lemma_shared_part_insert(v: Seq<Entry>, k: int, e: Entry)
    requires
        0 <= k <= v.len(),
        !shared_name(e.0),
    ensures
        shared_part(v.insert(k, e)) == shared_part(v),
    decreases v.len(),
{
    v.insert_ensures(k, e);
    let w = v.insert(k, e);
    if k == v.len() {
        assert(w.drop_last() =~= v);
    } else {
        let u = v.drop_last();
        lemma_shared_part_insert(u, k, e);
        assert(w.drop_last() =~= u.insert(k, e));
        assert(w.last() == v.last());
    }
}

proof fn lemma_shared_part_update(v: Seq<Entry>, i: int, e: Entry)
    requires
        0 <= i < v.len(),
        !shared_name(e.0),
        !shared_name(v[i].0),
    ensures
        shared_part(v.update(i, e)) == shared_part(v),
    decreases v.len(),
{
    let w = v.update(i, e);
    if i == v.len() - 1 {
        assert(w.drop_last() =~= v.drop_last());
    } else {
        let u = v.drop_last();
        lemma_shared_part_update(u, i, e);
        assert(w.drop_last() =~= u.update(i, e));
    }
}

proof fn lemma_private_keys_not_shared()
    ensures
        !shared_name(owner_key()),
        !shared_name(document_key()),
{
    assert(!shared_byte(owner_key()[0]));
    assert(!shared_byte(document_key()[0]));
}

/// Storing under a private record name leaves the shared files as they were.
proof fn lemma_put_private_keeps_shared(v: Seq<Entry>, name: Seq<u8>, value: Seq<u8>)
    requires
        !shared_name(name),
        put_spec(v, name, value) is Ok,
    ensures
        shared_part(put_spec(v, name, value)->Ok_0) == shared_part(v),
{
    if exists|i: int| 0 <= i < v.len() && #[trigger] v[i].0 == name {
        assert forall|j: int| 0 <= j < v.len() && #[trigger] v[j].0 == name implies shared_part(
            v.update(j, (name, value)),
        ) == shared_part(v) by {
            lemma_shared_part_update(v, j, (name, value));
        }
    } else {
        crate::vault::lemma_count_before_bound(v, name);
        lemma_shared_part_insert(v, count_before(v, name) as int, (name, value));
    }
}

/// Installing an owner, or writing its document, never changes what the
/// shared file service sees: every shared file is preserved exactly.
pub proof fn law_private_changes_preserve_shared(v: Seq<Entry>, owner: Seq<u8>, g: GrantView, principal: u32, incarnation: u64, data: Seq<u8>)
    ensures
        install_spec(v, owner) matches Ok(n) ==> shared_part(n) == shared_part(v),
        write_spec(v, g, principal, incarnation, data) matches Ok(n) ==> shared_part(n) == shared_part(v),
{
    lemma_private_keys_not_shared();
    if install_spec(v, owner) is Ok && inspect_spec(v) == Ok::<Option<Seq<u8>>, Error>(None) {
        lemma_put_private_keeps_shared(v, owner_key(), owner);
        let n1 = put_spec(v, owner_key(), owner)->Ok_0;
        lemma_put_private_keeps_shared(n1, document_key(), Seq::empty());
    }
    if write_spec(v, g, principal, incarnation, data) is Ok {
        lemma_put_private_keeps_shared(v, document_key(), data);
    }
}

} // verus!
