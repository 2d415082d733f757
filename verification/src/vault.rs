//! DataVault: a bounded snapshot of at most four small files, sealed into
//! append-only slots of a block device. Mounting never formats, repairs or
//! writes; publishing locks before any I/O and unlocks only after every
//! write has been read back.
use vstd::prelude::*;
use crate::network::same_bytes;
use crate::crypto::{self, sha256_digest, chacha_seal, chacha_open};
use crate::le::{le32, le64, le_bytes, read32, read64, put_le, lemma_le_bytes_len, lemma_le_sub, lemma_le64_bytes};

verus! {

#[derive(Clone, Copy, Debug, PartialEq, Eq, Structural)]
pub enum Error {
    Invalid,
    Bounds,
    Io,
    Authentication,
    ReadOnly,
    Indeterminate,
}

/// One file of a snapshot: its name and its data.
pub type Entry = (Seq<u8>, Seq<u8>);

/// Bytes allowed in a file name: ASCII letters and digits, `.`, `_` and `-`.
pub open spec fn name_byte(b: u8) -> bool {
    (0x30 <= b <= 0x39) || (0x41 <= b <= 0x5a) || (0x61 <= b <= 0x7a) || b == 0x2e || b == 0x5f || b == 0x2d
}

pub open spec fn name_valid(name: Seq<u8>) -> bool {
    &&& 1 <= name.len() <= 12
    &&& forall|i: int| 0 <= i < name.len() ==> name_byte(#[trigger] name[i])
}

/// Byte-wise lexicographic order, a proper prefix first.
pub open spec fn precedes(a: Seq<u8>, b: Seq<u8>) -> bool
    decreases a.len(),
{
    if a.len() == 0 {
        b.len() > 0
    } else if b.len() == 0 {
        false
    } else if a[0] != b[0] {
        a[0] < b[0]
    } else {
        precedes(a.drop_first(), b.drop_first())
    }
}

/// Bytes of data over all entries.
pub open spec fn total(v: Seq<Entry>) -> int
    decreases v.len(),
{
    if v.len() == 0 {
        0
    } else {
        total(v.drop_last()) + v.last().1.len()
    }
}

pub open spec fn sorted(v: Seq<Entry>) -> bool {
    forall|i: int, j: int| 0 <= i < j < v.len() ==> precedes(#[trigger] v[i].0, #[trigger] v[j].0)
}

/// A valid snapshot: at most four files, valid names in strictly increasing
/// order, at most 64 bytes per file and 128 in all.
pub open spec fn snapshot_valid(v: Seq<Entry>) -> bool {
    &&& v.len() <= 4
    &&& forall|i: int| 0 <= i < v.len() ==> name_valid(#[trigger] v[i].0) && v[i].1.len() <= 64
    &&& sorted(v)
    &&& total(v) <= 128
}

/// How many entries precede `name`.
pub open spec fn count_before(v: Seq<Entry>, name: Seq<u8>) -> nat
    decreases v.len(),
{
    if v.len() == 0 {
        0
    } else {
        count_before(v.drop_last(), name) + if precedes(v.last().0, name) { 1nat } else { 0nat }
    }
}

/// Storing `value` under `name`: replaces a file of that name or inserts a
/// new one in name order, refusing anything that would leave the snapshot
/// invalid.
pub open spec fn put_spec(v: Seq<Entry>, name: Seq<u8>, value: Seq<u8>) -> Result<Seq<Entry>, Error> {
    if !name_valid(name) || value.len() > 64 {
        Err(Error::Bounds)
    } else {
        let next = if exists|i: int| 0 <= i < v.len() && #[trigger] v[i].0 == name {
            Some(v.update(choose|i: int| 0 <= i < v.len() && #[trigger] v[i].0 == name, (name, value)))
        } else if v.len() >= 4 {
            None
        } else {
            Some(v.insert(count_before(v, name) as int, (name, value)))
        };
        match next {
            None => Err(Error::Bounds),
            Some(n) => if total(n) > 128 {
                Err(Error::Bounds)
            } else {
                Ok(n)
            },
        }
    }
}

/// `n` holds `(name, value)`, every entry of `v` under another name, and
/// nothing else.
#[verifier::opaque]
pub open spec fn stored(v: Seq<Entry>, n: Seq<Entry>, name: Seq<u8>, value: Seq<u8>) -> bool {
    &&& exists|j: int| 0 <= j < n.len() && #[trigger] n[j] == (name, value)
    &&& forall|i: int| 0 <= i < v.len() && v[i].0 != name ==> exists|j: int| 0 <= j < n.len() && #[trigger] n[j] == v[i]
    &&& forall|j: int| 0 <= j < n.len() && n[j].0 != name ==> exists|i: int| 0 <= i < v.len() && #[trigger] v[i] == n[j]
}

proof fn lemma_stored_update(v: Seq<Entry>, idx: int, name: Seq<u8>, value: Seq<u8>)
    requires
        0 <= idx < v.len(),
        v[idx].0 == name,
    ensures
        stored(v, v.update(idx, (name, value)), name, value),
{
    reveal(stored);
    let n = v.update(idx, (name, value));
    assert(n[idx] == (name, value));
    assert forall|i: int| 0 <= i < v.len() && v[i].0 != name implies exists|j: int| 0 <= j < n.len() && #[trigger] n[j] == v[i] by {
        assert(n[i] == v[i]);
    }
    assert forall|j: int| 0 <= j < n.len() && n[j].0 != name implies exists|i: int| 0 <= i < v.len() && #[trigger] v[i] == n[j] by {
        assert(v[j] == n[j]);
    }
}

proof fn lemma_stored_insert(v: Seq<Entry>, k: int, name: Seq<u8>, value: Seq<u8>)
    requires
        0 <= k <= v.len(),
    ensures
        stored(v, v.insert(k, (name, value)), name, value),
{
    reveal(stored);
    let n = v.insert(k, (name, value));
    v.insert_ensures(k, (name, value));
    assert(n[k] == (name, value));
    assert forall|i: int| 0 <= i < v.len() && v[i].0 != name implies exists|j: int| 0 <= j < n.len() && #[trigger] n[j] == v[i] by {
        if i < k {
            assert(n[i] == v[i]);
        } else {
            assert(n[i + 1] == v[i]);
        }
    }
    assert forall|j: int| 0 <= j < n.len() && n[j].0 != name implies exists|i: int| 0 <= i < v.len() && #[trigger] v[i] == n[j] by {
        if j < k {
            assert(v[j] == n[j]);
        } else {
            assert(v[j - 1] == n[j]);
        }
    }
}

pub proof fn lemma_precedes_irreflexive(a: Seq<u8>)
    ensures
        !precedes(a, a),
    decreases a.len(),
{
    if a.len() > 0 {
        lemma_precedes_irreflexive(a.drop_first());
    }
}

pub proof fn lemma_precedes_transitive(a: Seq<u8>, b: Seq<u8>, c: Seq<u8>)
    requires
        precedes(a, b),
        precedes(b, c),
    ensures
        precedes(a, c),
    decreases a.len(),
{
    if a.len() > 0 && b.len() > 0 && c.len() > 0 && a[0] == b[0] && b[0] == c[0] {
        lemma_precedes_transitive(a.drop_first(), b.drop_first(), c.drop_first());
    }
}

pub proof fn lemma_precedes_total(a: Seq<u8>, b: Seq<u8>)
    requires
        a != b,
    ensures
        precedes(a, b) || precedes(b, a),
    decreases a.len(),
{
    if a.len() == 0 && b.len() == 0 {
        assert(a =~= b);
    } else if a.len() > 0 && b.len() > 0 && a[0] == b[0] {
        if a.drop_first() =~= b.drop_first() {
            assert(a =~= seq![a[0]] + a.drop_first());
            assert(b =~= seq![b[0]] + b.drop_first());
        } else {
            lemma_precedes_total(a.drop_first(), b.drop_first());
        }
    }
}

/// In a sorted sequence the entries preceding `name` are exactly the first
/// `count_before` ones.
proof fn lemma_count_before(v: Seq<Entry>, name: Seq<u8>)
    requires
        sorted(v),
    ensures
        count_before(v, name) <= v.len(),
        forall|j: int| 0 <= j < count_before(v, name) ==> precedes(#[trigger] v[j].0, name),
        forall|j: int| count_before(v, name) <= j < v.len() ==> !precedes(#[trigger] v[j].0, name),
    decreases v.len(),
{
    if v.len() > 0 {
        let u = v.drop_last();
        assert(sorted(u)) by {
            assert forall|i: int, j: int| 0 <= i < j < u.len() implies precedes(#[trigger] u[i].0, #[trigger] u[j].0) by {
                assert(u[i] == v[i] && u[j] == v[j]);
            }
        }
        lemma_count_before(u, name);
        if precedes(v.last().0, name) {
            assert forall|j: int| 0 <= j < v.len() - 1 implies precedes(#[trigger] v[j].0, name) by {
                assert(precedes(v[j].0, v[v.len() - 1].0));
                lemma_precedes_transitive(v[j].0, v.last().0, name);
            }
            if count_before(u, name) < u.len() {
                let j = count_before(u, name) as int;
                assert(precedes(u[j].0, name));
            }
        }
        assert forall|j: int| 0 <= j < count_before(v, name) implies precedes(#[trigger] v[j].0, name) by {
            if j < u.len() {
                assert(u[j] == v[j]);
            }
        }
        assert forall|j: int| count_before(v, name) <= j < v.len() implies !precedes(#[trigger] v[j].0, name) by {
            if j < u.len() {
                assert(u[j] == v[j]);
            }
        }
    }
}

pub proof fn lemma_total_take(v: Seq<Entry>, k: int)
    requires
        0 <= k <= v.len(),
    ensures
        0 <= total(v.take(k)) <= total(v),
    decreases v.len() - k,
{
    if k < v.len() {
        lemma_total_take(v, k + 1);
        assert(v.take(k + 1).drop_last() =~= v.take(k));
    } else {
        assert(v.take(k) =~= v);
    }
    lemma_total_nonneg(v.take(k));
}

proof fn lemma_total_nonneg(v: Seq<Entry>)
    ensures
        total(v) >= 0,
    decreases v.len(),
{
    if v.len() > 0 {
        lemma_total_nonneg(v.drop_last());
    }
}

/// Lexicographic order of two byte strings, as `precedes` states it.
pub(crate) fn precedes_exec(a: &[u8], b: &[u8]) -> (r: bool)
    ensures
        r == precedes(a@, b@),
{
    let mut i: usize = 0;
    proof {
        assert(a@.skip(0) =~= a@);
        assert(b@.skip(0) =~= b@);
    }
    while i < a.len() && i < b.len()
        invariant
            i <= a@.len(),
            i <= b@.len(),
            precedes(a@, b@) == precedes(a@.skip(i as int), b@.skip(i as int)),
        decreases a@.len() - i,
    {
        if a[i] != b[i] {
            return a[i] < b[i];
        }
        proof {
            assert(a@.skip(i as int).drop_first() =~= a@.skip(i + 1));
            assert(b@.skip(i as int).drop_first() =~= b@.skip(i + 1));
        }
        i = i + 1;
    }
    i == a.len() && i < b.len()
}

pub proof fn lemma_sorted_distinct(v: Seq<Entry>, i: int, j: int)
    requires
        sorted(v),
        0 <= i < v.len(),
        0 <= j < v.len(),
        i != j,
    ensures
        v[i].0 != v[j].0,
{
    if i < j {
        assert(precedes(v[i].0, v[j].0));
        if v[i].0 == v[j].0 {
            lemma_precedes_irreflexive(v[i].0);
        }
    } else {
        assert(precedes(v[j].0, v[i].0));
        if v[i].0 == v[j].0 {
            lemma_precedes_irreflexive(v[i].0);
        }
    }
}

/// Inserting a new name at its place keeps a snapshot sorted.
/// Inserting a new name at its place keeps a snapshot sorted.
proof fn lemma_insert_sorted(v: Seq<Entry>, e: Entry)
    requires
        sorted(v),
        forall|i: int| 0 <= i < v.len() ==> #[trigger] v[i].0 != e.0,
    ensures
        sorted(v.insert(count_before(v, e.0) as int, e)),
{
    let k = count_before(v, e.0) as int;
    lemma_count_before(v, e.0);
    v.insert_ensures(k, e);
    let w = v.insert(k, e);
    assert forall|m: int| k <= m < v.len() implies precedes(e.0, #[trigger] v[m].0) by {
        lemma_precedes_total(v[m].0, e.0);
    }
    assert forall|i: int, j: int| 0 <= i < j < w.len() implies precedes(#[trigger] w[i].0, #[trigger] w[j].0) by {
        lemma_insert_pair(v, e, k, i, j);
    }
}

proof fn lemma_insert_pair(v: Seq<Entry>, e: Entry, k: int, i: int, j: int)
    requires
        sorted(v),
        0 <= k <= v.len(),
        forall|m: int| 0 <= m < k ==> precedes(#[trigger] v[m].0, e.0),
        forall|m: int| k <= m < v.len() ==> precedes(e.0, #[trigger] v[m].0),
        0 <= i < j < v.len() + 1,
    ensures
        precedes(v.insert(k, e)[i].0, v.insert(k, e)[j].0),
{
    v.insert_ensures(k, e);
    let w = v.insert(k, e);
    if j < k {
        assert(w[i] == v[i] && w[j] == v[j]);
    } else if j == k {
        assert(w[i] == v[i]);
    } else if i < k {
        assert(w[i] == v[i] && w[j] == v[j - 1]);
        lemma_precedes_transitive(v[i].0, e.0, v[j - 1].0);
    } else if i == k {
        assert(w[j] == v[j - 1]);
    } else {
        assert(w[i] == v[i - 1] && w[j] == v[j - 1]);
    }
}

#[derive(Clone, Copy, Debug, PartialEq, Eq)]
struct File {
    name: [u8; 12],
    name_len: u8,
    data: [u8; 64],
    data_len: u8,
}

impl File {
    spec fn entry(self) -> Entry {
        (self.name@.take(self.name_len as int), self.data@.take(self.data_len as int))
    }

    /// Lengths in bounds and every byte past them zero.
    spec fn canonical(self) -> bool {
        &&& self.name_len <= 12
        &&& self.data_len <= 64
        &&& forall|i: int| self.name_len <= i < 12 ==> self.name@[i] == 0
        &&& forall|i: int| self.data_len <= i < 64 ==> self.data@[i] == 0
    }

    fn empty() -> (f: File)
        ensures
            f.canonical(),
            f.name_len == 0,
            f.data_len == 0,
    {
        File { name: [0u8; 12], name_len: 0, data: [0u8; 64], data_len: 0 }
    }

    /// A file holding `name` and `value`, zero past both.
    fn holding(name: &[u8], value: &[u8]) -> (f: File)
        requires
            name@.len() <= 12,
            value@.len() <= 64,
        ensures
            f.canonical(),
            f.entry() == (name@, value@),
    {
        let mut n = [0u8; 12];
        let mut i: usize = 0;
        while i < name.len()
            invariant
                i <= name@.len() <= 12,
                forall|k: int| 0 <= k < i ==> n@[k] == name@[k],
                forall|k: int| i <= k < 12 ==> n@[k] == 0,
            decreases name@.len() - i,
        {
            n[i] = name[i];
            i = i + 1;
        }
        let mut d = [0u8; 64];
        let mut j: usize = 0;
        while j < value.len()
            invariant
                j <= value@.len() <= 64,
                forall|k: int| 0 <= k < j ==> d@[k] == value@[k],
                forall|k: int| j <= k < 64 ==> d@[k] == 0,
            decreases value@.len() - j,
        {
            d[j] = value[j];
            j = j + 1;
        }
        let f = File { name: n, name_len: name.len() as u8, data: d, data_len: value.len() as u8 };
        proof {
            assert(f.entry().0 =~= name@);
            assert(f.entry().1 =~= value@);
        }
        f
    }

    fn name(&self) -> (r: &[u8])
        requires
            self.canonical(),
        ensures
            r@ == self.entry().0,
    {
        &self.name[0..self.name_len as usize]
    }

    fn value(&self) -> (r: &[u8])
        requires
            self.canonical(),
        ensures
            r@ == self.entry().1,
    {
        &self.data[0..self.data_len as usize]
    }
}

spec fn entries_of(files: Seq<File>, count: int) -> Seq<Entry> {
    Seq::new(count as nat, |i: int| files[i].entry())
}

/// Files laid out as a snapshot: canonical, empty past `count`, and valid.
spec fn laid_out(files: Seq<File>, count: int) -> bool {
    &&& files.len() == 4
    &&& 0 <= count <= 4
    &&& forall|i: int| 0 <= i < 4 ==> (#[trigger] files[i]).canonical()
    &&& forall|i: int| count <= i < 4 ==> (#[trigger] files[i]).name_len == 0 && files[i].data_len == 0
    &&& snapshot_valid(entries_of(files, count))
}

/// At most four files, kept in name order.
#[derive(Clone, Copy, Debug, PartialEq, Eq)]
pub struct Snapshot {
    files: [File; 4],
    count: u8,
}

impl View for Snapshot {
    type V = Seq<Entry>;

    closed spec fn view(&self) -> Seq<Entry> {
        entries_of(self.files@, self.count as int)
    }
}

/// Bytes of data in the first `count` files.
fn data_total(files: &[File; 4], count: usize) -> (r: usize)
    requires
        count <= 4,
        forall|i: int| 0 <= i < 4 ==> (#[trigger] files@[i]).canonical(),
    ensures
        r == total(entries_of(files@, count as int)),
{
    let mut sum: usize = 0;
    let mut i: usize = 0;
    while i < count
        invariant
            i <= count <= 4,
            forall|k: int| 0 <= k < 4 ==> (#[trigger] files@[k]).canonical(),
            sum == total(entries_of(files@, i as int)),
            sum <= 64 * i,
        decreases count - i,
    {
        proof {
            assert(entries_of(files@, i + 1).drop_last() =~= entries_of(files@, i as int));
        }
        sum = sum + files[i].data_len as usize;
        i = i + 1;
    }
    sum
}

impl Snapshot {
    #[verifier::type_invariant]
    spec fn well_formed(&self) -> bool {
        laid_out(self.files@, self.count as int)
    }

    /// The snapshot with no files.
    pub fn empty() -> (s: Snapshot)
        ensures
            s@ == Seq::<Entry>::empty(),
            snapshot_valid(s@),
    {
        let f = File::empty();
        let s = Snapshot { files: [f; 4], count: 0 };
        proof {
            assert(entries_of(s.files@, 0) =~= Seq::<Entry>::empty());
        }
        s
    }

    /// The files in name order.
    pub fn entries(&self) -> (r: Vec<(&[u8], &[u8])>)
        ensures
            snapshot_valid(self@),
            r@.len() == self@.len(),
            forall|i: int| 0 <= i < r@.len() ==> (#[trigger] r@[i]).0@ == self@[i].0 && r@[i].1@ == self@[i].1,
    {
        proof {
            use_type_invariant(self);
        }
        let mut out: Vec<(&[u8], &[u8])> = Vec::new();
        let mut i: usize = 0;
        while i < self.count as usize
            invariant
                i <= self.count <= 4,
                laid_out(self.files@, self.count as int),
                out@.len() == i,
                forall|k: int| 0 <= k < i ==> (#[trigger] out@[k]).0@ == self@[k].0 && out@[k].1@ == self@[k].1,
            decreases self.count - i,
        {
            out.push((self.files[i].name(), self.files[i].value()));
            i = i + 1;
        }
        out
    }

    /// The data stored under `name`.
    pub fn get(&self, name: &[u8]) -> (r: Option<&[u8]>)
        ensures
            snapshot_valid(self@),
            match r {
                Some(d) => exists|i: int| 0 <= i < self@.len() && #[trigger] self@[i].0 == name@ && self@[i].1 == d@,
                None => forall|i: int| 0 <= i < self@.len() ==> #[trigger] self@[i].0 != name@,
            },
    {
        proof {
            use_type_invariant(self);
        }
        let mut i: usize = 0;
        while i < self.count as usize
            invariant
                i <= self.count <= 4,
                laid_out(self.files@, self.count as int),
                forall|k: int| 0 <= k < i ==> #[trigger] self@[k].0 != name@,
            decreases self.count - i,
        {
            if same_bytes(self.files[i].name(), name) {
                let d = self.files[i].value();
                proof {
                    assert(self@[i as int].0 == name@);
                }
                return Some(d);
            }
            i = i + 1;
        }
        None
    }
}

/// Whether every byte of `name` may appear in a file name and its length is
/// between one and twelve.
fn valid_name(name: &[u8]) -> (r: bool)
    ensures
        r == name_valid(name@),
{
    if name.len() == 0 || name.len() > 12 {
        return false;
    }
    let mut i: usize = 0;
    while i < name.len()
        invariant
            i <= name@.len(),
            forall|k: int| 0 <= k < i ==> name_byte(#[trigger] name@[k]),
        decreases name@.len() - i,
    {
        let b = name[i];
        if !((0x30 <= b && b <= 0x39) || (0x41 <= b && b <= 0x5a) || (0x61 <= b && b <= 0x7a) || b == 0x2e || b
            == 0x5f || b == 0x2d) {
            return false;
        }
        i = i + 1;
    }
    true
}

/// The index of the file named `name` among the first `count`.
fn position(files: &[File; 4], count: usize, name: &[u8]) -> (r: Option<usize>)
    requires
        count <= 4,
        forall|i: int| 0 <= i < 4 ==> (#[trigger] files@[i]).canonical(),
    ensures
        match r {
            Some(i) => i < count && entries_of(files@, count as int)[i as int].0 == name@,
            None => forall|i: int| 0 <= i < count ==> #[trigger] entries_of(files@, count as int)[i].0 != name@,
        },
{
    let mut i: usize = 0;
    while i < count
        invariant
            i <= count <= 4,
            forall|k: int| 0 <= k < 4 ==> (#[trigger] files@[k]).canonical(),
            forall|k: int| 0 <= k < i ==> #[trigger] entries_of(files@, count as int)[k].0 != name@,
        decreases count - i,
    {
        if same_bytes(files[i].name(), name) {
            return Some(i);
        }
        i = i + 1;
    }
    None
}

/// How many of the first `count` files precede `name`.
fn preceding(files: &[File; 4], count: usize, name: &[u8]) -> (r: usize)
    requires
        count <= 4,
        forall|i: int| 0 <= i < 4 ==> (#[trigger] files@[i]).canonical(),
    ensures
        r == count_before(entries_of(files@, count as int), name@),
{
    let mut k: usize = 0;
    let mut i: usize = 0;
    while i < count
        invariant
            i <= count <= 4,
            k <= i,
            forall|m: int| 0 <= m < 4 ==> (#[trigger] files@[m]).canonical(),
            k == count_before(entries_of(files@, i as int), name@),
        decreases count - i,
    {
        proof {
            assert(entries_of(files@, i + 1).drop_last() =~= entries_of(files@, i as int));
        }
        if precedes_exec(files[i].name(), name) {
            k = k + 1;
        }
        i = i + 1;
    }
    k
}

impl Snapshot {
    /// Stores `value` under `name`, keeping the files in name order; a
    /// refusal leaves the snapshot as it was.
    pub fn put(&mut self, name: &[u8], value: &[u8]) -> (r: Result<(), Error>)
        ensures
            snapshot_valid(final(self)@),
            r is Ok ==> stored(old(self)@, final(self)@, name@, value@),
            match put_spec(old(self)@, name@, value@) {
                Ok(n) => r is Ok && final(self)@ == n,
                Err(e) => r == Err::<(), Error>(e) && final(self)@ == old(self)@,
            },
    {
        proof {
            use_type_invariant(&*self);
        }
        let ghost v = self@;
        if !valid_name(name) || value.len() > 64 {
            return Err(Error::Bounds);
        }
        let count = self.count as usize;
        let mut files = self.files;
        let file = File::holding(name, value);
        let mut new_count = count;
        let ghost next: Seq<Entry>;
        match position(&files, count, name) {
            Some(idx) => {
                files[idx] = file;
                proof {
                    next = v.update(idx as int, (name@, value@));
                    lemma_stored_update(v, idx as int, name@, value@);
                    assert(entries_of(files@, count as int) =~= next);
                    assert forall|m: int| 0 <= m < 4 implies (#[trigger] files@[m]).canonical() by {
                        if m != idx {
                            assert(files@[m] == self.files@[m]);
                        }
                    }
                    assert forall|i: int| 0 <= i < v.len() && #[trigger] v[i].0 == name@ implies i == idx by {
                        if i != idx {
                            lemma_sorted_distinct(v, i, idx as int);
                        }
                    }
                    assert(sorted(next)) by {
                        assert forall|i: int, j: int| 0 <= i < j < next.len() implies precedes(
                            #[trigger] next[i].0,
                            #[trigger] next[j].0,
                        ) by {
                            assert(next[i].0 == v[i].0 && next[j].0 == v[j].0);
                        }
                    }
                }
            },
            None => {
                if count >= 4 {
                    return Err(Error::Bounds);
                }
                let k = preceding(&files, count, name);
                proof {
                    lemma_count_before(v, name@);
                }
                let ghost old_files = files@;
                let mut j = count;
                while j > k
                    invariant
                        k <= j <= count < 4,
                        files@.len() == 4,
                        forall|m: int| 0 <= m < j ==> files@[m] == old_files[m],
                        forall|m: int| j < m <= count ==> files@[m] == old_files[m - 1],
                        forall|m: int| j == m || count < m < 4 ==> files@[m] == old_files[m],
                    decreases j - k,
                {
                    files[j] = files[j - 1];
                    j = j - 1;
                }
                files[k] = file;
                new_count = count + 1;
                proof {
                    next = v.insert(k as int, (name@, value@));
                    lemma_stored_insert(v, k as int, name@, value@);
                    v.insert_ensures(k as int, (name@, value@));
                    assert(entries_of(files@, new_count as int) =~= next) by {
                        assert forall|m: int| 0 <= m < next.len() implies entries_of(files@, new_count as int)[m]
                            == next[m] by {
                            if m < k {
                            } else if m == k {
                            } else {
                                assert(next[m] == v[m - 1]);
                            }
                        }
                    }
                    lemma_insert_sorted(v, (name@, value@));
                    assert forall|m: int| 0 <= m < 4 implies (#[trigger] files@[m]).canonical() by {
                        if m != k {
                            assert(old_files[m].canonical() && (m > 0 ==> old_files[m - 1].canonical()));
                        }
                    }
                    assert forall|m: int| new_count <= m < 4 implies (#[trigger] files@[m]).name_len == 0
                        && files@[m].data_len == 0 by {
                        assert(files@[m] == old_files[m]);
                    }
                }
            },
        }
        if data_total(&files, new_count) > 128 {
            return Err(Error::Bounds);
        }
        proof {
            assert(entries_of(files@, new_count as int) == next);
            assert(laid_out(self.files@, self.count as int));
            assert forall|i: int| 0 <= i < next.len() implies name_valid(#[trigger] next[i].0) && next[i].1.len() <= 64 by {
                if next[i].0 != name@ {
                    assert(exists|m: int| 0 <= m < v.len() && v[m] == next[i]);
                }
            }
        }
        *self = Snapshot { files, count: new_count as u8 };
        Ok(())
    }
}

pub open spec fn zero_bytes(n: int) -> Seq<u8> {
    Seq::new(n as nat, |i: int| 0u8)
}

/// One file as stored: name length, data length, name, data.
pub open spec fn entry_bytes(e: Entry) -> Seq<u8> {
    seq![e.0.len() as u8, e.1.len() as u8] + e.0 + e.1
}

pub open spec fn body(v: Seq<Entry>) -> Seq<u8>
    decreases v.len(),
{
    if v.len() == 0 {
        Seq::empty()
    } else {
        body(v.drop_last()) + entry_bytes(v.last())
    }
}

/// `RARDAT00`, the tag of an encoded snapshot.
pub open spec fn snapshot_tag() -> Seq<u8> {
    seq![0x52u8, 0x41, 0x52, 0x44, 0x41, 0x54, 0x30, 0x30]
}

pub open spec fn snapshot_header(v: Seq<Entry>) -> Seq<u8> {
    snapshot_tag() + seq![v.len() as u8] + zero_bytes(7)
}

/// The 256-byte encoding: tag, file count, seven zero bytes, the files in
/// order, then zeros.
pub open spec fn encode_spec(v: Seq<Entry>) -> Seq<u8> {
    snapshot_header(v) + body(v) + zero_bytes(240 - body(v).len())
}

proof fn lemma_body_len(v: Seq<Entry>)
    requires
        forall|i: int| 0 <= i < v.len() ==> (#[trigger] v[i]).0.len() <= 12,
    ensures
        body(v).len() <= 14 * v.len() + total(v),
    decreases v.len(),
{
    if v.len() > 0 {
        let u = v.drop_last();
        assert forall|i: int| 0 <= i < u.len() implies (#[trigger] u[i]).0.len() <= 12 by {
            assert(u[i] == v[i]);
        }
        lemma_body_len(u);
    }
}

/// The encoding of a prefix of the files is a prefix of the encoding.
proof fn lemma_body_prefix(v: Seq<Entry>, j: int)
    requires
        0 <= j <= v.len(),
    ensures
        body(v.take(j)).len() <= body(v).len(),
        body(v).take(body(v.take(j)).len() as int) == body(v.take(j)),
    decreases v.len(),
{
    if j == v.len() {
        assert(v.take(j) =~= v);
        assert(body(v).take(body(v).len() as int) =~= body(v));
    } else {
        let u = v.drop_last();
        assert(u.take(j) =~= v.take(j));
        lemma_body_prefix(u, j);
        assert(body(v).take(body(v.take(j)).len() as int) =~= body(u).take(body(u.take(j)).len() as int));
    }
}

/// Copies `src` into `out` at `at`.
fn put_bytes(out: &mut [u8; 256], at: usize, src: &[u8])
    requires
        at + src@.len() <= 256,
    ensures
        final(out)@ == old(out)@.take(at as int) + src@ + old(out)@.skip(at + src@.len()),
{
    let mut i: usize = 0;
    while i < src.len()
        invariant
            at + src@.len() <= 256,
            i <= src@.len(),
            out@.len() == 256,
            forall|m: int| 0 <= m < at ==> out@[m] == old(out)@[m],
            forall|m: int| 0 <= m < i ==> out@[at + m] == src@[m],
            forall|m: int| at + i <= m < 256 ==> out@[m] == old(out)@[m],
        decreases src@.len() - i,
    {
        out[at + i] = src[i];
        i = i + 1;
    }
    assert(out@ =~= old(out)@.take(at as int) + src@ + old(out)@.skip(at + src@.len()));
}

impl Snapshot {
    /// The 256-byte encoding.
    #[verifier::rlimit(40)]
    pub fn encode(&self) -> (r: [u8; 256])
        ensures
            r@ == encode_spec(self@),
    {
        proof {
            use_type_invariant(self);
        }
        let ghost v = self@;
        let mut out = [0u8; 256];
        out[0] = 0x52;
        out[1] = 0x41;
        out[2] = 0x52;
        out[3] = 0x44;
        out[4] = 0x41;
        out[5] = 0x54;
        out[6] = 0x30;
        out[7] = 0x30;
        out[8] = self.count;
        let mut offset: usize = 16;
        let mut i: usize = 0;
        proof {
            assert(v.take(0) =~= Seq::<Entry>::empty());
            assert(out@ =~= snapshot_header(v) + body(v.take(0)) + zero_bytes(240));
        }
        while i < self.count as usize
            invariant
                i <= self.count <= 4,
                laid_out(self.files@, self.count as int),
                v == self@,
                offset == 16 + body(v.take(i as int)).len(),
                body(v.take(i as int)).len() <= 14 * i + total(v.take(i as int)),
                total(v.take(i as int)) <= 128,
                out@ == snapshot_header(v) + body(v.take(i as int)) + zero_bytes(240 - body(v.take(i as int)).len()),
            decreases self.count - i,
        {
            let ghost before = out@;
            let f = self.files[i];
            let name = f.name();
            let value = f.value();
            proof {
                assert(v.take(i + 1).drop_last() =~= v.take(i as int));
                lemma_total_take(v, i + 1);
                lemma_total_nonneg(v.take(i as int));
                assert(v[i as int] == f.entry());
            }
            out[offset] = f.name_len;
            out[offset + 1] = f.data_len;
            put_bytes(&mut out, offset + 2, name);
            put_bytes(&mut out, offset + 2 + name.len(), value);
            proof {
                let e = v[i as int];
                assert(body(v.take(i + 1)) == body(v.take(i as int)) + entry_bytes(e));
                assert(out@ =~= snapshot_header(v) + body(v.take(i + 1)) + zero_bytes(
                    240 - body(v.take(i + 1)).len(),
                ));
            }
            offset = offset + 2 + name.len() + value.len();
            i = i + 1;
        }
        proof {
            assert(v.take(i as int) =~= v);
        }
        out
    }
}


/// Where the `k`-th file sits in an encoding, and that it fits.
proof fn lemma_entry_at(v: Seq<Entry>, k: int, raw: Seq<u8>)
    requires
        snapshot_valid(v),
        encode_spec(v) == raw,
        0 <= k < v.len(),
    ensures
        ({
            let at = 16 + body(v.take(k)).len();
            let e = entry_bytes(v[k]);
            &&& at + e.len() <= 200
            &&& 16 + body(v.take(k + 1)).len() == at + e.len()
            &&& forall|t: int| 0 <= t < e.len() ==> raw[at + t] == e[t]
        }),
{
    lemma_body_len(v);
    lemma_total_nonneg(v);
    lemma_body_prefix(v, k + 1);
    assert(v.take(k + 1).drop_last() =~= v.take(k));
    let b = body(v.take(k));
    let e = entry_bytes(v[k]);
    assert(body(v.take(k + 1)) == b + e);
    assert forall|t: int| 0 <= t < e.len() implies raw[16 + b.len() + t] == e[t] by {
        assert(raw[16 + b.len() + t] == body(v)[b.len() + t]);
        assert(body(v)[b.len() + t] == body(v).take(body(v.take(k + 1)).len() as int)[b.len() + t]);
    }
}

/// Two valid snapshots with the same encoding have the same files.
#[verifier::rlimit(40)]
proof fn lemma_encode_injective(v: Seq<Entry>, w: Seq<Entry>, k: int)
    requires
        snapshot_valid(v),
        snapshot_valid(w),
        encode_spec(v) == encode_spec(w),
        0 <= k <= v.len(),
    ensures
        v.len() == w.len(),
        v.take(k) == w.take(k),
    decreases k,
{
    let raw = encode_spec(v);
    assert(raw[8] == snapshot_header(v)[8]);
    assert(raw[8] == snapshot_header(w)[8]);
    if k > 0 {
        lemma_encode_injective(v, w, k - 1);
        let j = k - 1;
        lemma_entry_at(v, j, raw);
        lemma_entry_at(w, j, raw);
        let at = 16 + body(v.take(j)).len() as int;
        let ev = entry_bytes(v[j]);
        let ew = entry_bytes(w[j]);
        assert(raw[at] == ev[0] && raw[at] == ew[0]);
        assert(raw[at + 1] == ev[1] && raw[at + 1] == ew[1]);
        assert(v[j].0 =~= w[j].0) by {
            assert forall|t: int| 0 <= t < v[j].0.len() implies v[j].0[t] == w[j].0[t] by {
                assert(ev[2 + t] == v[j].0[t] && ew[2 + t] == w[j].0[t]);
                assert(raw[at + 2 + t] == ev[2 + t]);
            }
        }
        assert(v[j].1 =~= w[j].1) by {
            assert forall|t: int| 0 <= t < v[j].1.len() implies v[j].1[t] == w[j].1[t] by {
                let o = 2 + v[j].0.len();
                assert(ev[o + t] == v[j].1[t] && ew[o + t] == w[j].1[t]);
                assert(raw[at + o + t] == ev[o + t]);
            }
        }
        assert(v.take(k) =~= v.take(j).push(v[j]));
        assert(w.take(k) =~= w.take(j).push(w[j]));
    }
}

/// Every earlier file of a sorted snapshot precedes the next one, so it is
/// appended where it belongs.
proof fn lemma_next_entry(v: Seq<Entry>, k: int)
    requires
        snapshot_valid(v),
        0 <= k < v.len(),
    ensures
        put_spec(v.take(k), v[k].0, v[k].1) == Ok::<Seq<Entry>, Error>(v.take(k + 1)),
{
    let u = v.take(k);
    let e = v[k];
    assert forall|i: int| 0 <= i < u.len() implies #[trigger] u[i].0 != e.0 by {
        lemma_sorted_distinct(v, i, k);
    }
    assert(u.len() == k);
    assert(sorted(u)) by {
        assert forall|i: int, j: int| 0 <= i < j < u.len() implies precedes(#[trigger] u[i].0, #[trigger] u[j].0) by {
            assert(u[i] == v[i] && u[j] == v[j]);
        }
    }
    lemma_count_before(u, e.0);
    if count_before(u, e.0) < k {
        let j = count_before(u, e.0) as int;
        assert(u[j] == v[j]);
        assert(precedes(v[j].0, v[k].0));
    }
    assert(count_before(u, e.0) == k);
    assert(u.insert(k, e) =~= v.take(k + 1));
    lemma_total_take(v, k + 1);
}

/// Whether the bytes at `at..at + n` are all zero.
fn zero_from(raw: &[u8; 256], at: usize, n: usize) -> (r: bool)
    requires
        at + n <= 256,
    ensures
        r == (forall|i: int| at <= i < at + n ==> raw@[i] == 0),
{
    let mut i = at;
    while i < at + n
        invariant
            at <= i <= at + n <= 256,
            forall|m: int| at <= m < i ==> raw@[m] == 0,
        decreases at + n - i,
    {
        if raw[i] != 0 {
            return false;
        }
        i = i + 1;
    }
    true
}

impl Snapshot {
    /// Decodes a canonical encoding: exactly the encodings of valid snapshots
    /// are accepted, each giving back the snapshot it encodes.
    #[verifier::rlimit(60)]
    pub fn decode(raw: &[u8; 256]) -> (r: Result<Snapshot, Error>)
        ensures
            r is Ok <==> (exists|v: Seq<Entry>| snapshot_valid(v) && #[trigger] encode_spec(v) == raw@),
            forall|v: Seq<Entry>| snapshot_valid(v) && #[trigger] encode_spec(v) == raw@ ==> (r matches Ok(s) && s@ == v),
            match r {
                Ok(s) => snapshot_valid(s@) && encode_spec(s@) == raw@,
                Err(e) => e == Error::Invalid || e == Error::Bounds,
            },
    {
        let ghost target: Option<Seq<Entry>> = if exists|v: Seq<Entry>| snapshot_valid(v) && #[trigger] encode_spec(v)
            == raw@ {
            Some(choose|v: Seq<Entry>| snapshot_valid(v) && #[trigger] encode_spec(v) == raw@)
        } else {
            None
        };
        proof {
            if target is Some {
                let v = target->Some_0;
                lemma_body_len(v);
                lemma_total_nonneg(v);
                assert(raw@.take(8) =~= snapshot_tag());
                assert(raw@[8] == v.len());
                assert forall|i: int| 9 <= i < 16 implies raw@[i] == 0 by {
                    assert(raw@[i] == snapshot_header(v)[i]);
                }
            }
        }
        if raw[0] != 0x52 || raw[1] != 0x41 || raw[2] != 0x52 || raw[3] != 0x44 || raw[4] != 0x41 || raw[5] != 0x54
            || raw[6] != 0x30 || raw[7] != 0x30 || raw[8] > 4 || !zero_from(raw, 9, 7) {
            proof {
                if target is Some {
                    assert(raw@[0] == raw@.take(8)[0] && raw@[1] == raw@.take(8)[1]);
                    assert(raw@[2] == raw@.take(8)[2] && raw@[3] == raw@.take(8)[3]);
                    assert(raw@[4] == raw@.take(8)[4] && raw@[5] == raw@.take(8)[5]);
                    assert(raw@[6] == raw@.take(8)[6] && raw@[7] == raw@.take(8)[7]);
                }
            }
            return Err(Error::Invalid);
        }
        let mut result = Snapshot::empty();
        let mut at: usize = 16;
        let n = raw[8];
        let mut k: u8 = 0;
        proof {
            if target is Some {
                let v = target->Some_0;
                assert(v.take(0) =~= Seq::<Entry>::empty());
            }
        }
        while k < n
            invariant
                k <= n <= 4,
                n == raw@[8],
                16 <= at <= 256,
                snapshot_valid(result@),
                target is None ==> !(exists|w: Seq<Entry>| snapshot_valid(w) && #[trigger] encode_spec(w) == raw@),
                target is Some ==> {
                    let v = target->Some_0;
                    &&& snapshot_valid(v)
                    &&& encode_spec(v) == raw@
                    &&& v.len() == n
                    &&& result@ == v.take(k as int)
                    &&& at == 16 + body(v.take(k as int)).len()
                    &&& body(v).len() <= 184
                },
            decreases n - k,
        {
            let ghost entry_at = at;
            proof {
                if target is Some {
                    let v = target->Some_0;
                    lemma_entry_at(v, k as int, raw@);
                    let e = entry_bytes(v[k as int]);
                    assert(e.len() >= 2);
                    assert(at + 2 <= 200);
                    assert(raw@[at as int] == e[0]);
                    assert(raw@[at + 1] == e[1]);
                    assert(e[0] == v[k as int].0.len() as u8 && e[1] == v[k as int].1.len() as u8);
                    assert(name_valid(v[k as int].0) && v[k as int].1.len() <= 64);
                }
            }
            if at + 2 > 256 {
                return Err(Error::Invalid);
            }
            let names = raw[at] as usize;
            let data = raw[at + 1] as usize;
            at = at + 2;
            if names == 0 || names > 12 || data > 64 || at + names + data > 256 {
                return Err(Error::Invalid);
            }
            let name = &raw[at..at + names];
            let value = &raw[at + names..at + names + data];
            proof {
                if target is Some {
                    let v = target->Some_0;
                    let e = v[k as int];
                    assert(names == e.0.len() && data == e.1.len());
                    assert(name@ =~= e.0) by {
                        assert forall|t: int| 0 <= t < names implies name@[t] == e.0[t] by {
                            assert(name@[t] == raw@[entry_at + 2 + t]);
                            assert(entry_bytes(e)[2 + t] == e.0[t]);
                        }
                    }
                    assert(value@ =~= e.1) by {
                        assert forall|t: int| 0 <= t < data implies value@[t] == e.1[t] by {
                            assert(value@[t] == raw@[entry_at + 2 + names + t]);
                            assert(entry_bytes(e)[2 + names + t] == e.1[t]);
                        }
                    }
                    assert forall|i: int| 0 <= i < result@.len() implies #[trigger] result@[i].0 != name@ by {
                        lemma_sorted_distinct(v, i, k as int);
                    }
                    lemma_next_entry(v, k as int);
                }
            }
            if result.get(name).is_some() {
                return Err(Error::Invalid);
            }
            match result.put(name, value) {
                Ok(()) => {},
                Err(e) => {
                    return Err(e);
                },
            }
            at = at + names + data;
            k = k + 1;
        }
        let encoded = result.encode();
        proof {
            if target is Some {
                let v = target->Some_0;
                assert(v.take(k as int) =~= v);
            }
        }
        if !same_bytes(&encoded, raw) {
            return Err(Error::Invalid);
        }
        proof {
            assert(encode_spec(result@) == raw@);
            assert forall|w: Seq<Entry>| snapshot_valid(w) && #[trigger] encode_spec(w) == raw@ implies result@ == w by {
                lemma_encode_injective(result@, w, result@.len() as int);
                assert(result@.take(result@.len() as int) =~= result@);
                assert(w.take(w.len() as int) =~= w);
            }
        }
        Ok(result)
    }
}

pub open spec fn all_zero(s: Seq<u8>) -> bool {
    forall|i: int| 0 <= i < s.len() ==> #[trigger] s[i] == 0
}

/// `RARVLT00`, the tag of a vault header.
pub open spec fn vault_tag() -> Seq<u8> {
    seq![0x52u8, 0x41, 0x52, 0x56, 0x4c, 0x54, 0x30, 0x30]
}

/// A vault header: tag, format 0.0.0.2, version 1, 512-byte sectors, the
/// slot count at 20, layout 2, a nonzero identity and key, zeros up to the
/// digest, and the SHA-256 of the first 480 bytes in the last 32.
pub open spec fn header_ok(h: Seq<u8>) -> bool {
    &&& h.len() == 512
    &&& h.take(8) == vault_tag()
    &&& h.subrange(8, 12) == seq![0u8, 0, 0, 2]
    &&& le32(h, 12) == 1
    &&& le32(h, 16) == 512
    &&& le64(h, 24) == 2
    &&& !all_zero(h.subrange(32, 64))
    &&& !all_zero(h.subrange(64, 96))
    &&& all_zero(h.subrange(100, 480))
    &&& sha256_digest(h.take(480)) == h.subrange(480, 512)
}

pub struct DescriptorView {
    pub header: Seq<u8>,
    pub key: Seq<u8>,
    pub prefix: Seq<u8>,
    pub slots: u32,
}

/// The descriptor two header sectors give for a device of `capacity`
/// sectors: both copies identical and well formed, and room for exactly the
/// slots they declare, three sectors each after the two headers.
pub open spec fn descriptor_spec(first: Seq<u8>, second: Seq<u8>, capacity: u32) -> Result<DescriptorView, Error> {
    if first != second || !header_ok(first) {
        Err(Error::Invalid)
    } else {
        let slots = le32(first, 20);
        if slots == 0 || slots > 64 || capacity != 2 + slots * 3 {
            Err(Error::Bounds)
        } else {
            Ok(DescriptorView {
                header: first,
                key: first.subrange(64, 96),
                prefix: first.subrange(96, 100),
                slots: slots as u32,
            })
        }
    }
}

/// The nonce of a slot: the header's four-byte prefix, then the slot number.
pub open spec fn nonce_spec(d: DescriptorView, slot: u32) -> Seq<u8> {
    d.prefix + le_bytes(slot as int, 8)
}

/// `RAR-VAULT-AAD-V0`.
pub open spec fn aad_tag() -> Seq<u8> {
    seq![0x52u8, 0x41, 0x52, 0x2d, 0x56, 0x41, 0x55, 0x4c, 0x54, 0x2d, 0x41, 0x41, 0x44, 0x2d, 0x56, 0x30]
}

/// Associated data for a payload: the tag, the header's digest and the
/// payload's first 64 bytes.
pub open spec fn aad_spec(d: DescriptorView, first64: Seq<u8>) -> Seq<u8> {
    aad_tag() + sha256_digest(d.header) + first64
}

/// Immutable descriptor of one vault, read from its two header sectors. It
/// grants a block device no authority.
#[derive(Clone, Copy)]
pub struct Descriptor {
    header: [u8; 512],
    key: [u8; 32],
    prefix: [u8; 4],
    slots: u32,
}

impl View for Descriptor {
    type V = DescriptorView;

    closed spec fn view(&self) -> DescriptorView {
        DescriptorView { header: self.header@, key: self.key@, prefix: self.prefix@, slots: self.slots }
    }
}

/// Whether `a[at..at + n]` equals `b`.
fn same_at(a: &[u8], at: usize, b: &[u8]) -> (r: bool)
    requires
        at + b@.len() <= a@.len(),
    ensures
        r == (a@.subrange(at as int, at + b@.len()) == b@),
{
    let mut i: usize = 0;
    let n = a.len();
    while i < b.len()
        invariant
            n == a@.len(),
            at + b@.len() <= a@.len() <= usize::MAX,
            i <= b@.len(),
            forall|k: int| 0 <= k < i ==> a@[at + k] == b@[k],
        decreases b@.len() - i,
    {
        if a[at + i] != b[i] {
            proof {
                assert(a@.subrange(at as int, at + b@.len())[i as int] != b@[i as int]);
            }
            return false;
        }
        i = i + 1;
    }
    proof {
        assert(a@.subrange(at as int, at + b@.len()) =~= b@);
    }
    true
}

/// Whether `a[from..to]` is all zero.
fn zero_span(a: &[u8], from: usize, to: usize) -> (r: bool)
    requires
        from <= to <= a@.len(),
    ensures
        r == all_zero(a@.subrange(from as int, to as int)),
{
    let mut i = from;
    while i < to
        invariant
            from <= i <= to <= a@.len(),
            forall|k: int| from <= k < i ==> a@[k] == 0,
        decreases to - i,
    {
        if a[i] != 0 {
            proof {
                assert(a@.subrange(from as int, to as int)[i - from] != 0);
            }
            return false;
        }
        i = i + 1;
    }
    proof {
        assert forall|k: int| 0 <= k < to - from implies #[trigger] a@.subrange(from as int, to as int)[k] == 0 by {
            assert(a@[from + k] == 0);
        }
    }
    true
}

impl Descriptor {
    /// Validates the two header sectors against the device's capacity.
    pub fn decode(first: [u8; 512], second: [u8; 512], capacity: u32) -> (r: Result<Descriptor, Error>)
        ensures
            match descriptor_spec(first@, second@, capacity) {
                Ok(d) => r matches Ok(x) && x@ == d,
                Err(e) => r matches Err(x) && x == e,
            },
    {
        let tag: [u8; 8] = [0x52, 0x41, 0x52, 0x56, 0x4c, 0x54, 0x30, 0x30];
        let format: [u8; 4] = [0, 0, 0, 2];
        proof {
            assert(tag@ =~= vault_tag());
            assert(format@ =~= seq![0u8, 0, 0, 2]);
            assert(first@.take(8) =~= first@.subrange(0, 8));
        }
        if !same_bytes(&first, &second) || !same_at(&first, 0, &tag) || !same_at(&first, 8, &format) || read32(
            &first,
            12,
        ) != 1 || read32(&first, 16) != 512 || read64(&first, 24) != 2 || zero_span(&first, 32, 64) || zero_span(
            &first,
            64,
            96,
        ) || !zero_span(&first, 100, 480) {
            return Err(Error::Invalid);
        }
        let digest = crypto::sha256(&first[0..480]);
        if !same_at(&first, 480, &digest) {
            return Err(Error::Invalid);
        }
        let slots = read32(&first, 20);
        if slots == 0 || slots > 64 || capacity != 2 + slots * 3 {
            return Err(Error::Bounds);
        }
        let mut key = [0u8; 32];
        let mut i: usize = 0;
        while i < 32
            invariant
                i <= 32,
                forall|k: int| 0 <= k < i ==> key@[k] == first@[64 + k],
            decreases 32 - i,
        {
            key[i] = first[64 + i];
            i = i + 1;
        }
        let prefix: [u8; 4] = [first[96], first[97], first[98], first[99]];
        let d = Descriptor { header: first, key, prefix, slots };
        proof {
            assert(d@.key =~= first@.subrange(64, 96));
            assert(d@.prefix =~= first@.subrange(96, 100));
        }
        Ok(d)
    }

    fn nonce(&self, slot: u32) -> (r: [u8; 12])
        ensures
            r@ == nonce_spec(self@, slot),
    {
        let mut out = [0u8; 12];
        out[0] = self.prefix[0];
        out[1] = self.prefix[1];
        out[2] = self.prefix[2];
        out[3] = self.prefix[3];
        put_le(&mut out, 4, slot as u64, 8);
        proof {
            lemma_le_bytes_len(slot as int, 8);
            assert(out@ =~= nonce_spec(self@, slot));
        }
        out
    }

    fn aad(&self, first64: &[u8]) -> (r: [u8; 112])
        requires
            first64@.len() == 64,
        ensures
            r@ == aad_spec(self@, first64@),
    {
        let mut out = [0u8; 112];
        let tag: [u8; 16] = [0x52, 0x41, 0x52, 0x2d, 0x56, 0x41, 0x55, 0x4c, 0x54, 0x2d, 0x41, 0x41, 0x44, 0x2d, 0x56, 0x30];
        let digest = crypto::sha256(&self.header);
        let mut i: usize = 0;
        while i < 112
            invariant
                i <= 112,
                first64@.len() == 64,
                digest@ == sha256_digest(self@.header),
                forall|k: int| 0 <= k < i ==> out@[k] == (tag@ + digest@ + first64@)[k],
            decreases 112 - i,
        {
            out[i] = if i < 16 {
                tag[i]
            } else if i < 48 {
                digest[i - 16]
            } else {
                first64[i - 48]
            };
            i = i + 1;
        }
        proof {
            assert(tag@ =~= aad_tag());
            assert(out@ =~= aad_spec(self@, first64@));
        }
        out
    }
}

/// A block device of 512-byte sectors, implemented by the runtime. Reads,
/// writes and flushes may fail or tear; the vault assumes nothing of them.
pub trait Block {
    fn read(&mut self, sector: u32) -> Result<[u8; 512], Error>;

    fn write(&mut self, sector: u32, bytes: &[u8; 512]) -> Result<(), Error>;

    fn flush(&mut self) -> Result<(), Error>;
}

/// A sector of one repeated byte: `0xa5` reserves a slot, `0xc3` commits it.
pub open spec fn filled(value: u8) -> Seq<u8> {
    Seq::new(512, |i: int| value)
}

/// Only zeros and `value`, and at least one `value`: a marker, possibly torn.
pub open spec fn marker_spec(s: Seq<u8>, value: u8) -> bool {
    &&& forall|i: int| 0 <= i < s.len() ==> #[trigger] s[i] == 0 || s[i] == value
    &&& exists|i: int| 0 <= i < s.len() && #[trigger] s[i] == value
}

/// What a slot's three sectors hold.
#[derive(Clone, Copy, Debug, PartialEq, Eq, Structural)]
pub enum SlotKind {
    /// Never used.
    Empty,
    /// Reserved (perhaps torn) but never committed: burned for good.
    Consumed,
    /// Reserved and committed: its payload must open.
    Sealed,
    /// Anything else.
    Corrupt,
}

pub open spec fn slot_kind_spec(reserve: Seq<u8>, payload: Seq<u8>, commit: Seq<u8>) -> SlotKind {
    if all_zero(reserve) && all_zero(payload) && all_zero(commit) {
        SlotKind::Empty
    } else if reserve != filled(0xa5) {
        if marker_spec(reserve, 0xa5) && all_zero(payload) && all_zero(commit) {
            SlotKind::Consumed
        } else {
            SlotKind::Corrupt
        }
    } else if all_zero(commit) {
        SlotKind::Consumed
    } else if !marker_spec(commit, 0xc3) {
        SlotKind::Corrupt
    } else {
        SlotKind::Sealed
    }
}

fn is_filled(s: &[u8; 512], value: u8) -> (r: bool)
    ensures
        r == (s@ == filled(value)),
{
    let mut i: usize = 0;
    while i < 512
        invariant
            i <= 512,
            forall|k: int| 0 <= k < i ==> s@[k] == value,
        decreases 512 - i,
    {
        if s[i] != value {
            proof {
                assert(filled(value)[i as int] == value);
            }
            return false;
        }
        i = i + 1;
    }
    proof {
        assert(s@ =~= filled(value));
    }
    true
}

fn is_marker(s: &[u8; 512], value: u8) -> (r: bool)
    requires
        value != 0,
    ensures
        r == marker_spec(s@, value),
{
    let mut seen = false;
    let mut i: usize = 0;
    while i < 512
        invariant
            i <= 512,
            value != 0,
            forall|k: int| 0 <= k < i ==> #[trigger] s@[k] == 0 || s@[k] == value,
            seen == exists|k: int| 0 <= k < i && #[trigger] s@[k] == value,
        decreases 512 - i,
    {
        if s[i] != 0 && s[i] != value {
            return false;
        }
        if s[i] == value {
            seen = true;
        }
        i = i + 1;
    }
    seen
}

/// Classifies a slot from its reservation, payload and commit sectors.
pub fn slot_kind(reserve: &[u8; 512], payload: &[u8; 512], commit: &[u8; 512]) -> (r: SlotKind)
    ensures
        r == slot_kind_spec(reserve@, payload@, commit@),
{
    proof {
        assert(reserve@.subrange(0, 512) =~= reserve@);
        assert(payload@.subrange(0, 512) =~= payload@);
        assert(commit@.subrange(0, 512) =~= commit@);
    }
    let empty_payload = zero_span(payload, 0, 512);
    let empty_commit = zero_span(commit, 0, 512);
    if zero_span(reserve, 0, 512) && empty_payload && empty_commit {
        SlotKind::Empty
    } else if !is_filled(reserve, 0xa5) {
        if is_marker(reserve, 0xa5) && empty_payload && empty_commit {
            SlotKind::Consumed
        } else {
            SlotKind::Corrupt
        }
    } else if empty_commit {
        SlotKind::Consumed
    } else if !is_marker(commit, 0xc3) {
        SlotKind::Corrupt
    } else {
        SlotKind::Sealed
    }
}

/// `RARVPY00`, the tag of a payload sector.
pub open spec fn payload_tag() -> Seq<u8> {
    seq![0x52u8, 0x41, 0x52, 0x56, 0x50, 0x59, 0x30, 0x30]
}

/// The first 64 bytes of a payload: tag, slot, revision, the previous
/// payload's digest, zeros.
pub open spec fn payload_head(slot: u32, revision: u64, digest: Seq<u8>) -> Seq<u8> {
    payload_tag() + le_bytes(slot as int, 8) + le_bytes(revision as int, 8) + digest + zero_bytes(8)
}

/// A sealed payload sector: the head, the sealed snapshot encoding and its
/// tag, zeros.
pub open spec fn payload_spec(d: DescriptorView, slot: u32, revision: u64, digest: Seq<u8>, snapshot: Seq<Entry>) -> Seq<u8> {
    let head = payload_head(slot, revision, digest);
    head + chacha_seal(d.key, nonce_spec(d, slot), aad_spec(d, head), encode_spec(snapshot)) + zero_bytes(176)
}

/// Checking a payload before decoding it: the chain position (slot, next
/// revision, previous digest), zero padding, then the seal; the plaintext.
pub open spec fn open_spec(d: DescriptorView, revision: u64, digest: Seq<u8>, slot: u32, payload: Seq<u8>) -> Result<Seq<u8>, Error> {
    if revision == u64::MAX {
        Err(Error::Bounds)
    } else if payload.take(8) != payload_tag() || le64(payload, 8) != slot || le64(payload, 16) != revision + 1
        || payload.subrange(24, 56) != digest || !all_zero(payload.subrange(56, 64)) || !all_zero(
        payload.subrange(336, 512),
    ) {
        Err(Error::Invalid)
    } else {
        match chacha_open(
            d.key,
            nonce_spec(d, slot),
            aad_spec(d, payload.take(64)),
            payload.subrange(64, 320),
            payload.subrange(320, 336),
        ) {
            None => Err(Error::Authentication),
            Some(plain) => Ok(plain),
        }
    }
}

/// How far a mount's scan of the slots has come: the first empty slot (or
/// the slot count while none is seen), whether one was seen, and the chain
/// of sealed snapshots accepted so far.
pub struct ScanState {
    pub next: u32,
    pub free: bool,
    pub revision: u64,
    pub digest: Seq<u8>,
    pub snapshot: Seq<Entry>,
}

/// The snapshot a plaintext encodes, if it encodes a valid one.
pub open spec fn decoded(plain: Seq<u8>) -> Option<Seq<Entry>> {
    if exists|v: Seq<Entry>| snapshot_valid(v) && #[trigger] encode_spec(v) == plain {
        Some(choose|v: Seq<Entry>| snapshot_valid(v) && #[trigger] encode_spec(v) == plain)
    } else {
        None
    }
}

/// One slot of the scan. An empty slot marks the first free one; after it
/// only empty slots may follow. A consumed slot is skipped. A sealed slot
/// must continue the chain, open and decode, and becomes the newest
/// snapshot. Anything else refuses the mount.
pub open spec fn scan_slot(d: DescriptorView, st: ScanState, slot: u32, reserve: Seq<u8>, payload: Seq<u8>, commit: Seq<u8>)
    -> Option<ScanState> {
    match slot_kind_spec(reserve, payload, commit) {
        SlotKind::Empty => Some(if st.free { st } else { ScanState { next: slot, free: true, ..st } }),
        SlotKind::Corrupt => None,
        SlotKind::Consumed => if st.free { None } else { Some(st) },
        SlotKind::Sealed => if st.free {
            None
        } else {
            match open_spec(d, st.revision, st.digest, slot, payload) {
                Err(_) => None,
                Ok(plain) => match decoded(plain) {
                    None => None,
                    Some(v) => Some(
                        ScanState {
                            snapshot: v,
                            revision: (st.revision + 1) as u64,
                            digest: sha256_digest(payload),
                            ..st
                        },
                    ),
                },
            }
        },
    }
}

/// The scan of the first `k` slots, whose sectors follow the two headers in
/// `sectors`, three per slot.
pub open spec fn scan_spec(d: DescriptorView, sectors: Seq<Seq<u8>>, k: nat) -> Option<ScanState>
    decreases k,
{
    if k == 0 {
        Some(ScanState { next: d.slots, free: false, revision: 0, digest: Seq::new(32, |i: int| 0u8), snapshot: Seq::empty() })
    } else {
        match scan_spec(d, sectors, (k - 1) as nat) {
            None => None,
            Some(st) => {
                let base = 2 + 3 * (k - 1);
                scan_slot(d, st, (k - 1) as u32, sectors[base], sectors[base + 1], sectors[base + 2])
            },
        }
    }
}

/// What a device whose sectors, in order, are `sectors` mounts as: its
/// descriptor, then the scan of every slot; `None` where the mount is
/// refused.
pub open spec fn recover_spec(sectors: Seq<Seq<u8>>, capacity: u32) -> Option<VaultView> {
    if sectors.len() < 2 {
        None
    } else {
        match descriptor_spec(sectors[0], sectors[1], capacity) {
            Err(_) => None,
            Ok(d) => match scan_spec(d, sectors, d.slots as nat) {
                None => None,
                Some(st) => Some(
                    VaultView {
                        descriptor: d,
                        next: st.next,
                        revision: st.revision,
                        digest: st.digest,
                        snapshot: st.snapshot,
                        readonly: st.next == d.slots,
                    },
                ),
            },
        }
    }
}

/// The bytes of a log of sector reads.
pub open spec fn read_bytes(reads: Seq<(u32, Seq<u8>)>) -> Seq<Seq<u8>> {
    Seq::new(reads.len(), |i: int| reads[i].1)
}

/// A log that read sectors `0, 1, 2, ...` in order.
pub open spec fn in_order(reads: Seq<(u32, Seq<u8>)>) -> bool {
    forall|i: int| 0 <= i < reads.len() ==> #[trigger] reads[i].0 == i
}

proof fn lemma_scan_prefix(d: DescriptorView, a: Seq<Seq<u8>>, b: Seq<Seq<u8>>, k: nat)
    requires
        a.len() >= 2 + 3 * k,
        b.len() >= 2 + 3 * k,
        forall|i: int| 0 <= i < 2 + 3 * k ==> #[trigger] a[i] == b[i],
    ensures
        scan_spec(d, a, k) == scan_spec(d, b, k),
    decreases k,
{
    if k > 0 {
        lemma_scan_prefix(d, a, b, (k - 1) as nat);
        let base = 2 + 3 * (k - 1);
        assert(a[base] == b[base] && a[base + 1] == b[base + 1] && a[base + 2] == b[base + 2]);
    }
}

/// The contents of a run of sectors.
pub open spec fn sector_contents(sectors: Seq<[u8; 512]>) -> Seq<Seq<u8>> {
    Seq::new(sectors.len(), |i: int| sectors[i]@)
}

proof fn lemma_scan_refused(d: DescriptorView, sectors: Seq<Seq<u8>>, k: nat, m: nat)
    requires
        scan_spec(d, sectors, k) is None,
        k <= m,
    ensures
        scan_spec(d, sectors, m) is None,
    decreases m - k,
{
    if k < m {
        lemma_scan_refused(d, sectors, k + 1, m);
    }
}

/// The kind of slot `j` among `sectors`.
pub open spec fn kind_at(sectors: Seq<Seq<u8>>, j: int) -> SlotKind {
    slot_kind_spec(sectors[2 + 3 * j], sectors[2 + 3 * j + 1], sectors[2 + 3 * j + 2])
}

proof fn lemma_scan_shape(d: DescriptorView, sectors: Seq<Seq<u8>>, k: nat)
    requires
        scan_spec(d, sectors, k) is Some,
    ensures
        !scan_spec(d, sectors, k)->Some_0.free ==> scan_spec(d, sectors, k)->Some_0.next == d.slots,
        scan_spec(d, sectors, k)->Some_0.free ==> scan_spec(d, sectors, k)->Some_0.next < k,
    decreases k,
{
    if k > 0 {
        lemma_scan_shape(d, sectors, (k - 1) as nat);
    }
}

proof fn lemma_scan_tail(d: DescriptorView, sectors: Seq<Seq<u8>>, m: nat)
    requires
        scan_spec(d, sectors, m) is Some,
        scan_spec(d, sectors, m)->Some_0.free,
        m <= 64,
    ensures
        ({
            let st = scan_spec(d, sectors, m)->Some_0;
            &&& scan_spec(d, sectors, st.next as nat) == Some(
                ScanState { next: d.slots, free: false, ..st },
            )
            &&& forall|j: int| st.next <= j < m ==> kind_at(sectors, j) == SlotKind::Empty
        }),
    decreases m,
{
    let st = scan_spec(d, sectors, m)->Some_0;
    lemma_scan_shape(d, sectors, m);
    let j = m - 1;
    let prev = scan_spec(d, sectors, (m - 1) as nat)->Some_0;
    lemma_scan_shape(d, sectors, (m - 1) as nat);
    assert(kind_at(sectors, j) == SlotKind::Empty);
    if prev.free {
        lemma_scan_tail(d, sectors, (m - 1) as nat);
        assert(st == prev);
    } else {
        assert(st.next == j);
        assert(prev == (ScanState { next: d.slots, free: false, ..st }));
    }
}

proof fn lemma_scan_empty_run(d: DescriptorView, sectors: Seq<Seq<u8>>, k: nat, m: nat)
    requires
        k <= m <= 64,
        scan_spec(d, sectors, k) is Some,
        forall|j: int| k <= j < m ==> kind_at(sectors, j) == SlotKind::Empty,
    ensures
        ({
            let st = scan_spec(d, sectors, k)->Some_0;
            scan_spec(d, sectors, m) == Some(
                if st.free || k == m {
                    st
                } else {
                    ScanState { next: k as u32, free: true, ..st }
                },
            )
        }),
    decreases m,
{
    if m > k {
        lemma_scan_empty_run(d, sectors, k, (m - 1) as nat);
        assert(kind_at(sectors, m - 1) == SlotKind::Empty);
    }
}

proof fn lemma_decoded_encoding(v: Seq<Entry>)
    requires
        snapshot_valid(v),
    ensures
        decoded(encode_spec(v)) == Some(v),
{
    let w = choose|w: Seq<Entry>| snapshot_valid(w) && #[trigger] encode_spec(w) == encode_spec(v);
    lemma_encode_injective(w, v, w.len() as int);
    assert(w =~= w.take(w.len() as int));
    assert(v =~= v.take(v.len() as int));
}

/// A device that mounts as `v`, with the next slot's reservation, payload
/// and commit written as a publish writes them, mounts as the published
/// vault: one slot further on, the next revision, the payload's digest and
/// exactly the published snapshot. Whatever was published last is what a
/// mount gives back.
pub proof fn law_publish_then_mount(sectors: Seq<Seq<u8>>, capacity: u32, v: VaultView, snapshot: Seq<Entry>, payload: Seq<u8>)
    requires
        sectors.len() == capacity,
        recover_spec(sectors, capacity) == Some(v),
        !v.readonly,
        snapshot_valid(snapshot),
        open_spec(v.descriptor, v.revision, v.digest, v.next, payload) == Ok::<Seq<u8>, Error>(encode_spec(snapshot)),
    ensures
        ({
            let base = 2 + 3 * v.next;
            let written = sectors.update(base, filled(0xa5)).update(base + 1, payload).update(base + 2, filled(0xc3));
            recover_spec(written, capacity) == Some(
                VaultView {
                    descriptor: v.descriptor,
                    next: (v.next + 1) as u32,
                    revision: (v.revision + 1) as u64,
                    digest: sha256_digest(payload),
                    snapshot,
                    readonly: v.next + 1 == v.descriptor.slots,
                },
            )
        }),
{
    let d = v.descriptor;
    let n = v.next;
    let base = 2 + 3 * n;
    let written = sectors.update(base, filled(0xa5)).update(base + 1, payload).update(base + 2, filled(0xc3));
    let st = scan_spec(d, sectors, d.slots as nat)->Some_0;
    lemma_scan_shape(d, sectors, d.slots as nat);
    assert(st.free && n < d.slots && capacity == 2 + 3 * d.slots);
    lemma_written(sectors, filled(0xa5), payload, filled(0xc3), base);
    lemma_scan_tail(d, sectors, d.slots as nat);
    let s0 = ScanState { next: d.slots, free: false, ..st };
    lemma_scan_prefix(d, sectors, written, n as nat);
    lemma_sealed_markers();
    assert(kind_at(written, n as int) == SlotKind::Sealed);
    lemma_decoded_encoding(snapshot);
    let s1 = ScanState {
        snapshot,
        revision: (st.revision + 1) as u64,
        digest: sha256_digest(payload),
        ..s0
    };
    assert(scan_spec(d, written, (n + 1) as nat) == Some(s1));
    assert forall|j: int| n + 1 <= j < d.slots implies kind_at(written, j) == SlotKind::Empty by {
        assert(kind_at(sectors, j) == SlotKind::Empty);
        assert(written[2 + 3 * j] == sectors[2 + 3 * j]);
        assert(written[2 + 3 * j + 1] == sectors[2 + 3 * j + 1]);
        assert(written[2 + 3 * j + 2] == sectors[2 + 3 * j + 2]);
    }
    lemma_scan_empty_run(d, written, (n + 1) as nat, d.slots as nat);
}

/// `part` is `full` with some bytes still zero: what a write of `full`
/// over a zeroed sector can leave when it is cut short.
pub open spec fn torn(part: Seq<u8>, full: Seq<u8>) -> bool {
    part.len() == full.len() && forall|i: int| 0 <= i < part.len() ==> #[trigger] part[i] == full[i] || part[i] == 0
}

/// What an interrupted publish can leave in the slot it was filling: each
/// of the three sectors untouched, torn or complete, and none written before
/// the one ahead of it was complete.
pub open spec fn interrupted(reserve: Seq<u8>, payload: Seq<u8>, commit: Seq<u8>, sealed: Seq<u8>) -> bool {
    &&& torn(reserve, filled(0xa5))
    &&& torn(payload, sealed)
    &&& torn(commit, filled(0xc3))
    &&& !all_zero(payload) ==> reserve == filled(0xa5)
    &&& !all_zero(commit) ==> reserve == filled(0xa5) && payload == sealed
}

/// A publish cut short anywhere leaves a device that still mounts, and the
/// mount gives either the vault as it was before the publish (its revision,
/// digest and snapshot) or the published one (the next revision, the
/// payload's digest and the new snapshot); never anything else.
pub proof fn law_interrupted_publish_recovers(
    sectors: Seq<Seq<u8>>,
    capacity: u32,
    v: VaultView,
    snapshot: Seq<Entry>,
    payload: Seq<u8>,
    reserve0: Seq<u8>,
    payload0: Seq<u8>,
    commit0: Seq<u8>,
)
    requires
        sectors.len() == capacity,
        recover_spec(sectors, capacity) == Some(v),
        !v.readonly,
        snapshot_valid(snapshot),
        open_spec(v.descriptor, v.revision, v.digest, v.next, payload) == Ok::<Seq<u8>, Error>(encode_spec(snapshot)),
        interrupted(reserve0, payload0, commit0, payload),
    ensures
        ({
            let base = 2 + 3 * v.next;
            let written = sectors.update(base, reserve0).update(base + 1, payload0).update(base + 2, commit0);
            &&& recover_spec(written, capacity) is Some
            &&& recover_spec(written, capacity)->Some_0.descriptor == v.descriptor
            &&& {
                let w = recover_spec(written, capacity)->Some_0;
                ||| w.revision == v.revision && w.digest == v.digest && w.snapshot == v.snapshot
                ||| w.revision == v.revision + 1 && w.digest == sha256_digest(payload) && w.snapshot == snapshot
            }
        }),
{
    let d = v.descriptor;
    let n = v.next;
    let base = 2 + 3 * n;
    let written = sectors.update(base, reserve0).update(base + 1, payload0).update(base + 2, commit0);
    let st = scan_spec(d, sectors, d.slots as nat)->Some_0;
    lemma_scan_shape(d, sectors, d.slots as nat);
    assert(st.free && n < d.slots && capacity == 2 + 3 * d.slots);
    lemma_written(sectors, reserve0, payload0, commit0, base);
    lemma_scan_tail(d, sectors, d.slots as nat);
    let s0 = ScanState { next: d.slots, free: false, ..st };
    lemma_scan_prefix(d, sectors, written, n as nat);
    lemma_sealed_markers();
    assert forall|j: int| n + 1 <= j < d.slots implies kind_at(written, j) == SlotKind::Empty by {
        assert(kind_at(sectors, j) == SlotKind::Empty);
        assert(written[2 + 3 * j] == sectors[2 + 3 * j]);
        assert(written[2 + 3 * j + 1] == sectors[2 + 3 * j + 1]);
        assert(written[2 + 3 * j + 2] == sectors[2 + 3 * j + 2]);
    }
    if !all_zero(commit0) {
        let i = choose|i: int| 0 <= i < commit0.len() && commit0[i] != 0;
        assert(commit0[i] == 0xc3);
        assert(marker_spec(commit0, 0xc3));
        assert(kind_at(written, n as int) == SlotKind::Sealed);
        lemma_decoded_encoding(snapshot);
    } else if reserve0 == filled(0xa5) {
        assert(kind_at(written, n as int) == SlotKind::Consumed);
    } else if all_zero(reserve0) {
        assert(all_zero(payload0));
        assert(kind_at(written, n as int) == SlotKind::Empty);
    } else {
        let i = choose|i: int| 0 <= i < reserve0.len() && reserve0[i] != 0;
        assert(reserve0[i] == 0xa5);
        assert(marker_spec(reserve0, 0xa5));
        assert(kind_at(written, n as int) == SlotKind::Consumed);
    }
    lemma_scan_empty_run(d, written, (n + 1) as nat, d.slots as nat);
}

proof fn lemma_written(sectors: Seq<Seq<u8>>, a: Seq<u8>, b: Seq<u8>, c: Seq<u8>, base: int)
    requires
        2 <= base,
        base + 2 < sectors.len(),
    ensures
        ({
            let w = sectors.update(base, a).update(base + 1, b).update(base + 2, c);
            &&& w.len() == sectors.len()
            &&& w[base] == a && w[base + 1] == b && w[base + 2] == c
            &&& forall|i: int| 0 <= i < base ==> #[trigger] w[i] == sectors[i]
            &&& forall|i: int| base + 2 < i < sectors.len() ==> #[trigger] w[i] == sectors[i]
        }),
{
}

proof fn lemma_sealed_markers()
    ensures
        !all_zero(filled(0xa5)),
        !all_zero(filled(0xc3)),
        marker_spec(filled(0xc3), 0xc3),
{
    assert(filled(0xa5)[0] == 0xa5);
    assert(filled(0xc3)[0] == 0xc3);
}

pub struct VaultView {
    pub descriptor: DescriptorView,
    pub next: u32,
    pub revision: u64,
    pub digest: Seq<u8>,
    pub snapshot: Seq<Entry>,
    pub readonly: bool,
}

/// A vault: the next free slot is within the device, and a vault with no
/// free slot left is read-only.
pub open spec fn vault_wf(v: VaultView) -> bool {
    &&& 1 <= v.descriptor.slots <= 64
    &&& v.next <= v.descriptor.slots
    &&& !v.readonly ==> v.next < v.descriptor.slots
    &&& v.revision <= v.next
    &&& v.digest.len() == 32
    &&& snapshot_valid(v.snapshot)
}

/// A mounted vault over block device `B`.
pub struct Vault<B: Block> {
    pub block: B,
    descriptor: Descriptor,
    next: u32,
    revision: u64,
    digest: [u8; 32],
    snapshot: Snapshot,
    readonly: bool,
    mounted: Ghost<Seq<(u32, Seq<u8>)>>,
    wrote: Ghost<Seq<(u32, Seq<u8>)>>,
}

impl<B: Block> View for Vault<B> {
    type V = VaultView;

    closed spec fn view(&self) -> VaultView {
        VaultView {
            descriptor: self.descriptor@,
            next: self.next,
            revision: self.revision,
            digest: self.digest@,
            snapshot: self.snapshot@,
            readonly: self.readonly,
        }
    }
}

impl<B: Block> Vault<B> {
    /// The block device as it stands.
    pub closed spec fn device(&self) -> B {
        self.block
    }

    /// The sectors the mount read, with their numbers, in the order read.
    pub closed spec fn mount_reads(&self) -> Seq<(u32, Seq<u8>)> {
        self.mounted@
    }

    /// The sector writes issued since the mount, with their numbers and
    /// bytes, in order.
    pub closed spec fn writes(&self) -> Seq<(u32, Seq<u8>)> {
        self.wrote@
    }

    /// Reads every sector, in order, and takes the newest sealed snapshot:
    /// the vault is exactly what `recover_spec` makes of what was read. It
    /// never formats, repairs or writes. Slots are used in order: anything
    /// after the first empty slot is corruption.
    pub fn mount(block: B, capacity: u32) -> (r: Result<Self, Error>)
        ensures
            r matches Ok(v) ==> vault_wf(v@) && capacity == 2 + 3 * v@.descriptor.slots && header_ok(
                v@.descriptor.header,
            ) && v@.readonly == (v@.next == v@.descriptor.slots) && descriptor_spec(
                v@.descriptor.header,
                v@.descriptor.header,
                capacity,
            ) == Ok::<DescriptorView, Error>(v@.descriptor),
            r matches Ok(v) ==> {
                &&& v.writes() == Seq::<(u32, Seq<u8>)>::empty()
                &&& v.mount_reads().len() == capacity
                &&& in_order(v.mount_reads())
                &&& recover_spec(read_bytes(v.mount_reads()), capacity) == Some(v@)
            },
    {
        let mut block = block;
        let first = block.read(0)?;
        let second = block.read(1)?;
        let descriptor = Descriptor::decode(first, second, capacity)?;
        let slots = descriptor.slots;
        let ghost reads: Seq<(u32, Seq<u8>)> = seq![(0u32, first@), (1u32, second@)];
        let mut vault = Vault {
            block,
            descriptor,
            next: slots,
            revision: 0,
            digest: [0u8; 32],
            snapshot: Snapshot::empty(),
            readonly: false,
            mounted: Ghost(reads),
            wrote: Ghost(Seq::empty()),
        };
        let ghost d = vault.descriptor@;
        proof {
            assert(vault.digest@ =~= Seq::new(32, |i: int| 0u8));
            assert(read_bytes(reads)[0] == first@ && read_bytes(reads)[1] == second@);
        }
        let mut free = false;
        let mut slot: u32 = 0;
        while slot < slots
            invariant
                1 <= slots <= 64,
                slots == vault.descriptor@.slots,
                d == vault.descriptor@,
                capacity == 2 + 3 * slots,
                header_ok(vault.descriptor@.header),
                descriptor_spec(vault.descriptor@.header, vault.descriptor@.header, capacity) == Ok::<
                    DescriptorView,
                    Error,
                >(vault.descriptor@),
                descriptor_spec(read_bytes(vault.mounted@)[0], read_bytes(vault.mounted@)[1], capacity) == Ok::<
                    DescriptorView,
                    Error,
                >(d),
                slot <= slots,
                vault.next <= slots,
                free ==> vault.next < slot && vault.revision <= vault.next,
                !free ==> vault.next == slots,
                vault.revision <= slot,
                vault.digest@.len() == 32,
                snapshot_valid(vault.snapshot@),
                vault.mounted@.len() == 2 + 3 * slot,
                vault.wrote@ == Seq::<(u32, Seq<u8>)>::empty(),
                in_order(vault.mounted@),
                scan_spec(d, read_bytes(vault.mounted@), slot as nat) == Some(
                    ScanState {
                        next: vault.next,
                        free,
                        revision: vault.revision,
                        digest: vault.digest@,
                        snapshot: vault.snapshot@,
                    },
                ),
            decreases slots - slot,
        {
            let base = 2 + slot * 3;
            let reserve = vault.block.read(base)?;
            let payload = vault.block.read(base + 1)?;
            let commit = vault.block.read(base + 2)?;
            let ghost before = vault.mounted@;
            proof {
                vault.mounted@ = vault.mounted@.push((base, reserve@)).push(((base + 1) as u32, payload@)).push(
                    ((base + 2) as u32, commit@),
                );
                lemma_scan_prefix(d, read_bytes(before), read_bytes(vault.mounted@), slot as nat);
                let b = read_bytes(vault.mounted@);
                assert(b[base as int] == reserve@ && b[base + 1] == payload@ && b[base + 2] == commit@);
                assert(b[0] == read_bytes(before)[0] && b[1] == read_bytes(before)[1]);
            }
            vault.scan_step(slot, &reserve, &payload, &commit, &mut free)?;
            slot = slot + 1;
        }
        vault.readonly = vault.next == slots;
        Ok(vault)
    }

    /// What a device holding `sectors` mounts as, without touching the
    /// device: the descriptor from the first two sectors, then every slot's
    /// three sectors scanned as a mount scans them. It succeeds exactly when
    /// `recover_spec` accepts the sectors, and then the vault is what
    /// `recover_spec` makes of them, over `block`.
    pub fn recover(block: B, sectors: &Vec<[u8; 512]>, capacity: u32) -> (r: Result<Self, Error>)
        ensures
            sectors@.len() != capacity ==> r is Err,
            sectors@.len() == capacity ==> (r is Ok <==> recover_spec(sector_contents(sectors@), capacity) is Some),
            r matches Ok(v) ==> {
                &&& vault_wf(v@)
                &&& v@ == recover_spec(sector_contents(sectors@), capacity)->Some_0
                &&& v.device() == block
                &&& v.writes() == Seq::<(u32, Seq<u8>)>::empty()
            },
    {
        let ghost bytes = sector_contents(sectors@);
        if sectors.len() != capacity as usize || sectors.len() < 2 {
            return Err(Error::Bounds);
        }
        let descriptor = Descriptor::decode(sectors[0], sectors[1], capacity)?;
        let slots = descriptor.slots;
        proof {
            assert(bytes[0] == sectors@[0]@ && bytes[1] == sectors@[1]@);
        }
        let mut vault = Vault {
            block,
            descriptor,
            next: slots,
            revision: 0,
            digest: [0u8; 32],
            snapshot: Snapshot::empty(),
            readonly: false,
            mounted: Ghost(Seq::empty()),
            wrote: Ghost(Seq::empty()),
        };
        let ghost d = vault.descriptor@;
        proof {
            assert(vault.digest@ =~= Seq::new(32, |i: int| 0u8));
        }
        let mut free = false;
        let mut slot: u32 = 0;
        while slot < slots
            invariant
                1 <= slots <= 64,
                slots == vault.descriptor@.slots,
                d == vault.descriptor@,
                capacity == 2 + 3 * slots,
                sectors@.len() == capacity,
                bytes == sector_contents(sectors@),
                descriptor_spec(bytes[0], bytes[1], capacity) == Ok::<DescriptorView, Error>(d),
                vault.block == block,
                vault.wrote@ == Seq::<(u32, Seq<u8>)>::empty(),
                slot <= slots,
                vault.next <= slots,
                free ==> vault.next < slot && vault.revision <= vault.next,
                !free ==> vault.next == slots,
                vault.revision <= slot,
                vault.digest@.len() == 32,
                snapshot_valid(vault.snapshot@),
                scan_spec(d, bytes, slot as nat) == Some(
                    ScanState {
                        next: vault.next,
                        free,
                        revision: vault.revision,
                        digest: vault.digest@,
                        snapshot: vault.snapshot@,
                    },
                ),
            decreases slots - slot,
        {
            let base = (2 + slot * 3) as usize;
            proof {
                assert(bytes[base as int] == sectors@[base as int]@);
                assert(bytes[base + 1] == sectors@[base + 1]@);
                assert(bytes[base + 2] == sectors@[base + 2]@);
            }
            let step = vault.scan_step(slot, &sectors[base], &sectors[base + 1], &sectors[base + 2], &mut free);
            if let Err(e) = step {
                proof {
                    lemma_scan_refused(d, bytes, (slot + 1) as nat, slots as nat);
                }
                return Err(e);
            }
            slot = slot + 1;
        }
        vault.readonly = vault.next == slots;
        Ok(vault)
    }

    /// One slot of the mount's scan, as `scan_slot` says.
    fn scan_step(&mut self, slot: u32, reserve: &[u8; 512], payload: &[u8; 512], commit: &[u8; 512], free: &mut bool) -> (r: Result<(), Error>)
        requires
            old(self).digest@.len() == 32,
            snapshot_valid(old(self).snapshot@),
            slot < old(self).descriptor@.slots <= 64,
            old(self).revision <= slot,
            *old(free) ==> old(self).next < slot && old(self).revision <= old(self).next,
            !*old(free) ==> old(self).next == old(self).descriptor@.slots,
        ensures
            match scan_slot(
                old(self).descriptor@,
                ScanState {
                    next: old(self).next,
                    free: *old(free),
                    revision: old(self).revision,
                    digest: old(self).digest@,
                    snapshot: old(self).snapshot@,
                },
                slot,
                reserve@,
                payload@,
                commit@,
            ) {
                None => r is Err,
                Some(st) => r is Ok && st == (ScanState {
                    next: final(self).next,
                    free: *final(free),
                    revision: final(self).revision,
                    digest: final(self).digest@,
                    snapshot: final(self).snapshot@,
                }),
            },
            final(self).descriptor@ == old(self).descriptor@,
            final(self).mounted@ == old(self).mounted@,
            final(self).block == old(self).block,
            final(self).wrote == old(self).wrote,
            final(self).digest@.len() == 32,
            snapshot_valid(final(self).snapshot@),
            final(self).revision <= slot + 1,
            *final(free) ==> final(self).next < slot + 1 && final(self).revision <= final(self).next,
            !*final(free) ==> final(self).next == old(self).descriptor@.slots,
    {
        match slot_kind(reserve, payload, commit) {
            SlotKind::Empty => {
                if !*free {
                    self.next = slot;
                    *free = true;
                }
                Ok(())
            },
            SlotKind::Corrupt => Err(Error::Invalid),
            SlotKind::Consumed => {
                if *free {
                    return Err(Error::Invalid);
                }
                Ok(())
            },
            SlotKind::Sealed => {
                if *free {
                    return Err(Error::Invalid);
                }
                let snapshot = self.open_payload(slot, payload)?;
                proof {
                    let plain = open_spec(self.descriptor@, self.revision, self.digest@, slot, payload@)->Ok_0;
                    let v = choose|v: Seq<Entry>| snapshot_valid(v) && #[trigger] encode_spec(v) == plain;
                    assert(snapshot_valid(snapshot@) && encode_spec(snapshot@) == plain);
                    assert(decoded(plain) == Some(v));
                }
                self.snapshot = snapshot;
                self.revision = self.revision + 1;
                self.digest = crypto::sha256(payload);
                Ok(())
            },
        }
    }

    /// Checks a payload's place in the chain and its seal, then decodes the
    /// snapshot it carries.
    fn open_payload(&self, slot: u32, payload: &[u8; 512]) -> (r: Result<Snapshot, Error>)
        requires
            self.digest@.len() == 32,
        ensures
            match open_spec(self.descriptor@, self.revision, self.digest@, slot, payload@) {
                Err(e) => r matches Err(x) && x == e,
                Ok(plain) => {
                    &&& r is Ok <==> (exists|v: Seq<Entry>| snapshot_valid(v) && #[trigger] encode_spec(v) == plain)
                    &&& r matches Ok(s) ==> encode_spec(s@) == plain && snapshot_valid(s@)
                    &&& forall|v: Seq<Entry>| snapshot_valid(v) && #[trigger] encode_spec(v) == plain ==> (r matches Ok(
                        s,
                    ) && s@ == v)
                },
            },
    {
        if self.revision == u64::MAX {
            return Err(Error::Bounds);
        }
        let revision = self.revision + 1;
        let tag: [u8; 8] = [0x52, 0x41, 0x52, 0x56, 0x50, 0x59, 0x30, 0x30];
        proof {
            assert(tag@ =~= payload_tag());
            assert(payload@.take(8) =~= payload@.subrange(0, 8));
        }
        if !same_at(payload, 0, &tag) || read64(payload, 8) != slot as u64 || read64(payload, 16) != revision
            || !same_at(payload, 24, &self.digest) || !zero_span(payload, 56, 64) || !zero_span(payload, 336, 512) {
            return Err(Error::Invalid);
        }
        let aad = self.descriptor.aad(&payload[0..64]);
        let mut plain = [0u8; 256];
        let mut i: usize = 0;
        while i < 256
            invariant
                i <= 256,
                forall|k: int| 0 <= k < i ==> plain@[k] == payload@[64 + k],
            decreases 256 - i,
        {
            plain[i] = payload[64 + i];
            i = i + 1;
        }
        let tag: [u8; 16] = [
            payload[320],
            payload[321],
            payload[322],
            payload[323],
            payload[324],
            payload[325],
            payload[326],
            payload[327],
            payload[328],
            payload[329],
            payload[330],
            payload[331],
            payload[332],
            payload[333],
            payload[334],
            payload[335],
        ];
        let nonce = self.descriptor.nonce(slot);
        proof {
            assert(plain@ =~= payload@.subrange(64, 320));
            assert(tag@ =~= payload@.subrange(320, 336));
            assert(payload@.subrange(0, 64) =~= payload@.take(64));
        }
        match crypto::open(&self.descriptor.key, &nonce, &aad, &mut plain, &tag) {
            Err(()) => Err(Error::Authentication),
            Ok(()) => Snapshot::decode(&plain),
        }
    }

    pub fn snapshot(&self) -> (r: &Snapshot)
        ensures
            r@ == self@.snapshot,
            snapshot_valid(r@),
    {
        let r = &self.snapshot;
        proof {
            use_type_invariant(r);
        }
        r
    }

    pub fn revision(&self) -> (r: u64)
        ensures
            r == self@.revision,
    {
        self.revision
    }

    pub fn is_readonly(&self) -> (r: bool)
        ensures
            r == self@.readonly,
    {
        self.readonly
    }

    /// The next unused slot.
    pub fn next_slot(&self) -> (r: u32)
        ensures
            r == self@.next,
    {
        self.next
    }

    pub fn into_block(self) -> (r: B)
        ensures
            r == self.device(),
    {
        self.block
    }

    /// Writes, flushes and reads back one sector.
    fn durable(&mut self, sector: u32, bytes: &[u8; 512]) -> (r: Result<(), Error>)
        ensures
            final(self)@ == old(self)@,
            final(self).writes() == old(self).writes().push((sector, bytes@)),
    {
        proof {
            self.wrote@ = self.wrote@.push((sector, bytes@));
        }
        self.block.write(sector, bytes)?;
        self.block.flush()?;
        let back = self.block.read(sector)?;
        if !same_bytes(&back, bytes) {
            return Err(Error::Io);
        }
        Ok(())
    }

    /// The payload sector sealing `snapshot` as `revision` in `slot`.
    fn seal_payload(&self, slot: u32, revision: u64, snapshot: &Snapshot) -> (r: Result<[u8; 512], Error>)
        requires
            self.digest@.len() == 32,
        ensures
            r matches Ok(p) && p@ == payload_spec(self.descriptor@, slot, revision, self.digest@, snapshot@),
            revision >= 1 ==> open_spec(self.descriptor@, (revision - 1) as u64, self.digest@, slot, r->Ok_0@)
                == Ok::<Seq<u8>, Error>(encode_spec(snapshot@)),
    {
        let mut payload = [0u8; 512];
        payload[0] = 0x52;
        payload[1] = 0x41;
        payload[2] = 0x52;
        payload[3] = 0x56;
        payload[4] = 0x50;
        payload[5] = 0x59;
        payload[6] = 0x30;
        payload[7] = 0x30;
        let ghost tagged = payload@;
        put_le(&mut payload, 8, slot as u64, 8);
        let ghost with_slot = payload@;
        put_le(&mut payload, 16, revision, 8);
        let ghost before = payload@;
        proof {
            lemma_le_bytes_len(slot as int, 8);
            lemma_le_bytes_len(revision as int, 8);
        }
        let mut i: usize = 0;
        while i < 32
            invariant
                i <= 32,
                self.digest@.len() == 32,
                payload@.len() == 512,
                forall|k: int| 0 <= k < 24 ==> payload@[k] == before[k],
                forall|k: int| 0 <= k < i ==> payload@[24 + k] == self.digest@[k],
                forall|k: int| 24 + i <= k < 512 ==> payload@[k] == 0,
            decreases 32 - i,
        {
            payload[24 + i] = self.digest[i];
            i = i + 1;
        }
        let ghost head = payload_head(slot, revision, self.digest@);
        proof {
            assert(tagged.take(8) =~= payload_tag());
            assert(with_slot.take(8) =~= payload_tag());
            assert(with_slot.subrange(8, 16) =~= le_bytes(slot as int, 8));
            assert(before.take(8) =~= payload_tag());
            assert(before.subrange(8, 16) =~= le_bytes(slot as int, 8));
            assert(before.subrange(16, 24) =~= le_bytes(revision as int, 8));
            assert forall|k: int| 0 <= k < 64 implies payload@[k] == head[k] by {
                if k < 8 {
                    assert(before[k] == before.take(8)[k]);
                } else if k < 16 {
                    assert(before[k] == before.subrange(8, 16)[k - 8]);
                } else if k < 24 {
                    assert(before[k] == before.subrange(16, 24)[k - 16]);
                }
            }
            assert(payload@.take(64) =~= head);
        }
        let aad = self.descriptor.aad(&payload[0..64]);
        let mut body = snapshot.encode();
        let nonce = self.descriptor.nonce(slot);
        proof {
            assert(payload@.subrange(0, 64) =~= head);
        }
        let ghost plain = body@;
        let tag = match crypto::seal(&self.descriptor.key, &nonce, &aad, &mut body) {
            Ok(t) => t,
            Err(()) => {
                return Err(Error::Bounds);
            },
        };
        let mut j: usize = 0;
        while j < 256
            invariant
                j <= 256,
                payload@.len() == 512,
                payload@.take(64) == head,
                forall|k: int| 0 <= k < j ==> payload@[64 + k] == body@[k],
                forall|k: int| 64 + j <= k < 512 ==> payload@[k] == 0,
            decreases 256 - j,
        {
            payload[64 + j] = body[j];
            proof {
                assert(payload@.take(64) =~= head);
            }
            j = j + 1;
        }
        let mut t: usize = 0;
        while t < 16
            invariant
                t <= 16,
                payload@.len() == 512,
                payload@.take(64) == head,
                forall|k: int| 0 <= k < 256 ==> payload@[64 + k] == body@[k],
                forall|k: int| 0 <= k < t ==> payload@[320 + k] == tag@[k],
                forall|k: int| 320 + t <= k < 512 ==> payload@[k] == 0,
            decreases 16 - t,
        {
            payload[320 + t] = tag[t];
            proof {
                assert(payload@.take(64) =~= head);
            }
            t = t + 1;
        }
        proof {
            assert(payload@ =~= payload_spec(self.descriptor@, slot, revision, self.digest@, snapshot@)) by {
                assert forall|k: int| 0 <= k < 512 implies payload@[k] == payload_spec(
                    self.descriptor@,
                    slot,
                    revision,
                    self.digest@,
                    snapshot@,
                )[k] by {
                    if k < 64 {
                        assert(payload@[k] == payload@.take(64)[k]);
                    } else if k < 320 {
                    } else if k < 336 {
                    }
                }
            }
            let p = payload@;
            assert(p.subrange(64, 320) =~= body@);
            assert(p.subrange(320, 336) =~= tag@);
            assert(p.take(8) =~= payload_tag()) by {
                assert forall|k: int| 0 <= k < 8 implies p.take(8)[k] == payload_tag()[k] by {
                    assert(p.take(8)[k] == head[k]);
                }
            }
            assert(p.subrange(8, 16) =~= le_bytes(slot as int, 8)) by {
                assert forall|k: int| 0 <= k < 8 implies p.subrange(8, 16)[k] == le_bytes(slot as int, 8)[k] by {
                    assert(p.subrange(8, 16)[k] == head[8 + k]);
                }
            }
            assert(p.subrange(16, 24) =~= le_bytes(revision as int, 8)) by {
                assert forall|k: int| 0 <= k < 8 implies p.subrange(16, 24)[k] == le_bytes(revision as int, 8)[k] by {
                    assert(p.subrange(16, 24)[k] == head[16 + k]);
                }
            }
            assert(p.subrange(24, 56) =~= self.digest@) by {
                assert forall|k: int| 0 <= k < 32 implies p.subrange(24, 56)[k] == self.digest@[k] by {
                    assert(p.subrange(24, 56)[k] == head[24 + k]);
                }
            }
            assert(all_zero(p.subrange(56, 64))) by {
                assert forall|k: int| 0 <= k < 8 implies #[trigger] p.subrange(56, 64)[k] == 0 by {
                    assert(p.subrange(56, 64)[k] == head[56 + k]);
                }
            }
            lemma_le_sub(p, 8);
            lemma_le_sub(p, 16);
            lemma_le64_bytes(slot as u64);
            lemma_le64_bytes(revision);
            assert(p.take(64) =~= head);
        }
        Ok(payload)
    }

    /// Seals `snapshot` into the next slot. The vault locks before any I/O
    /// and unlocks only after the reservation, the payload and the commit
    /// were each written, flushed and read back; after any failure it stays
    /// locked for the rest of this mount. A failure during the commit may
    /// still have committed. The payload it writes passes the chain checks
    /// a mount applies to that slot and opens to the snapshot's encoding.
    #[verifier::rlimit(90)]
    pub fn publish(&mut self, snapshot: Snapshot) -> (r: Result<u64, Error>)
        requires
            vault_wf(old(self)@),
        ensures
            vault_wf(final(self)@),
            final(self)@.descriptor == old(self)@.descriptor,
            old(self)@.readonly ==> r == Err::<u64, Error>(Error::ReadOnly) && final(self)@ == old(self)@
                && final(self).device() == old(self).device() && final(self).writes() == old(self).writes(),
            !old(self)@.readonly && old(self)@.revision == u64::MAX ==> r == Err::<u64, Error>(Error::Bounds)
                && final(self).writes() == old(self).writes(),
            r is Ok ==> final(self).writes() == old(self).writes() + publish_writes(old(self)@, snapshot@),
            r is Err && final(self).writes() == old(self).writes() + publish_writes(old(self)@, snapshot@) ==> r
                == Err::<u64, Error>(Error::Indeterminate),
            r is Err ==> exists|k: int|
                0 <= k <= 3 && final(self).writes() == old(self).writes() + #[trigger] publish_writes(old(self)@, snapshot@).take(k),
            match r {
                Ok(revision) => {
                    &&& revision == old(self)@.revision + 1
                    &&& final(self)@.revision == revision
                    &&& final(self)@.snapshot == snapshot@
                    &&& final(self)@.next == old(self)@.next + 1
                    &&& final(self)@.readonly == (final(self)@.next == final(self)@.descriptor.slots)
                    &&& final(self)@.digest == sha256_digest(
                        payload_spec(old(self)@.descriptor, old(self)@.next, revision, old(self)@.digest, snapshot@),
                    )
                    &&& open_spec(
                        old(self)@.descriptor,
                        old(self)@.revision,
                        old(self)@.digest,
                        old(self)@.next,
                        payload_spec(old(self)@.descriptor, old(self)@.next, revision, old(self)@.digest, snapshot@),
                    ) == Ok::<Seq<u8>, Error>(encode_spec(snapshot@))
                },
                Err(_) => {
                    &&& final(self)@.readonly
                    &&& final(self)@.next == old(self)@.next
                    &&& final(self)@.revision == old(self)@.revision
                    &&& final(self)@.digest == old(self)@.digest
                    &&& final(self)@.snapshot == old(self)@.snapshot
                },
            },
    {
        let ghost w0 = self.wrote@;
        let ghost plan = publish_writes(old(self)@, snapshot@);
        proof {
            assert(w0 =~= w0 + plan.take(0));
        }
        if self.readonly {
            return Err(Error::ReadOnly);
        }
        self.readonly = true;
        let slot = self.next;
        let base = 2 + slot * 3;
        if self.revision == u64::MAX {
            return Err(Error::Bounds);
        }
        let revision = self.revision + 1;
        let mut sector = base;
        while sector < base + 3
            invariant
                base == 2 + slot * 3,
                slot < 64,
                base <= sector <= base + 3,
                vault_wf(self@),
                self@.readonly,
                !old(self)@.readonly,
                self@ == old(self)@.update_readonly(),
                self.wrote@ == old(self).wrote@,
                w0 == old(self).wrote@,
                plan == publish_writes(old(self)@, snapshot@),
                w0 =~= w0 + plan.take(0),
            decreases base + 3 - sector,
        {
            let current = self.block.read(sector)?;
            if !zero_span(&current, 0, 512) {
                return Err(Error::Invalid);
            }
            sector = sector + 1;
        }
        let reserve = [0xa5u8; 512];
        proof {
            assert(reserve@ =~= filled(0xa5));
        }
        if let Err(e) = self.durable(base, &reserve) {
            proof {
                assert(self.wrote@ =~= w0 + plan.take(1));
            }
            return Err(e);
        }
        let payload = match self.seal_payload(slot, revision, &snapshot) {
            Ok(p) => p,
            Err(e) => {
                return Err(e);
            },
        };
        if let Err(e) = self.durable(base + 1, &payload) {
            proof {
                assert(self.wrote@ =~= w0 + plan.take(2));
            }
            return Err(e);
        }
        let commit = [0xc3u8; 512];
        proof {
            assert(commit@ =~= filled(0xc3));
        }
        if self.durable(base + 2, &commit).is_err() {
            proof {
                assert(self.wrote@ =~= w0 + plan);
                assert(plan.take(3) =~= plan);
            }
            return Err(Error::Indeterminate);
        }
        proof {
            use_type_invariant(&snapshot);
        }
        self.snapshot = snapshot;
        self.revision = revision;
        self.digest = crypto::sha256(&payload);
        self.next = self.next + 1;
        self.readonly = self.next == self.descriptor.slots;
        proof {
            assert(self.wrote@ =~= w0 + seq![(base, filled(0xa5)), ((base + 1) as u32, payload@), ((base + 2) as u32, filled(0xc3))]);
        }
        Ok(revision)
    }
}

/// The three writes a publish of `snapshot` makes, in order: the
/// reservation, the sealed payload and the commit of the next slot.
pub open spec fn publish_writes(v: VaultView, snapshot: Seq<Entry>) -> Seq<(u32, Seq<u8>)> {
    seq![
        ((2 + 3 * v.next) as u32, filled(0xa5)),
        ((3 + 3 * v.next) as u32, payload_spec(v.descriptor, v.next, (v.revision + 1) as u64, v.digest, snapshot)),
        ((4 + 3 * v.next) as u32, filled(0xc3)),
    ]
}

impl VaultView {
    /// The same vault, locked.
    pub open spec fn update_readonly(self) -> VaultView {
        VaultView { readonly: true, ..self }
    }
}

proof fn lemma_count_all_before(p: Seq<Entry>, name: Seq<u8>)
    requires
        forall|j: int| 0 <= j < p.len() ==> precedes(#[trigger] p[j].0, name),
    ensures
        count_before(p, name) == p.len(),
    decreases p.len(),
{
    if p.len() > 0 {
        let u = p.drop_last();
        assert forall|j: int| 0 <= j < u.len() implies precedes(#[trigger] u[j].0, name) by {
            assert(u[j] == p[j]);
        }
        lemma_count_all_before(u, name);
        assert(precedes(p[p.len() - 1].0, name));
    }
}

/// Storing a name that follows every stored name appends it.
pub proof fn lemma_put_append(p: Seq<Entry>, e: Entry)
    requires
        name_valid(e.0),
        e.1.len() <= 64,
        p.len() < 4,
        forall|j: int| 0 <= j < p.len() ==> precedes(#[trigger] p[j].0, e.0),
        total(p) + e.1.len() <= 128,
    ensures
        put_spec(p, e.0, e.1) == Ok::<Seq<Entry>, Error>(p.push(e)),
{
    assert forall|i: int| 0 <= i < p.len() implies #[trigger] p[i].0 != e.0 by {
        if p[i].0 == e.0 {
            lemma_precedes_irreflexive(e.0);
        }
    }
    lemma_count_all_before(p, e.0);
    assert(p.insert(p.len() as int, (e.0, e.1)) =~= p.push(e));
    assert(p.push(e).drop_last() =~= p);
}

impl Snapshot {
    /// Whether two snapshots hold the same files.
    pub fn same_files(&self, other: &Snapshot) -> (r: bool)
        ensures
            r == (self@ == other@),
    {
        let a = self.entries();
        let b = other.entries();
        if a.len() != b.len() {
            return false;
        }
        let mut i: usize = 0;
        while i < a.len()
            invariant
                i <= a@.len() == b@.len() == self@.len() == other@.len(),
                forall|k: int| 0 <= k < a@.len() ==> (#[trigger] a@[k]).0@ == self@[k].0 && a@[k].1@ == self@[k].1,
                forall|k: int| 0 <= k < b@.len() ==> (#[trigger] b@[k]).0@ == other@[k].0 && b@[k].1@ == other@[k].1,
                forall|k: int| 0 <= k < i ==> self@[k] == other@[k],
            decreases a@.len() - i,
        {
            if !same_bytes(a[i].0, b[i].0) || !same_bytes(a[i].1, b[i].1) {
                return false;
            }
            i = i + 1;
        }
        proof {
            assert(self@ =~= other@);
        }
        true
    }
}

/// At most every entry precedes a name.
pub proof fn lemma_count_before_bound(v: Seq<Entry>, name: Seq<u8>)
    ensures
        count_before(v, name) <= v.len(),
    decreases v.len(),
{
    if v.len() > 0 {
        lemma_count_before_bound(v.drop_last(), name);
    }
}

/// Law: the reservation and commit markers publish writes make a slot that
/// a mount reads as sealed, whatever its payload.
pub proof fn law_published_markers_seal_the_slot(payload: Seq<u8>)
    ensures
        slot_kind_spec(filled(0xa5), payload, filled(0xc3)) == SlotKind::Sealed,
{
    assert(filled(0xa5)[0] == 0xa5);
    assert(!all_zero(filled(0xa5)));
    assert(filled(0xc3)[0] == 0xc3);
    assert(!all_zero(filled(0xc3)));
    assert(marker_spec(filled(0xc3), 0xc3));
}

} // verus!
