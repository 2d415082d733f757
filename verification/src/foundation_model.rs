//! Bounded Foundation algorithms: firmware memory maps, bootstrap frame
//! allocation, mapping validation, a small unit heap and firmware table checks.
use vstd::prelude::*;
use crate::le::{le32, le64, read32, read64};

verus! {

pub const PAGE: u64 = 4096;
pub const MAX_REGIONS: usize = 512;

#[derive(Clone, Copy, Debug, PartialEq, Eq, Structural)]
pub enum Error {
    Invalid,
    Overflow,
    Overlap,
    Exhausted,
    Stale,
    Permission,
}

/// One firmware memory-map descriptor: `pages` 4 KiB pages from `start`.
#[derive(Clone, Copy, Debug)]
pub struct Region {
    pub start: u64,
    pub pages: u64,
    pub kind: u32,
}

impl Default for Region {
    fn default() -> (r: Self)
        ensures
            r.start == 0 && r.pages == 0 && r.kind == 0,
    {
        Region { start: 0, pages: 0, kind: 0 }
    }
}

/// Exclusive end address of a region, or why it has none.
pub open spec fn end_spec(r: Region) -> Result<u64, Error> {
    if r.pages == 0 || r.start % 4096 != 0 {
        Err(Error::Invalid)
    } else if r.pages * 4096 > u64::MAX {
        Err(Error::Overflow)
    } else if r.start + r.pages * 4096 > u64::MAX {
        Err(Error::Overflow)
    } else {
        Ok((r.start + r.pages * 4096) as u64)
    }
}

pub open spec fn end_of(r: Region) -> int {
    r.start + r.pages * 4096
}

pub open spec fn overlaps(a: Region, b: Region) -> bool {
    a.start < end_of(b) && b.start < end_of(a)
}

/// Outcome of checking region `i` against every earlier region.
pub open spec fn scan_step(s: Seq<Region>, i: int) -> Result<(), Error> {
    match end_spec(s[i]) {
        Err(e) => Err(e),
        Ok(_) => if exists|j: int| 0 <= j < i && #[trigger] overlaps(s[i], s[j]) {
            Err(Error::Overlap)
        } else {
            Ok(())
        },
    }
}

/// First failure among the first `n` regions, in order.
pub open spec fn scan(s: Seq<Region>, n: nat) -> Result<(), Error>
    decreases n,
{
    if n == 0 {
        Ok(())
    } else {
        match scan(s, (n - 1) as nat) {
            Err(e) => Err(e),
            Ok(_) => scan_step(s, n - 1),
        }
    }
}

pub open spec fn validate_regions_spec(s: Seq<Region>) -> Result<(), Error> {
    if s.len() == 0 || s.len() > 512 {
        Err(Error::Invalid)
    } else {
        scan(s, s.len())
    }
}

proof fn lemma_scan_ok_prefix(s: Seq<Region>, n: nat, k: int)
    requires
        scan(s, n) is Ok,
        0 <= k < n,
    ensures
        end_spec(s[k]) is Ok,
        scan(s, k as nat) is Ok,
        scan_step(s, k) is Ok,
    decreases n,
{
    if k < n - 1 {
        lemma_scan_ok_prefix(s, (n - 1) as nat, k);
    }
}

proof fn lemma_scan_err_persists(s: Seq<Region>, m: nat, n: nat)
    requires
        m <= n,
        scan(s, m) is Err,
    ensures
        scan(s, n) == scan(s, m),
    decreases n - m,
{
    if m < n {
        lemma_scan_err_persists(s, m, (n - 1) as nat);
    }
}

impl Region {
    pub fn end(self) -> (r: Result<u64, Error>)
        ensures
            r == end_spec(self),
    {
        if self.pages == 0 || self.start % PAGE != 0 {
            return Err(Error::Invalid);
        }
        let bytes = match self.pages.checked_mul(PAGE) {
            Some(b) => b,
            None => return Err(Error::Overflow),
        };
        match self.start.checked_add(bytes) {
            Some(e) => Ok(e),
            None => Err(Error::Overflow),
        }
    }
}

/// A memory map is accepted when it is non-empty, bounded, every region has a
/// representable end and no two regions overlap; the first failure is reported.
pub fn validate_regions(regions: &[Region]) -> (r: Result<(), Error>)
    ensures
        r == validate_regions_spec(regions@),
{
    if regions.len() == 0 || regions.len() > MAX_REGIONS {
        return Err(Error::Invalid);
    }
    let mut i: usize = 0;
    while i < regions.len()
        invariant
            0 < regions@.len() <= 512,
            i <= regions@.len(),
            scan(regions@, i as nat) is Ok,
        decreases regions.len() - i,
    {
        let r = regions[i];
        let end = match r.end() {
            Ok(e) => e,
            Err(e) => {
                proof {
                    assert(scan(regions@, (i + 1) as nat) == Err::<(), Error>(e));
                    lemma_scan_err_persists(regions@, (i + 1) as nat, regions@.len());
                }
                return Err(e);
            },
        };
        let mut j: usize = 0;
        while j < i
            invariant
                0 < regions@.len() <= 512,
                i < regions@.len(),
                j <= i,
                r == regions@[i as int],
                scan(regions@, i as nat) is Ok,
                end_spec(r) == Ok::<u64, Error>(end),
                forall|k: int| 0 <= k < j ==> !overlaps(r, #[trigger] regions@[k]),
            decreases i - j,
        {
            let p = regions[j];
            proof {
                lemma_scan_ok_prefix(regions@, i as nat, j as int);
            }
            let pend = match p.end() {
                Ok(e) => e,
                Err(e) => return Err(e),
            };
            if r.start < pend && p.start < end {
                proof {
                    assert(overlaps(regions@[i as int], regions@[j as int]));
                    assert(scan(regions@, (i + 1) as nat) == Err::<(), Error>(Error::Overlap));
                    lemma_scan_err_persists(regions@, (i + 1) as nat, regions@.len());
                }
                return Err(Error::Overlap);
            }
            j = j + 1;
        }
        proof {
            assert(!(exists|k: int| 0 <= k < i && #[trigger] overlaps(regions@[i as int], regions@[k])));
            assert(scan(regions@, (i + 1) as nat) is Ok);
        }
        i = i + 1;
    }
    Ok(())
}

/// Abstract state of the bootstrap frame allocator.
pub struct FramesView {
    pub regions: Seq<Region>,
    pub next: Seq<u64>,
    pub last: Option<(usize, u64)>,
}

pub open spec fn max_u64(a: u64, b: u64) -> u64 {
    if a >= b { a } else { b }
}

pub open spec fn frames_new_spec(s: Seq<Region>) -> Result<FramesView, Error> {
    match validate_regions_spec(s) {
        Err(e) => Err(e),
        Ok(_) => Ok(
            FramesView {
                regions: s,
                next: Seq::new(s.len(), |i: int| max_u64(s[i].start, 4096)),
                last: None,
            },
        ),
    }
}

/// Only conventional RAM (kind 7) below 4 GiB is handed out, one page at a time.
pub open spec fn allocatable(r: Region, p: u64) -> bool {
    r.kind == 7 && p + 4096 <= end_of(r) && p + 4096 <= 0x1_0000_0000
}

pub open spec fn first_allocatable(v: FramesView, i: nat) -> Option<nat>
    decreases v.regions.len() - i,
{
    if i >= v.regions.len() {
        None
    } else if allocatable(v.regions[i as int], v.next[i as int]) {
        Some(i)
    } else {
        first_allocatable(v, i + 1)
    }
}

proof fn lemma_first_allocatable_bound(v: FramesView, i: nat)
    ensures
        first_allocatable(v, i) matches Some(k) ==> i <= k < v.regions.len()
            && allocatable(v.regions[k as int], v.next[k as int]),
    decreases v.regions.len() - i,
{
    if i < v.regions.len() && !allocatable(v.regions[i as int], v.next[i as int]) {
        lemma_first_allocatable_bound(v, i + 1);
    }
}

pub open spec fn allocate_spec(v: FramesView) -> (FramesView, Result<u64, Error>) {
    match first_allocatable(v, 0) {
        None => (v, Err(Error::Exhausted)),
        Some(i) => (
            FramesView {
                next: v.next.update(i as int, (v.next[i as int] + 4096) as u64),
                last: Some((i as usize, v.next[i as int])),
                ..v
            },
            Ok(v.next[i as int]),
        ),
    }
}

/// Release is strictly LIFO: only the most recently allocated page returns.
pub open spec fn release_last_spec(v: FramesView, page: u64) -> (FramesView, Result<(), Error>) {
    match v.last {
        None => (v, Err(Error::Stale)),
        Some((i, p)) => if p != page {
            (v, Err(Error::Stale))
        } else {
            (FramesView { next: v.next.update(i as int, p), last: None, ..v }, Ok(()))
        },
    }
}

pub open spec fn frames_view_wf(v: FramesView) -> bool {
    &&& validate_regions_spec(v.regions) is Ok
    &&& v.next.len() == v.regions.len()
    &&& (v.last matches Some((i, _)) ==> i < v.regions.len())
}

/// Single-owner physical page allocation. Release is deliberately LIFO.
pub struct Frames {
    regions: [Region; 512],
    next: [u64; 512],
    count: usize,
    last: Option<(usize, u64)>,
}

impl View for Frames {
    type V = FramesView;

    closed spec fn view(&self) -> FramesView {
        FramesView {
            regions: self.regions@.subrange(0, self.count as int),
            next: self.next@.subrange(0, self.count as int),
            last: self.last,
        }
    }
}

impl Frames {
    pub closed spec fn wf(&self) -> bool {
        &&& self.count <= 512
        &&& frames_view_wf(self@)
    }

    pub fn new(regions: &[Region]) -> (r: Result<Self, Error>)
        ensures
            match r {
                Ok(f) => f.wf() && frames_new_spec(regions@) == Ok::<FramesView, Error>(f@),
                Err(e) => frames_new_spec(regions@) == Err::<FramesView, Error>(e),
            },
    {
        match validate_regions(regions) {
            Err(e) => return Err(e),
            Ok(()) => {},
        }
        let mut value = Frames {
            regions: [Region { start: 0, pages: 0, kind: 0 }; 512],
            next: [0u64; 512],
            count: regions.len(),
            last: None,
        };
        let mut i: usize = 0;
        while i < regions.len()
            invariant
                0 < regions@.len() <= 512,
                i <= regions@.len(),
                value.count == regions@.len(),
                value.last is None,
                forall|k: int| 0 <= k < i ==> value.regions@[k] == regions@[k],
                forall|k: int| 0 <= k < i ==> value.next@[k] == max_u64(regions@[k].start, 4096),
            decreases regions.len() - i,
        {
            let r = regions[i];
            value.regions[i] = r;
            value.next[i] = if r.start >= PAGE { r.start } else { PAGE };
            i = i + 1;
        }
        proof {
            assert(value@.regions =~= regions@);
            assert(value@.next =~= Seq::new(regions@.len(), |k: int| max_u64(regions@[k].start, 4096)));
        }
        Ok(value)
    }

    pub fn allocate(&mut self) -> (r: Result<u64, Error>)
        requires
            old(self).wf(),
        ensures
            final(self).wf(),
            final(self)@ == allocate_spec(old(self)@).0,
            r == allocate_spec(old(self)@).1,
    {
        let ghost v = self@;
        let mut i: usize = 0;
        while i < self.count
            invariant
                self@ == v,
                v == old(self)@,
                self.wf(),
                i <= self.count,
                first_allocatable(v, 0) == first_allocatable(v, i as nat),
            decreases self.count - i,
        {
            let r = self.regions[i];
            let p = self.next[i];
            proof {
                lemma_scan_ok_prefix(v.regions, v.regions.len(), i as int);
                assert(r == v.regions[i as int]);
                assert(p == v.next[i as int]);
            }
            let end = match r.end() {
                Ok(e) => e,
                Err(_) => 0,
            };
            let fits = match p.checked_add(PAGE) {
                Some(e) => e <= end && e <= 0x1_0000_0000,
                None => false,
            };
            if r.kind == 7 && fits {
                proof {
                    assert(allocatable(v.regions[i as int], v.next[i as int]));
                    assert(first_allocatable(v, i as nat) == Some(i as nat));
                }
                self.next[i] = p + PAGE;
                self.last = Some((i, p));
                proof {
                    assert(self@.next =~= v.next.update(i as int, (p + 4096) as u64));
                    assert(self@.regions =~= v.regions);
                    assert(self@ == allocate_spec(v).0);
                    assert(allocate_spec(v).1 == Ok::<u64, Error>(p));
                }
                return Ok(p);
            }
            i = i + 1;
        }
        Err(Error::Exhausted)
    }

    pub fn release_last(&mut self, page: u64) -> (r: Result<(), Error>)
        requires
            old(self).wf(),
        ensures
            final(self).wf(),
            final(self)@ == release_last_spec(old(self)@, page).0,
            r == release_last_spec(old(self)@, page).1,
    {
        let (i, p) = match self.last {
            Some(x) => x,
            None => return Err(Error::Stale),
        };
        if p != page {
            return Err(Error::Stale);
        }
        let ghost v = self@;
        self.next[i] = p;
        self.last = None;
        proof {
            assert(self@.next =~= v.next.update(i as int, p));
            assert(self@.regions =~= v.regions);
        }
        Ok(())
    }
}

/// Releasing the page that `allocate` just returned restores the allocator.
pub proof fn law_release_undoes_allocate(v: FramesView)
    requires
        frames_view_wf(v),
        allocate_spec(v).1 is Ok,
    ensures
        ({
            let (mid, r) = allocate_spec(v);
            let (fin, rr) = release_last_spec(mid, r->Ok_0);
            rr is Ok && fin.next == v.next && fin.regions == v.regions && fin.last is None
        }),
{
    let (mid, r) = allocate_spec(v);
    let i = first_allocatable(v, 0)->Some_0;
    lemma_first_allocatable_bound(v, 0);
    let (fin, rr) = release_last_spec(mid, r->Ok_0);
    assert(fin.next =~= v.next);
}

/// After a release, a second release of any page is refused as stale.
pub proof fn law_release_is_single_use(v: FramesView, page: u64, again: u64)
    requires
        release_last_spec(v, page).1 is Ok,
    ensures
        release_last_spec(release_last_spec(v, page).0, again).1 == Err::<(), Error>(Error::Stale),
{
}

/// Each region's cursor lies on a page boundary between its first usable
/// page and its end, and the page last handed out sits just below its
/// region's cursor: what every allocator built by `new` keeps.
pub open spec fn cursors_ok(v: FramesView) -> bool {
    &&& v.next.len() == v.regions.len()
    &&& forall|i: int|
        0 <= i < v.regions.len() ==> max_u64(v.regions[i].start, 4096) <= #[trigger] v.next[i] <= end_of(v.regions[i])
            && v.next[i] % 4096 == 0
    &&& v.last matches Some((i, p)) ==> i < v.regions.len() && v.next[i as int] == p + 4096 && max_u64(
        v.regions[i as int].start,
        4096,
    ) <= p
}

/// Page `p` has been handed out and not given back: it lies between its
/// region's first usable page and that region's cursor.
pub open spec fn handed_out(v: FramesView, p: int) -> bool {
    exists|i: int| 0 <= i < v.regions.len() && max_u64(v.regions[i].start, 4096) <= p < #[trigger] v.next[i]
}

proof fn lemma_regions_disjoint(s: Seq<Region>, i: int, j: int)
    requires
        validate_regions_spec(s) is Ok,
        0 <= i < s.len(),
        0 <= j < s.len(),
        i != j,
    ensures
        !overlaps(s[i], s[j]),
        end_spec(s[i]) is Ok,
{
    if i < j {
        lemma_scan_ok_prefix(s, s.len(), j);
        lemma_scan_ok_prefix(s, s.len(), i);
        assert(!overlaps(s[j], s[i]));
    } else {
        lemma_scan_ok_prefix(s, s.len(), i);
        assert(!overlaps(s[i], s[j]));
    }
}

/// Law: a new allocator keeps its cursors in order.
pub proof fn law_new_cursors_ok(s: Seq<Region>)
    requires
        frames_new_spec(s) is Ok,
    ensures
        cursors_ok(frames_new_spec(s)->Ok_0),
{
    let v = frames_new_spec(s)->Ok_0;
    assert forall|i: int| 0 <= i < v.regions.len() implies max_u64(v.regions[i].start, 4096) <= #[trigger] v.next[i]
        <= end_of(v.regions[i]) && v.next[i] % 4096 == 0 by {
        lemma_scan_ok_prefix(s, s.len(), i);
    }
}

/// Law: `allocate` hands out a page-aligned page of conventional memory
/// below 4 GiB that no earlier allocation still holds; afterwards exactly
/// that page is added to what is held, and the cursors stay in order.
pub proof fn law_allocate_fresh(v: FramesView)
    requires
        frames_view_wf(v),
        cursors_ok(v),
        allocate_spec(v).1 is Ok,
    ensures
        ({
            let (w, r) = allocate_spec(v);
            let p = r->Ok_0;
            &&& p % 4096 == 0 && 4096 <= p && p + 4096 <= 0x1_0000_0000
            &&& exists|i: int| 0 <= i < v.regions.len() && v.regions[i].kind == 7 && v.regions[i].start <= p && p + 4096
                <= end_of(v.regions[i])
            &&& forall|q: int| p <= q < p + 4096 ==> !handed_out(v, q)
            &&& forall|q: int| handed_out(w, q) <==> (handed_out(v, q) || p <= q < p + 4096)
            &&& cursors_ok(w)
        }),
{
    let (w, r) = allocate_spec(v);
    let p = r->Ok_0;
    lemma_first_allocatable_bound(v, 0);
    let k = first_allocatable(v, 0)->Some_0 as int;
    assert(p == v.next[k]);
    lemma_scan_ok_prefix(v.regions, v.regions.len(), k);
    assert forall|q: int| p <= q < p + 4096 implies !handed_out(v, q) by {
        if handed_out(v, q) {
            let i = choose|i: int| 0 <= i < v.regions.len() && max_u64(v.regions[i].start, 4096) <= q < #[trigger] v.next[i];
            if i != k {
                lemma_regions_disjoint(v.regions, i, k);
                assert(overlaps(v.regions[i], v.regions[k]));
            }
        }
    }
    assert forall|q: int| handed_out(w, q) <==> (handed_out(v, q) || p <= q < p + 4096) by {
        if handed_out(w, q) {
            let i = choose|i: int| 0 <= i < w.regions.len() && max_u64(w.regions[i].start, 4096) <= q < #[trigger] w.next[i];
            if i != k {
                assert(handed_out(v, q));
            } else if q < p {
                assert(v.next[k] == p);
                assert(handed_out(v, q));
            }
        }
        if handed_out(v, q) {
            let i = choose|i: int| 0 <= i < v.regions.len() && max_u64(v.regions[i].start, 4096) <= q < #[trigger] v.next[i];
            assert(w.next[i] >= v.next[i]);
            assert(handed_out(w, q));
        }
        if p <= q < p + 4096 {
            assert(w.next[k] == p + 4096);
            assert(handed_out(w, q));
        }
    }
}

/// Law: releasing the last page handed out keeps the cursors in order.
pub proof fn law_release_cursors_ok(v: FramesView, page: u64)
    requires
        cursors_ok(v),
        release_last_spec(v, page).1 is Ok,
    ensures
        cursors_ok(release_last_spec(v, page).0),
{
}

pub open spec fn canonical_spec(address: u64) -> bool {
    address < 0x0000_8000_0000_0000 || address >= 0xffff_8000_0000_0000
}

pub fn canonical(address: u64) -> (r: bool)
    ensures
        r == canonical_spec(address),
{
    address < 0x0000_8000_0000_0000 || address >= 0xffff_8000_0000_0000
}

#[derive(Clone, Copy)]
pub struct Mapping {
    pub virtual_start: u64,
    pub physical_start: u64,
    pub pages: u64,
    pub writable: bool,
    pub executable: bool,
}

pub open spec fn mapping_validate_spec(m: Mapping, owned_start: u64, owned_end: u64) -> Result<(), Error> {
    if m.pages == 0 || m.virtual_start == 0 || m.virtual_start % 4096 != 0 || m.physical_start % 4096 != 0 {
        Err(Error::Invalid)
    } else if m.writable && m.executable {
        Err(Error::Permission)
    } else if m.pages * 4096 > u64::MAX {
        Err(Error::Overflow)
    } else if m.virtual_start + m.pages * 4096 - 1 > u64::MAX {
        Err(Error::Overflow)
    } else if m.physical_start + m.pages * 4096 > u64::MAX {
        Err(Error::Overflow)
    } else {
        let vend = (m.virtual_start + m.pages * 4096 - 1) as u64;
        let pend = m.physical_start + m.pages * 4096;
        if !canonical_spec(m.virtual_start) || !canonical_spec(vend)
            || m.virtual_start / 0x8000_0000_0000 != vend / 0x8000_0000_0000 {
            Err(Error::Invalid)
        } else if pend > 0x10_0000_0000_0000 || m.physical_start < owned_start || pend > owned_end {
            Err(Error::Permission)
        } else {
            Ok(())
        }
    }
}

impl Mapping {
    /// Checks shape, W^X, representability, canonical virtual span and that the
    /// physical span lies inside the owned interval `[owned_start, owned_end)`.
    pub fn validate(self, owned_start: u64, owned_end: u64) -> (r: Result<(), Error>)
        ensures
            r == mapping_validate_spec(self, owned_start, owned_end),
    {
        if self.pages == 0 || self.virtual_start == 0 || self.virtual_start % PAGE != 0
            || self.physical_start % PAGE != 0 {
            return Err(Error::Invalid);
        }
        if self.writable && self.executable {
            return Err(Error::Permission);
        }
        let bytes = match self.pages.checked_mul(PAGE) {
            Some(b) => b,
            None => return Err(Error::Overflow),
        };
        let vend = match self.virtual_start.checked_add(bytes - 1) {
            Some(v) => v,
            None => return Err(Error::Overflow),
        };
        let pend = match self.physical_start.checked_add(bytes) {
            Some(p) => p,
            None => return Err(Error::Overflow),
        };
        if !canonical(self.virtual_start) || !canonical(vend)
            || self.virtual_start / 0x8000_0000_0000 != vend / 0x8000_0000_0000 {
            return Err(Error::Invalid);
        }
        if pend > 0x10_0000_0000_0000 || self.physical_start < owned_start || pend > owned_end {
            return Err(Error::Permission);
        }
        Ok(())
    }
}


/// A heap allocation: byte offset and size inside the 64 KiB heap, plus the
/// monotonic identity that makes stale, forged and double-free handles fail.
#[derive(Clone, Copy, Debug, PartialEq, Eq, Structural)]
pub struct Allocation {
    pub offset: usize,
    pub size: usize,
    pub id: u64,
}

#[derive(Clone, Copy)]
struct Slot {
    allocation: Allocation,
    units: usize,
}

pub const HEAP_UNITS: usize = 4096;
pub const HEAP_SLOTS: usize = 128;

/// Abstract heap: which 16-byte units are in use, the live allocation records
/// (allocation and unit count) and the next identity.
pub struct HeapView {
    pub used: Seq<bool>,
    pub slots: Seq<Option<(Allocation, usize)>>,
    pub next_id: u64,
}

pub open spec fn valid_align(a: usize) -> bool {
    a == 1 || a == 2 || a == 4 || a == 8 || a == 16 || a == 32 || a == 64 || a == 128 || a == 256
        || a == 512 || a == 1024 || a == 2048 || a == 4096
}

pub open spec fn units_of(size: usize) -> int {
    (size + 15) / 16
}

pub open spec fn first_none(slots: Seq<Option<(Allocation, usize)>>, i: nat) -> Option<nat>
    decreases slots.len() - i,
{
    if i >= slots.len() {
        None
    } else if slots[i as int] is None {
        Some(i)
    } else {
        first_none(slots, i + 1)
    }
}

pub open spec fn range_free(used: Seq<bool>, start: int, units: int) -> bool {
    forall|k: int| start <= k < start + units ==> !#[trigger] used[k]
}

/// First start, among `0, step, 2*step, ...` with room for `units`, whose units are all free.
pub open spec fn first_fit(used: Seq<bool>, units: int, step: int, start: int) -> Option<int>
    decreases 4097 - start,
{
    if step <= 0 || units <= 0 || start < 0 || start + units > 4096 {
        None
    } else if range_free(used, start, units) {
        Some(start)
    } else if start + step + units > 4096 {
        None
    } else {
        first_fit(used, units, step, start + step)
    }
}

pub open spec fn mark_range(used: Seq<bool>, start: int, units: int, value: bool) -> Seq<bool> {
    Seq::new(used.len(), |k: int| if start <= k < start + units { value } else { used[k] })
}

pub open spec fn heap_allocate_spec(v: HeapView, size: usize, align: usize) -> (HeapView, Result<Allocation, Error>) {
    if size == 0 || size > 65536 || !valid_align(align) {
        (v, Err(Error::Invalid))
    } else {
        match first_none(v.slots, 0) {
            None => (v, Err(Error::Exhausted)),
            Some(slot) => if v.next_id == u64::MAX {
                (v, Err(Error::Exhausted))
            } else {
                let units = units_of(size);
                let step = (if align > 16 { align } else { 16usize }) / 16;
                match first_fit(v.used, units, step as int, 0) {
                    None => (v, Err(Error::Exhausted)),
                    Some(start) => {
                        let a = Allocation { offset: (start * 16) as usize, size, id: v.next_id };
                        (
                            HeapView {
                                used: mark_range(v.used, start, units, true),
                                slots: v.slots.update(slot as int, Some((a, units as usize))),
                                next_id: (v.next_id + 1) as u64,
                            },
                            Ok(a),
                        )
                    },
                }
            },
        }
    }
}

pub open spec fn holds(s: Option<(Allocation, usize)>, a: Allocation) -> bool {
    match s {
        Some((b, _)) => b == a,
        None => false,
    }
}

pub open spec fn disjoint_from(a: Allocation, s: Option<(Allocation, usize)>) -> bool {
    match s {
        Some((b, _)) => b.offset + b.size <= a.offset || a.offset + a.size <= b.offset,
        None => true,
    }
}

pub open spec fn first_match(slots: Seq<Option<(Allocation, usize)>>, a: Allocation, i: nat) -> Option<nat>
    decreases slots.len() - i,
{
    if i >= slots.len() {
        None
    } else if holds(slots[i as int], a) {
        Some(i)
    } else {
        first_match(slots, a, i + 1)
    }
}

pub open spec fn heap_deallocate_spec(v: HeapView, a: Allocation) -> (HeapView, Result<(), Error>) {
    match first_match(v.slots, a, 0) {
        None => (v, Err(Error::Stale)),
        Some(i) => {
            let units = v.slots[i as int]->Some_0.1;
            (
                HeapView {
                    used: mark_range(v.used, a.offset as int / 16, units as int, false),
                    slots: v.slots.update(i as int, None),
                    ..v
                },
                Ok(()),
            )
        },
    }
}

pub open spec fn unit_start(a: Allocation) -> int {
    a.offset as int / 16
}

pub open spec fn covers(v: HeapView, i: int, k: int) -> bool {
    v.slots[i] matches Some((a, u)) && unit_start(a) <= k < unit_start(a) + u
}

pub open spec fn record_wf(v: HeapView, a: Allocation, u: usize) -> bool {
    &&& a.offset % 16 == 0
    &&& 1 <= a.size <= 65536
    &&& u == units_of(a.size)
    &&& unit_start(a) + u <= 4096
    &&& a.id < v.next_id
}

/// Heap invariant: used units are exactly those covered by live records, and
/// live records have distinct identities and pairwise disjoint unit ranges.
pub open spec fn heap_view_wf(v: HeapView) -> bool {
    &&& v.used.len() == 4096
    &&& v.slots.len() == 128
    &&& v.next_id >= 1
    &&& forall|i: int| 0 <= i < 128 ==> (#[trigger] v.slots[i] matches Some((a, u)) ==> record_wf(v, a, u))
    &&& forall|k: int| 0 <= k < 4096 ==> (#[trigger] v.used[k] <==> exists|i: int| 0 <= i < 128 && covers(v, i, k))
    &&& forall|i: int, j: int| 0 <= i < 128 && 0 <= j < 128 && i != j && v.slots[i] is Some && v.slots[j] is Some
        ==> #[trigger] v.slots[i]->Some_0.0.id != #[trigger] v.slots[j]->Some_0.0.id
            && (forall|k: int| !(covers(v, i, k) && covers(v, j, k)))
}

proof fn lemma_first_none(slots: Seq<Option<(Allocation, usize)>>, i: nat)
    ensures
        first_none(slots, i) matches Some(k) ==> i <= k < slots.len() && slots[k as int] is None,
    decreases slots.len() - i,
{
    if i < slots.len() && slots[i as int] is Some {
        lemma_first_none(slots, i + 1);
    }
}

proof fn lemma_first_match(slots: Seq<Option<(Allocation, usize)>>, a: Allocation, i: nat)
    ensures
        first_match(slots, a, i) matches Some(k) ==> i <= k < slots.len() && holds(slots[k as int], a),
        first_match(slots, a, i) is None ==> forall|k: int| i <= k < slots.len() ==> !holds(slots[k], a),
    decreases slots.len() - i,
{
    if i < slots.len() && !holds(slots[i as int], a) {
        lemma_first_match(slots, a, i + 1);
    }
}

pub open spec fn times(q: nat, step: int) -> int {
    q * step
}

proof fn lemma_first_fit(used: Seq<bool>, units: int, step: int, start: int)
    requires
        start >= 0,
    ensures
        first_fit(used, units, step, start) matches Some(s) ==> start <= s && s + units <= 4096
            && range_free(used, s, units) && exists|q: nat| s == start + #[trigger] times(q, step),
    decreases 4097 - start,
{
    if step > 0 && units > 0 && start + units <= 4096 && !range_free(used, start, units)
        && start + step + units <= 4096 {
        lemma_first_fit(used, units, step, start + step);
        if let Some(s) = first_fit(used, units, step, start + step) {
            let q = choose|q: nat| s == start + step + #[trigger] times(q, step);
            assert(s == start + times(q + 1, step)) by (nonlinear_arith)
                requires
                    s == start + step + q * step,
            ;
        }
    } else if step > 0 && units > 0 && start + units <= 4096 && range_free(used, start, units) {
        assert(start == start + times(0, step));
    }
}

proof fn lemma_allocate_wf(v: HeapView, size: usize, align: usize)
    requires
        heap_view_wf(v),
        heap_allocate_spec(v, size, align).1 is Ok,
    ensures
        heap_view_wf(heap_allocate_spec(v, size, align).0),
        ({
            let a = heap_allocate_spec(v, size, align).1->Ok_0;
            &&& a.size == size
            &&& a.offset % align == 0
            &&& a.offset + a.size <= 65536
            &&& forall|i: int| 0 <= i < 128 ==> disjoint_from(a, #[trigger] v.slots[i])
        }),
{
    let slot = first_none(v.slots, 0)->Some_0;
    lemma_first_none(v.slots, 0);
    let units = units_of(size);
    let step = (if align > 16 { align } else { 16usize }) / 16;
    let start = first_fit(v.used, units, step as int, 0)->Some_0;
    lemma_first_fit(v.used, units, step as int, 0);
    let a = Allocation { offset: (start * 16) as usize, size, id: v.next_id };
    let w = heap_allocate_spec(v, size, align).0;
    let q = choose|q: nat| start == 0 + #[trigger] times(q, step as int);
    let c: int = if align > 16 { 1int } else { 16int / (align as int) };
    assert(16 * (step as int) == (align as int) * c);
    assert(start * 16 == (q * c) * (align as int)) by (nonlinear_arith)
        requires
            start == q * (step as int),
            16 * (step as int) == (align as int) * c,
    ;
    vstd::arithmetic::div_mod::lemma_mod_multiples_basic(q * c, align as int);
    assert(w.slots[slot as int] == Some((a, units as usize)));
    assert forall|i: int| 0 <= i < 128 implies (#[trigger] w.slots[i] matches Some((b, u)) ==> record_wf(w, b, u)) by {
        if i != slot {
            assert(w.slots[i] == v.slots[i]);
        }
    }
    assert forall|i: int, k: int| 0 <= i < 128 && i != slot && covers(v, i, k)
        implies !(start <= k < start + units) && v.used[k] by {
        assert(v.used[k]);
    }
    assert forall|k: int| 0 <= k < 4096 implies (#[trigger] w.used[k] <==> exists|i: int| 0 <= i < 128 && covers(w, i, k)) by {
        if start <= k < start + units {
            assert(covers(w, slot as int, k));
        } else if v.used[k] {
            let i = choose|i: int| 0 <= i < 128 && covers(v, i, k);
            assert(i != slot);
            assert(covers(w, i, k));
        } else {
            if exists|i: int| 0 <= i < 128 && covers(w, i, k) {
                let i = choose|i: int| 0 <= i < 128 && covers(w, i, k);
                if i != slot {
                    assert(covers(v, i, k));
                }
            }
        }
    }
    assert forall|i: int, j: int| 0 <= i < 128 && 0 <= j < 128 && i != j && w.slots[i] is Some && w.slots[j] is Some
        implies #[trigger] w.slots[i]->Some_0.0.id != #[trigger] w.slots[j]->Some_0.0.id
            && (forall|k: int| !(covers(w, i, k) && covers(w, j, k))) by {
        if i != slot && j != slot {
            assert forall|k: int| !(covers(w, i, k) && covers(w, j, k)) by {
                assert(!(covers(v, i, k) && covers(v, j, k)));
            }
        } else if i == slot {
            assert forall|k: int| !(covers(w, i, k) && covers(w, j, k)) by {
                if covers(w, j, k) {
                    assert(covers(v, j, k));
                }
            }
        } else {
            assert forall|k: int| !(covers(w, i, k) && covers(w, j, k)) by {
                if covers(w, i, k) {
                    assert(covers(v, i, k));
                }
            }
        }
    }
    assert forall|i: int| 0 <= i < 128 implies disjoint_from(a, #[trigger] v.slots[i]) by {
        if v.slots[i] is Some && !disjoint_from(a, v.slots[i]) {
            let (b, u) = v.slots[i]->Some_0;
            assert(record_wf(v, b, u));
            let k = if unit_start(b) >= start { unit_start(b) } else { start };
            assert(covers(v, i, k));
            assert(v.used[k]);
        }
    }
}

proof fn lemma_deallocate_wf(v: HeapView, a: Allocation)
    requires
        heap_view_wf(v),
    ensures
        heap_view_wf(heap_deallocate_spec(v, a).0),
        heap_deallocate_spec(v, a).1 is Ok ==> heap_deallocate_spec(heap_deallocate_spec(v, a).0, a).1
            == Err::<(), Error>(Error::Stale),
{
    lemma_first_match(v.slots, a, 0);
    if let Some(i) = first_match(v.slots, a, 0) {
        let w = heap_deallocate_spec(v, a).0;
        let u = v.slots[i as int]->Some_0.1;
        assert forall|k: int| 0 <= k < 4096 implies (#[trigger] w.used[k] <==> exists|j: int| 0 <= j < 128 && covers(w, j, k)) by {
            if unit_start(a) <= k < unit_start(a) + u {
                assert(covers(v, i as int, k));
                if exists|j: int| 0 <= j < 128 && covers(w, j, k) {
                    let j = choose|j: int| 0 <= j < 128 && covers(w, j, k);
                    assert(covers(v, j, k));
                }
            } else if v.used[k] {
                let j = choose|j: int| 0 <= j < 128 && covers(v, j, k);
                assert(j != i);
                assert(covers(w, j, k));
            } else {
                if exists|j: int| 0 <= j < 128 && covers(w, j, k) {
                    let j = choose|j: int| 0 <= j < 128 && covers(w, j, k);
                    assert(covers(v, j, k));
                }
            }
        }
        assert forall|j: int, l: int| 0 <= j < 128 && 0 <= l < 128 && j != l && w.slots[j] is Some && w.slots[l] is Some
            implies #[trigger] w.slots[j]->Some_0.0.id != #[trigger] w.slots[l]->Some_0.0.id
                && (forall|k: int| !(covers(w, j, k) && covers(w, l, k))) by {
            assert forall|k: int| !(covers(w, j, k) && covers(w, l, k)) by {
                assert(!(covers(v, j, k) && covers(v, l, k)));
            }
        }
        lemma_first_match(w.slots, a, 0);
        assert forall|k: int| 0 <= k < w.slots.len() implies !holds(w.slots[k], a) by {
            if k != i && holds(w.slots[k], a) {
                assert(v.slots[k]->Some_0.0.id == v.slots[i as int]->Some_0.0.id);
            }
        }
    }
}

/// Every pair of live allocations of a well-formed heap is byte-disjoint.
pub proof fn law_live_allocations_disjoint(v: HeapView, i: int, j: int)
    requires
        heap_view_wf(v),
        0 <= i < 128,
        0 <= j < 128,
        i != j,
        v.slots[i] is Some,
        v.slots[j] is Some,
    ensures
        ({
            let a = v.slots[i]->Some_0.0;
            let b = v.slots[j]->Some_0.0;
            a.offset + a.size <= b.offset || b.offset + b.size <= a.offset
        }),
{
    let (a, ua) = v.slots[i]->Some_0;
    let (b, ub) = v.slots[j]->Some_0;
    assert(record_wf(v, a, ua));
    assert(record_wf(v, b, ub));
    if !(a.offset + a.size <= b.offset || b.offset + b.size <= a.offset) {
        let k = if unit_start(b) >= unit_start(a) { unit_start(b) } else { unit_start(a) };
        assert(covers(v, i, k) && covers(v, j, k));
        assert(v.slots[i]->Some_0.0.id != v.slots[j]->Some_0.0.id);
    }
}

/// A second release of the same allocation handle is refused as stale.
pub proof fn law_double_free_is_stale(v: HeapView, a: Allocation)
    requires
        heap_view_wf(v),
        heap_deallocate_spec(v, a).1 is Ok,
    ensures
        heap_deallocate_spec(heap_deallocate_spec(v, a).0, a).1 == Err::<(), Error>(Error::Stale),
{
    lemma_deallocate_wf(v, a);
}

/// The spacing, in sixteen-byte units, of the starts an alignment allows.
pub open spec fn unit_step(align: usize) -> int {
    (if align > 16 { align as int } else { 16int }) / 16
}

proof fn lemma_first_fit_least(used: Seq<bool>, units: int, step: int, start: int, q: nat)
    requires
        start >= 0,
        step > 0,
        units > 0,
        start + times(q, step) + units <= 4096,
        first_fit(used, units, step, start) matches Some(s) ==> start + times(q, step) < s,
    ensures
        !range_free(used, start + times(q, step), units),
    decreases q,
{
    assert(times(q, step) >= 0) by (nonlinear_arith)
        requires
            step > 0,
    ;
    if q == 0 {
        assert(times(q, step) == 0) by (nonlinear_arith)
            requires
                q == 0,
        ;
    } else {
        assert(times(q, step) == step + times((q - 1) as nat, step)) by (nonlinear_arith)
            requires
                q > 0,
        ;
        assert(times((q - 1) as nat, step) >= 0) by (nonlinear_arith)
            requires
                step > 0,
        ;
        lemma_first_fit_least(used, units, step, start + step, (q - 1) as nat);
    }
}

/// Allocation is first fit over aligned starts: a request with a zero or
/// oversized size or an alignment that is not a power of two up to 4096 is
/// refused as invalid; a refused request changes nothing; a granted one has
/// the requested size, is aligned to both the alignment and 16 bytes, lies
/// inside the heap, overlaps no live allocation, and no earlier start on
/// that alignment has the units it needs free.
pub proof fn law_allocate_first_fit(v: HeapView, size: usize, align: usize)
    requires
        heap_view_wf(v),
    ensures
        ({
            let (w, r) = heap_allocate_spec(v, size, align);
            let step = unit_step(align);
            let units = units_of(size);
            &&& (size == 0 || size > 65536 || !valid_align(align)) ==> r == Err::<Allocation, Error>(Error::Invalid)
            &&& r is Err ==> w == v
            &&& r matches Ok(a) ==> {
                &&& a.size == size
                &&& a.offset % align == 0
                &&& a.offset % 16 == 0
                &&& a.offset + a.size <= 65536
                &&& forall|i: int| 0 <= i < 128 ==> disjoint_from(a, #[trigger] v.slots[i])
                &&& range_free(v.used, a.offset as int / 16, units)
                &&& forall|q: nat| #[trigger] times(q, step) < a.offset as int / 16 ==> !range_free(v.used, times(q, step), units)
            }
        }),
{
    let (w, r) = heap_allocate_spec(v, size, align);
    if r is Ok {
        lemma_allocate_wf(v, size, align);
        let units = units_of(size);
        let step = unit_step(align);
        let start = first_fit(v.used, units, step, 0)->Some_0;
        lemma_first_fit(v.used, units, step, 0);
        assert(r->Ok_0.offset == start * 16);
        assert((start * 16) / 16 == start);
        assert((start * 16) % 16 == 0);
        assert forall|q: nat| #[trigger] times(q, step) < r->Ok_0.offset as int / 16 implies !range_free(v.used, times(q, step), units) by {
            lemma_first_fit_least(v.used, units, step, 0, q);
        }
    }
}

/// Releasing gives the space back: a released allocation's units are free
/// again, every other unit keeps its state, and the heap stays well formed,
/// so a later request can reuse that space; a handle not live is refused
/// as stale and changes nothing.
pub proof fn law_release_frees_its_units(v: HeapView, a: Allocation)
    requires
        heap_view_wf(v),
    ensures
        ({
            let (w, r) = heap_deallocate_spec(v, a);
            &&& heap_view_wf(w)
            &&& r is Err ==> r == Err::<(), Error>(Error::Stale) && w == v
            &&& r is Ok ==> {
                &&& range_free(w.used, unit_start(a), units_of(a.size))
                &&& forall|k: int|
                    0 <= k < 4096 && !(unit_start(a) <= k < unit_start(a) + units_of(a.size)) ==> #[trigger] w.used[k]
                        == v.used[k]
            }
        }),
{
    lemma_deallocate_wf(v, a);
    lemma_first_match(v.slots, a, 0);
    if let Some(i) = first_match(v.slots, a, 0) {
        let (b, u) = v.slots[i as int]->Some_0;
        assert(record_wf(v, b, u));
    }
}

/// A 64 KiB heap split into 4096 sixteen-byte units with 128 allocation records.
pub struct Heap {
    used: Vec<bool>,
    slots: Vec<Option<Slot>>,
    next_id: u64,
}

spec fn slot_view(s: Option<Slot>) -> Option<(Allocation, usize)> {
    match s {
        Some(x) => Some((x.allocation, x.units)),
        None => None,
    }
}

impl View for Heap {
    type V = HeapView;

    closed spec fn view(&self) -> HeapView {
        HeapView {
            used: self.used@,
            slots: Seq::new(self.slots@.len(), |i: int| slot_view(self.slots@[i])),
            next_id: self.next_id,
        }
    }
}

impl Heap {
    pub closed spec fn wf(&self) -> bool {
        heap_view_wf(self@)
    }

    pub fn new() -> (h: Self)
        ensures
            h.wf(),
            h@.used == Seq::new(4096, |k: int| false),
            h@.slots == Seq::new(128, |k: int| None::<(Allocation, usize)>),
            h@.next_id == 1,
    {
        let h = Heap { used: vec![false; HEAP_UNITS], slots: vec![None; HEAP_SLOTS], next_id: 1 };
        proof {
            assert(h@.used =~= Seq::new(4096, |k: int| false));
            assert(h@.slots =~= Seq::new(128, |k: int| None::<(Allocation, usize)>));
        }
        h
    }

    fn occupied(&self, i: usize) -> (r: bool)
        requires
            i < self.used@.len(),
        ensures
            r == self@.used[i as int],
    {
        self.used[i]
    }

    fn mark(&mut self, i: usize, used: bool)
        requires
            i < old(self).used@.len(),
        ensures
            final(self).used@ == old(self).used@.update(i as int, used),
            final(self).slots == old(self).slots,
            final(self).next_id == old(self).next_id,
    {
        self.used.set(i, used);
    }

    fn range_is_free(&self, start: usize, units: usize) -> (r: bool)
        requires
            start + units <= self.used.len(),
        ensures
            r == range_free(self@.used, start as int, units as int),
    {
        let mut k = start;
        let mut free = true;
        while k < start + units
            invariant
                start <= k <= start + units,
                start + units <= self.used.len(),
                free == forall|j: int| start <= j < k ==> !self@.used[j],
            decreases start + units - k,
        {
            free = free && !self.occupied(k);
            k = k + 1;
        }
        free
    }

    fn mark_all(&mut self, start: usize, units: usize, used: bool)
        requires
            start + units <= old(self).used.len(),
        ensures
            final(self).used@ == mark_range(old(self).used@, start as int, units as int, used),
            final(self).slots == old(self).slots,
            final(self).next_id == old(self).next_id,
    {
        let mut k = start;
        while k < start + units
            invariant
                start <= k <= start + units,
                start + units <= self.used.len(),
                self.used@.len() == old(self).used@.len(),
                self.slots == old(self).slots,
                self.next_id == old(self).next_id,
                forall|j: int| 0 <= j < self.used@.len() ==> #[trigger] self.used@[j] == if start <= j < k {
                    used
                } else {
                    old(self).used@[j]
                },
            decreases start + units - k,
        {
            self.mark(k, used);
            k = k + 1;
        }
        proof {
            assert(self.used@ =~= mark_range(old(self).used@, start as int, units as int, used));
        }
    }

    /// First-fit allocation of `size` bytes aligned to `align` (a power of two up to 4096).
    pub fn allocate(&mut self, size: usize, align: usize) -> (r: Result<Allocation, Error>)
        requires
            old(self).wf(),
        ensures
            final(self).wf(),
            final(self)@ == heap_allocate_spec(old(self)@, size, align).0,
            r == heap_allocate_spec(old(self)@, size, align).1,
            r matches Ok(a) ==> a.size == size && a.offset % align == 0 && a.offset + a.size <= 65536
                && forall|i: int| 0 <= i < 128 ==> disjoint_from(a, #[trigger] old(self)@.slots[i]),
    {
        let ghost v = self@;
        if size == 0 || size > 65536 || !(align == 1 || align == 2 || align == 4 || align == 8
            || align == 16 || align == 32 || align == 64 || align == 128 || align == 256 || align == 512
            || align == 1024 || align == 2048 || align == 4096) {
            return Err(Error::Invalid);
        }
        let mut slot: usize = 0;
        while slot < HEAP_SLOTS && self.slots[slot].is_some()
            invariant
                self@ == v,
                heap_view_wf(v),
                slot <= 128,
                first_none(v.slots, 0) == first_none(v.slots, slot as nat),
            decreases 128 - slot,
        {
            slot = slot + 1;
        }
        if slot == HEAP_SLOTS {
            return Err(Error::Exhausted);
        }
        let units = (size + 15) / 16;
        let id = self.next_id;
        let next_id = match id.checked_add(1) {
            Some(n) => n,
            None => return Err(Error::Exhausted),
        };
        let step = (if align > 16 { align } else { 16 }) / 16;
        let mut start: usize = 0;
        while start + units <= HEAP_UNITS
            invariant
                self@ == v,
                v == old(self)@,
                heap_view_wf(v),
                1 <= units <= 4096,
                units == units_of(size),
                1 <= step <= 256,
                step == (if align > 16 { align } else { 16usize }) / 16,
                slot < 128,
                first_none(v.slots, 0) == Some(slot as nat),
                id == v.next_id,
                next_id == id + 1,
                start <= 4096 + 256,
                size >= 1 && size <= 65536 && valid_align(align),
                first_fit(v.used, units as int, step as int, 0) == first_fit(v.used, units as int, step as int, start as int),
            decreases 4097 + 256 - start,
        {
            if self.range_is_free(start, units) {
                let allocation = Allocation { offset: start * 16, size, id };
                self.mark_all(start, units, true);
                self.slots.set(slot, Some(Slot { allocation, units }));
                self.next_id = next_id;
                proof {
                    assert(first_fit(v.used, units as int, step as int, start as int) == Some(start as int));
                    assert(self@.slots =~= v.slots.update(slot as int, Some((allocation, units))));
                    assert(self@ == heap_allocate_spec(v, size, align).0);
                    lemma_allocate_wf(v, size, align);
                }
                return Ok(allocation);
            }
            start = start + step;
        }
        Err(Error::Exhausted)
    }

    /// Releases a live allocation; unknown, forged or already released handles are stale.
    pub fn deallocate(&mut self, allocation: Allocation) -> (r: Result<(), Error>)
        requires
            old(self).wf(),
        ensures
            final(self).wf(),
            final(self)@ == heap_deallocate_spec(old(self)@, allocation).0,
            r == heap_deallocate_spec(old(self)@, allocation).1,
    {
        let ghost v = self@;
        let mut i: usize = 0;
        while i < HEAP_SLOTS
            invariant
                self@ == v,
                v == old(self)@,
                heap_view_wf(v),
                self.slots@.len() == 128,
                i <= 128,
                first_match(v.slots, allocation, 0) == first_match(v.slots, allocation, i as nat),
            decreases 128 - i,
        {
            let matches = match self.slots[i] {
                Some(s) => s.allocation == allocation,
                None => false,
            };
            if matches {
                let record = self.slots[i].unwrap();
                proof {
                    assert(first_match(v.slots, allocation, i as nat) == Some(i as nat));
                    assert(record_wf(v, allocation, record.units));
                }
                self.slots.set(i, None);
                self.mark_all(allocation.offset / 16, record.units, false);
                proof {
                    assert(self@.slots =~= v.slots.update(i as int, None));
                    lemma_deallocate_wf(v, allocation);
                }
                return Ok(());
            }
            i = i + 1;
        }
        Err(Error::Stale)
    }
}

pub open spec fn validate_virtual_page_spec(address: u64) -> Result<(), Error> {
    if address == 0 || address % 4096 != 0 || !canonical_spec(address) {
        Err(Error::Invalid)
    } else {
        Ok(())
    }
}

pub fn validate_virtual_page(address: u64) -> (r: Result<(), Error>)
    ensures
        r == validate_virtual_page_spec(address),
{
    if address == 0 || address % PAGE != 0 || !canonical(address) {
        Err(Error::Invalid)
    } else {
        Ok(())
    }
}

/// One CRC-32 (reflected, polynomial 0xedb88320) bit step.
pub open spec fn crc_round(c: u32) -> u32 {
    (c >> 1u32) ^ (if c & 1 != 0 { 0xedb8_8320u32 } else { 0u32 })
}

pub open spec fn crc_rounds(c: u32, k: nat) -> u32
    decreases k,
{
    if k == 0 { c } else { crc_round(crc_rounds(c, (k - 1) as nat)) }
}

/// Table CRC over the first `n` bytes, with the stored CRC field (16..20) as zero.
pub open spec fn table_crc(b: Seq<u8>, n: nat) -> u32
    decreases n,
{
    if n == 0 {
        0xffff_ffffu32
    } else {
        let byte: u32 = if 16 <= n - 1 < 20 { 0u32 } else { b[n - 1] as u32 };
        crc_rounds(table_crc(b, (n - 1) as nat) ^ byte, 8)
    }
}

pub open spec fn validate_table_spec(b: Seq<u8>, signature: u64, minimum: usize) -> Result<(), Error> {
    if b.len() < 24 || b.len() > 4096 || b.len() < minimum {
        Err(Error::Invalid)
    } else if le64(b, 0) != signature || le32(b, 8) < 0x0002_0000 || le32(b, 12) != b.len()
        || le32(b, 20) != 0 {
        Err(Error::Invalid)
    } else if !table_crc(b, b.len()) != le32(b, 16) {
        Err(Error::Invalid)
    } else {
        Ok(())
    }
}

/// Firmware table header check: size, signature, revision, reserved word and CRC.
pub fn validate_table(bytes: &[u8], signature: u64, minimum: usize) -> (r: Result<(), Error>)
    ensures
        r == validate_table_spec(bytes@, signature, minimum),
{
    if bytes.len() < 24 || bytes.len() > 4096 || bytes.len() < minimum {
        return Err(Error::Invalid);
    }
    if read64(bytes, 0) != signature || read32(bytes, 8) < 0x0002_0000
        || read32(bytes, 12) as usize != bytes.len() || read32(bytes, 20) != 0 {
        return Err(Error::Invalid);
    }
    let mut crc: u32 = 0xffff_ffff;
    let mut i: usize = 0;
    while i < bytes.len()
        invariant
            i <= bytes@.len(),
            crc == table_crc(bytes@, i as nat),
        decreases bytes.len() - i,
    {
        let byte: u32 = if 16 <= i && i < 20 { 0 } else { bytes[i] as u32 };
        let c0 = crc ^ byte;
        crc = c0;
        let mut k: usize = 0;
        while k < 8
            invariant
                k <= 8,
                crc == crc_rounds(c0, k as nat),
            decreases 8 - k,
        {
            crc = (crc >> 1) ^ if crc & 1 != 0 { 0xedb8_8320u32 } else { 0u32 };
            k = k + 1;
        }
        i = i + 1;
    }
    if !crc != read32(bytes, 16) {
        return Err(Error::Invalid);
    }
    Ok(())
}

} // verus!
