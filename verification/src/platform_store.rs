//! Volatile single-level file storage of the platform test service, with a
//! per-owner namespace and quotas, and the PS/2 set-1 make/break detector.
//! Not a persistent filesystem.
use vstd::prelude::*;

verus! {

pub const WIRE: usize = 128;
pub const FILES: usize = 16;
pub const MAX_NAME: usize = 12;
pub const MAX_DATA: usize = 64;
pub const OWNER_FILES: usize = 4;
pub const OWNER_BYTES: usize = 128;
pub const CREATE: u8 = 1;
pub const WRITE: u8 = 2;
pub const READ: u8 = 3;
pub const LIST: u8 = 4;
pub const OK: u8 = 0;
pub const INVALID: u8 = 1;
pub const NOT_FOUND: u8 = 2;
pub const EXISTS: u8 = 3;
pub const QUOTA: u8 = 4;

/// The kernel-stamped identity a file belongs to.
#[derive(Clone, Copy, Debug, PartialEq, Eq, Structural)]
pub struct Owner {
    pub task: u8,
    pub generation: u32,
}

/// One stored file.
pub struct FileView {
    pub owner: Owner,
    pub name: Seq<u8>,
    pub data: Seq<u8>,
}

struct File {
    owner: Owner,
    name: Vec<u8>,
    data: Vec<u8>,
}

impl View for File {
    type V = FileView;

    closed spec fn view(&self) -> FileView {
        FileView { owner: self.owner, name: self.name@, data: self.data@ }
    }
}

pub open spec fn zeros(n: nat) -> Seq<u8> {
    Seq::new(n, |i: int| 0u8)
}

/// Letters, digits, '.' and '-'.
pub open spec fn name_char(b: u8) -> bool {
    (48 <= b <= 57) || (65 <= b <= 90) || (97 <= b <= 122) || b == 46 || b == 45
}

/// A file name: non-empty, not "." or "..", of name characters only.
pub open spec fn name_ok(name: Seq<u8>) -> bool {
    &&& name.len() > 0
    &&& name != seq![46u8]
    &&& name != seq![46u8, 46u8]
    &&& forall|i: int| 0 <= i < name.len() ==> name_char(#[trigger] name[i])
}

/// Shape of a request: a known operation, bounded name and data lengths,
/// zero reserved and padding bytes, data only for a write, and a valid name
/// for every operation but a listing, which has none.
pub open spec fn request_ok(req: Seq<u8>) -> bool {
    let op = req[0];
    let nl = req[1] as int;
    let dl = req[2] as int;
    &&& req.len() == WIRE
    &&& 1 <= op <= 4
    &&& nl <= MAX_NAME
    &&& dl <= MAX_DATA
    &&& req[3] == 0
    &&& forall|i: int| 4 + nl <= i < 16 ==> req[i] == 0
    &&& forall|i: int| 16 + dl <= i < WIRE ==> req[i] == 0
    &&& (op != WRITE ==> dl == 0)
    &&& if op == LIST { nl == 0 } else { name_ok(req.subrange(4, 4 + nl)) }
}

pub open spec fn owned(f: Option<FileView>, owner: Owner) -> bool {
    f matches Some(v) && v.owner == owner
}

pub open spec fn named(f: Option<FileView>, owner: Owner, name: Seq<u8>) -> bool {
    owned(f, owner) && f->Some_0.name == name
}

/// First of the first `n` slots holding `owner`'s file `name`.
pub open spec fn find(files: Seq<Option<FileView>>, owner: Owner, name: Seq<u8>, n: int) -> Option<int>
    decreases n,
{
    if n <= 0 {
        None
    } else {
        match find(files, owner, name, n - 1) {
            Some(i) => Some(i),
            None => if named(files[n - 1], owner, name) {
                Some(n - 1)
            } else {
                None
            },
        }
    }
}

/// First free slot among the first `n`.
pub open spec fn free(files: Seq<Option<FileView>>, n: int) -> Option<int>
    decreases n,
{
    if n <= 0 {
        None
    } else {
        match free(files, n - 1) {
            Some(i) => Some(i),
            None => if files[n - 1] is None {
                Some(n - 1)
            } else {
                None
            },
        }
    }
}

/// Number of `owner`'s files among the first `n` slots.
pub open spec fn count(files: Seq<Option<FileView>>, owner: Owner, n: int) -> nat
    decreases n,
{
    if n <= 0 {
        0
    } else {
        count(files, owner, n - 1) + if owned(files[n - 1], owner) { 1nat } else { 0nat }
    }
}

/// Data bytes of `owner`'s files among the first `n` slots.
pub open spec fn bytes(files: Seq<Option<FileView>>, owner: Owner, n: int) -> nat
    decreases n,
{
    if n <= 0 {
        0
    } else {
        bytes(files, owner, n - 1) + if owned(files[n - 1], owner) { files[n - 1]->Some_0.data.len() } else { 0 }
    }
}

/// Listing of `owner`'s files among the first `n` slots: each name preceded
/// by its length, in slot order.
pub open spec fn listing(files: Seq<Option<FileView>>, owner: Owner, n: int) -> Seq<u8>
    decreases n,
{
    if n <= 0 {
        Seq::empty()
    } else {
        listing(files, owner, n - 1) + if owned(files[n - 1], owner) {
            seq![files[n - 1]->Some_0.name.len() as u8] + files[n - 1]->Some_0.name
        } else {
            Seq::empty()
        }
    }
}

pub open spec fn status_reply(code: u8) -> Seq<u8> {
    seq![code] + zeros(127)
}

/// What one request does to the files and what is answered.
pub open spec fn process_spec(files: Seq<Option<FileView>>, owner: Owner, req: Seq<u8>) -> (Seq<Option<FileView>>, Seq<u8>) {
    if owner.generation == 0 || !request_ok(req) {
        (files, status_reply(INVALID))
    } else {
        let op = req[0];
        let nl = req[1] as int;
        let dl = req[2] as int;
        let name = req.subrange(4, 4 + nl);
        let data = req.subrange(16, 16 + dl);
        let found = find(files, owner, name, FILES as int);
        if op == CREATE {
            if found is Some {
                (files, status_reply(EXISTS))
            } else if count(files, owner, FILES as int) >= OWNER_FILES {
                (files, status_reply(QUOTA))
            } else if free(files, FILES as int) is None {
                (files, status_reply(QUOTA))
            } else {
                (
                    files.update(free(files, FILES as int)->Some_0, Some(FileView { owner, name, data: Seq::empty() })),
                    status_reply(OK),
                )
            }
        } else if op == WRITE {
            if found is None {
                (files, status_reply(NOT_FOUND))
            } else {
                let i = found->Some_0;
                let old = files[i]->Some_0;
                if bytes(files, owner, FILES as int) - old.data.len() + dl > OWNER_BYTES {
                    (files, status_reply(QUOTA))
                } else {
                    (files.update(i, Some(FileView { data, ..old })), status_reply(OK))
                }
            }
        } else if op == READ {
            if found is None {
                (files, status_reply(NOT_FOUND))
            } else {
                let d = files[found->Some_0]->Some_0.data;
                (files, seq![OK, 0u8, d.len() as u8] + zeros(13) + d + zeros((MAX_DATA + 48 - d.len()) as nat))
            }
        } else {
            let l = listing(files, owner, FILES as int);
            (
                files,
                seq![OK, count(files, owner, FILES as int) as u8, 0u8, 0u8] + l + zeros((124 - l.len()) as nat),
            )
        }
    }
}

pub open spec fn file_view(f: Option<File>) -> Option<FileView> {
    match f {
        Some(x) => Some(x@),
        None => None,
    }
}

/// The file store: sixteen slots.
pub struct Store {
    files: Vec<Option<File>>,
}

impl View for Store {
    type V = Seq<Option<FileView>>;

    closed spec fn view(&self) -> Seq<Option<FileView>> {
        self.files@.map_values(|f: Option<File>| file_view(f))
    }
}

/// Well-formedness: sixteen slots, bounded names and data, and no owner
/// above its file quota.
pub open spec fn store_wf(files: Seq<Option<FileView>>) -> bool {
    &&& files.len() == FILES
    &&& forall|i: int|
        0 <= i < FILES ==> (#[trigger] files[i] matches Some(f) ==> 1 <= f.name.len() <= MAX_NAME && f.data.len()
            <= MAX_DATA)
    &&& forall|o: Owner| #[trigger] count(files, o, FILES as int) <= OWNER_FILES
}

proof fn lemma_count_bound(files: Seq<Option<FileView>>, owner: Owner, n: int, m: int)
    requires
        0 <= n <= m,
    ensures
        count(files, owner, n) <= count(files, owner, m),
    decreases m - n,
{
    if n < m {
        lemma_count_bound(files, owner, n, m - 1);
    }
}

proof fn lemma_listing_len(files: Seq<Option<FileView>>, owner: Owner, n: int)
    requires
        0 <= n <= files.len(),
        forall|i: int| 0 <= i < files.len() ==> (#[trigger] files[i] matches Some(f) ==> f.name.len() <= MAX_NAME),
    ensures
        listing(files, owner, n).len() <= 13 * count(files, owner, n),
    decreases n,
{
    if n > 0 {
        lemma_listing_len(files, owner, n - 1);
    }
}

/// Filling a free slot adds one file to its owner's count and none to others.
proof fn lemma_count_fill(files: Seq<Option<FileView>>, j: int, f: FileView, o: Owner, n: int)
    requires
        0 <= j < files.len(),
        files[j] is None,
        0 <= n <= files.len(),
    ensures
        count(files.update(j, Some(f)), o, n) == count(files, o, n) + if j < n && f.owner == o { 1nat } else { 0nat },
    decreases n,
{
    if n > 0 {
        lemma_count_fill(files, j, f, o, n - 1);
    }
}

/// Replacing a file's data keeps every owner's count.
proof fn lemma_count_rewrite(files: Seq<Option<FileView>>, j: int, f: FileView, o: Owner, n: int)
    requires
        0 <= j < files.len(),
        files[j] matches Some(g) && g.owner == f.owner,
        0 <= n <= files.len(),
    ensures
        count(files.update(j, Some(f)), o, n) == count(files, o, n),
    decreases n,
{
    if n > 0 {
        lemma_count_rewrite(files, j, f, o, n - 1);
    }
}

fn status(code: u8) -> (r: [u8; 128])
    ensures
        r@ == status_reply(code),
{
    let mut reply = [0u8; 128];
    reply[0] = code;
    proof {
        assert(reply@ =~= status_reply(code));
    }
    reply
}

fn copy_bytes(s: &[u8]) -> (r: Vec<u8>)
    ensures
        r@ == s@,
{
    let mut v: Vec<u8> = Vec::new();
    let mut i: usize = 0;
    while i < s.len()
        invariant
            i <= s@.len(),
            v@ == s@.subrange(0, i as int),
        decreases s@.len() - i,
    {
        v.push(s[i]);
        i = i + 1;
        proof {
            assert(v@ =~= s@.subrange(0, i as int));
        }
    }
    proof {
        assert(v@ =~= s@);
    }
    v
}

/// Checks the shape of a request of the right length.
fn check_request(req: &[u8]) -> (r: bool)
    requires
        req@.len() == WIRE,
    ensures
        r == request_ok(req@),
{
    let op = req[0];
    let nl = req[1] as usize;
    let dl = req[2] as usize;
    if !(1 <= op && op <= 4) || nl > MAX_NAME || dl > MAX_DATA || req[3] != 0 {
        return false;
    }
    let mut i: usize = 4 + nl;
    while i < 16
        invariant
            4 + nl <= i <= 16,
            req@.len() == WIRE,
            nl == req@[1],
            nl <= MAX_NAME,
            forall|k: int| 4 + nl <= k < i ==> req@[k] == 0,
        decreases 16 - i,
    {
        if req[i] != 0 {
            return false;
        }
        i = i + 1;
    }
    let mut i: usize = 16 + dl;
    while i < WIRE
        invariant
            16 + dl <= i <= WIRE,
            req@.len() == WIRE,
            dl == req@[2],
            dl <= MAX_DATA,
            forall|k: int| 16 + dl <= k < i ==> req@[k] == 0,
        decreases WIRE - i,
    {
        if req[i] != 0 {
            return false;
        }
        i = i + 1;
    }
    if op != WRITE && dl != 0 {
        return false;
    }
    if op == LIST {
        return nl == 0;
    }
    let ghost name = req@.subrange(4, 4 + nl as int);
    if nl == 0 {
        return false;
    }
    if nl == 1 && req[4] == 46 {
        proof {
            assert(name =~= seq![46u8]);
        }
        return false;
    }
    if nl == 2 && req[4] == 46 && req[5] == 46 {
        proof {
            assert(name =~= seq![46u8, 46u8]);
        }
        return false;
    }
    proof {
        if nl == 1 {
            assert(name[0] != seq![46u8][0]);
        }
        if nl == 2 {
            assert(name[0] != seq![46u8, 46u8][0] || name[1] != seq![46u8, 46u8][1]);
        }
    }
    let mut k: usize = 0;
    while k < nl
        invariant
            k <= nl <= MAX_NAME,
            req@.len() == WIRE,
            nl == req@[1],
            name == req@.subrange(4, 4 + nl as int),
            forall|j: int| 0 <= j < k ==> name_char(#[trigger] name[j]),
        decreases nl - k,
    {
        let b = req[4 + k];
        if !((48 <= b && b <= 57) || (65 <= b && b <= 90) || (97 <= b && b <= 122) || b == 46 || b == 45) {
            proof {
                assert(!name_char(name[k as int]));
            }
            return false;
        }
        k = k + 1;
    }
    true
}

/// What a scan of the slots finds for one owner and name.
struct Scan {
    found: Option<usize>,
    free: Option<usize>,
    count: usize,
    bytes: usize,
}

impl Store {
    pub fn new() -> (s: Self)
        ensures
            store_wf(s@),
            s@ == Seq::new(FILES as nat, |i: int| None::<FileView>),
    {
        let mut files: Vec<Option<File>> = Vec::new();
        let mut i: usize = 0;
        while i < FILES
            invariant
                i <= FILES,
                files@.len() == i,
                forall|k: int| 0 <= k < i ==> files@[k] is None,
            decreases FILES - i,
        {
            files.push(None);
            i = i + 1;
        }
        let s = Store { files };
        proof {
            assert(s@ =~= Seq::new(FILES as nat, |i: int| None::<FileView>));
            assert forall|o: Owner| #[trigger] count(s@, o, FILES as int) <= OWNER_FILES by {
                lemma_count_zero(s@, o, FILES as int);
            }
        }
        s
    }

    fn scan(&self, owner: Owner, name: &[u8]) -> (r: Scan)
        requires
            store_wf(self@),
        ensures
            r.found == (match find(self@, owner, name@, FILES as int) {
                Some(i) => Some(i as usize),
                None => None::<usize>,
            }),
            r.free == (match free(self@, FILES as int) {
                Some(i) => Some(i as usize),
                None => None::<usize>,
            }),
            r.count == count(self@, owner, FILES as int),
            r.bytes == bytes(self@, owner, FILES as int),
            r.bytes <= MAX_DATA * FILES,
    {
        let mut found: Option<usize> = None;
        let mut slot: Option<usize> = None;
        let mut n: usize = 0;
        let mut total: usize = 0;
        let mut j: usize = 0;
        while j < FILES
            invariant
                j <= FILES,
                store_wf(self@),
                found == (match find(self@, owner, name@, j as int) {
                    Some(i) => Some(i as usize),
                    None => None::<usize>,
                }),
                slot == (match free(self@, j as int) {
                    Some(i) => Some(i as usize),
                    None => None::<usize>,
                }),
                n == count(self@, owner, j as int),
                total == bytes(self@, owner, j as int),
                n <= j,
                total <= MAX_DATA * j,
            decreases FILES - j,
        {
            assert(self@[j as int] == file_view(self.files@[j as int]));
            match &self.files[j] {
                Some(f) => {
                    if f.owner == owner {
                        if found.is_none() && crate::network::same_bytes(f.name.as_slice(), name) {
                            found = Some(j);
                        }
                        n = n + 1;
                        total = total + f.data.len();
                    }
                },
                None => {
                    if slot.is_none() {
                        slot = Some(j);
                    }
                },
            }
            j = j + 1;
        }
        Scan { found, free: slot, count: n, bytes: total }
    }

    /// Serves one request of `owner`, whose identity is taken only from the
    /// kernel's receive envelope, never from the request bytes.
    #[verifier::rlimit(60)]
    pub fn process(&mut self, owner: Owner, request: &[u8]) -> (reply: [u8; 128])
        requires
            store_wf(old(self)@),
        ensures
            store_wf(final(self)@),
            final(self)@ == process_spec(old(self)@, owner, request@).0,
            reply@ == process_spec(old(self)@, owner, request@).1,
    {
        if owner.generation == 0 || request.len() != WIRE {
            return status(INVALID);
        }
        if !check_request(request) {
            return status(INVALID);
        }
        let op = request[0];
        let nl = request[1] as usize;
        let dl = request[2] as usize;
        let name = &request[4..4 + nl];
        let found_scan = self.scan(owner, name);
        if op == CREATE {
            if found_scan.found.is_some() {
                return status(EXISTS);
            }
            if found_scan.count >= OWNER_FILES {
                return status(QUOTA);
            }
            let j = match found_scan.free {
                Some(j) => j,
                None => return status(QUOTA),
            };
            proof {
                lemma_free_is_free(self@, FILES as int);
            }
            let f = File { owner, name: copy_bytes(name), data: Vec::new() };
            let ghost before = self@;
            self.files.set(j, Some(f));
            proof {
                assert(self@ =~= before.update(j as int, Some(f@)));
                assert(f@.data =~= Seq::<u8>::empty());
                assert forall|o: Owner| #[trigger] count(self@, o, FILES as int) <= OWNER_FILES by {
                    lemma_count_fill(before, j as int, f@, o, FILES as int);
                }
            }
            return status(OK);
        }
        if op == WRITE {
            let j = match found_scan.found {
                Some(j) => j,
                None => return status(NOT_FOUND),
            };
            proof {
                lemma_find_is_named(self@, owner, name@, FILES as int);
            }
            let ghost before = self@;
            let old_len = match &self.files[j] {
                Some(f) => f.data.len(),
                None => 0,
            };
            proof {
                assert(before[j as int] == file_view(self.files@[j as int]));
                lemma_find_is_named(before, owner, name@, FILES as int);
                lemma_bytes_ge(before, owner, j as int, FILES as int);
                assert(old_len == before[j as int]->Some_0.data.len());
                assert(found_scan.bytes >= old_len);
            }
            if found_scan.bytes - old_len + dl > OWNER_BYTES {
                return status(QUOTA);
            }
            let data = copy_bytes(&request[16..16 + dl]);
            let g = match self.files[j] {
                Some(ref f) => File { owner: f.owner, name: copy_bytes(f.name.as_slice()), data },
                None => File { owner, name: Vec::new(), data },
            };
            self.files.set(j, Some(g));
            proof {
                assert(self@ =~= before.update(j as int, Some(FileView { data: request@.subrange(16, 16 + dl as int), ..before[j as int]->Some_0 })));
                assert forall|o: Owner| #[trigger] count(self@, o, FILES as int) <= OWNER_FILES by {
                    lemma_count_rewrite(before, j as int, g@, o, FILES as int);
                }
            }
            return status(OK);
        }
        if op == READ {
            let j = match found_scan.found {
                Some(j) => j,
                None => return status(NOT_FOUND),
            };
            proof {
                lemma_find_is_named(self@, owner, name@, FILES as int);
                assert(self@[j as int] == file_view(self.files@[j as int]));
            }
            let mut reply = [0u8; 128];
            match &self.files[j] {
                Some(f) => {
                    reply[2] = f.data.len() as u8;
                    let mut k: usize = 0;
                    while k < f.data.len()
                        invariant
                            k <= f.data@.len() <= MAX_DATA,
                            reply@.len() == 128,
                            reply@[0] == OK && reply@[1] == 0 && reply@[2] == f.data@.len() as u8,
                            forall|x: int| 3 <= x < 16 ==> reply@[x] == 0,
                            forall|x: int| 0 <= x < k ==> reply@[16 + x] == f.data@[x],
                            forall|x: int| 16 + k <= x < 128 ==> reply@[x] == 0,
                        decreases f.data@.len() - k,
                    {
                        reply[16 + k] = f.data[k];
                        k = k + 1;
                    }
                    proof {
                        let d = f.data@;
                        assert(reply@ =~= seq![OK, 0u8, d.len() as u8] + zeros(13) + d + zeros((MAX_DATA + 48 - d.len()) as nat));
                    }
                },
                None => {},
            }
            return reply;
        }
        self.list(owner)
    }

    fn list(&self, owner: Owner) -> (reply: [u8; 128])
        requires
            store_wf(self@),
        ensures
            reply@ == (seq![OK, count(self@, owner, FILES as int) as u8, 0u8, 0u8] + listing(self@, owner, FILES as int)
                + zeros((124 - listing(self@, owner, FILES as int).len()) as nat)),
    {
        let mut reply = [0u8; 128];
        let mut offset: usize = 4;
        let mut n: u8 = 0;
        let mut j: usize = 0;
        proof {
            lemma_count_bound(self@, owner, 0, FILES as int);
        }
        while j < FILES
            invariant
                j <= FILES,
                store_wf(self@),
                reply@.len() == 128,
                n == count(self@, owner, j as int),
                count(self@, owner, j as int) <= OWNER_FILES,
                offset == 4 + listing(self@, owner, j as int).len(),
                offset <= 4 + 13 * n,
                reply@[0] == OK && reply@[1] == n && reply@[2] == 0 && reply@[3] == 0,
                reply@.subrange(4, offset as int) == listing(self@, owner, j as int),
                forall|x: int| offset <= x < 128 ==> reply@[x] == 0,
            decreases FILES - j,
        {
            proof {
                lemma_count_bound(self@, owner, j as int + 1, FILES as int);
                lemma_listing_len(self@, owner, j as int);
            }
            assert(self@[j as int] == file_view(self.files@[j as int]));
            match &self.files[j] {
                Some(f) => {
                    if f.owner == owner {
                        let ghost before = reply@;
                        let len = f.name.len();
                        reply[offset] = len as u8;
                        let mut k: usize = 0;
                        while k < len
                            invariant
                                k <= len <= MAX_NAME,
                                len == f.name@.len(),
                                offset + 1 + len <= 128,
                                reply@.len() == 128,
                                forall|x: int| 0 <= x <= offset ==> reply@[x] == before.update(offset as int, len as u8)[x],
                                forall|x: int| 0 <= x < k ==> reply@[offset + 1 + x] == f.name@[x],
                                forall|x: int| offset + 1 + k <= x < 128 ==> reply@[x] == 0,
                            decreases len - k,
                        {
                            reply[offset + 1 + k] = f.name[k];
                            k = k + 1;
                        }
                        proof {
                            assert(reply@.subrange(4, (offset + 1 + len) as int) =~= listing(self@, owner, j as int)
                                + (seq![len as u8] + f.name@));
                        }
                        offset = offset + 1 + len;
                        n = n + 1;
                        reply[1] = n;
                    }
                },
                None => {},
            }
            proof {
                assert(reply@.subrange(4, offset as int) =~= listing(self@, owner, j as int + 1));
            }
            j = j + 1;
        }
        proof {
            assert(reply@ =~= seq![OK, n, 0u8, 0u8] + listing(self@, owner, FILES as int) + zeros(
                (124 - listing(self@, owner, FILES as int).len()) as nat,
            ));
        }
        reply
    }
}

proof fn lemma_count_zero(files: Seq<Option<FileView>>, o: Owner, n: int)
    requires
        0 <= n <= files.len(),
        forall|i: int| 0 <= i < files.len() ==> files[i] is None,
    ensures
        count(files, o, n) == 0,
    decreases n,
{
    if n > 0 {
        lemma_count_zero(files, o, n - 1);
    }
}

proof fn lemma_find_is_named(files: Seq<Option<FileView>>, owner: Owner, name: Seq<u8>, n: int)
    ensures
        find(files, owner, name, n) matches Some(i) ==> 0 <= i < n && named(files[i], owner, name),
    decreases n,
{
    if n > 0 {
        lemma_find_is_named(files, owner, name, n - 1);
    }
}

proof fn lemma_free_is_free(files: Seq<Option<FileView>>, n: int)
    ensures
        free(files, n) matches Some(i) ==> 0 <= i < n && files[i] is None,
    decreases n,
{
    if n > 0 {
        lemma_free_is_free(files, n - 1);
    }
}

proof fn lemma_bytes_ge(files: Seq<Option<FileView>>, owner: Owner, j: int, n: int)
    requires
        0 <= j < n,
    ensures
        owned(files[j], owner) ==> bytes(files, owner, n) >= files[j]->Some_0.data.len(),
    decreases n,
{
    if n - 1 > j {
        lemma_bytes_ge(files, owner, j, n - 1);
    }
}

/// Builds a request; `None` where the name or data is too long.
pub fn request(op: u8, name: &[u8], data: &[u8]) -> (r: Option<[u8; 128]>)
    ensures
        r is Some <==> (name@.len() <= MAX_NAME && data@.len() <= MAX_DATA),
        r matches Some(w) ==> w@ == seq![op, name@.len() as u8, data@.len() as u8, 0u8] + name@ + zeros(
            (12 - name@.len()) as nat,
        ) + data@ + zeros((112 - data@.len()) as nat),
{
    if name.len() > MAX_NAME || data.len() > MAX_DATA {
        return None;
    }
    let mut wire = [0u8; 128];
    wire[0] = op;
    wire[1] = name.len() as u8;
    wire[2] = data.len() as u8;
    let mut i: usize = 0;
    while i < name.len()
        invariant
            i <= name@.len() <= MAX_NAME,
            wire@.len() == 128,
            wire@[0] == op && wire@[1] == name@.len() as u8 && wire@[2] == data@.len() as u8 && wire@[3] == 0,
            forall|k: int| 0 <= k < i ==> wire@[4 + k] == name@[k],
            forall|k: int| 4 + i <= k < 128 ==> wire@[k] == 0,
        decreases name@.len() - i,
    {
        wire[4 + i] = name[i];
        i = i + 1;
    }
    let mut i: usize = 0;
    while i < data.len()
        invariant
            i <= data@.len() <= MAX_DATA,
            name@.len() <= MAX_NAME,
            wire@.len() == 128,
            wire@[0] == op && wire@[1] == name@.len() as u8 && wire@[2] == data@.len() as u8 && wire@[3] == 0,
            forall|k: int| 0 <= k < name@.len() ==> wire@[4 + k] == name@[k],
            forall|k: int| 4 + name@.len() <= k < 16 ==> wire@[k] == 0,
            forall|k: int| 0 <= k < i ==> wire@[16 + k] == data@[k],
            forall|k: int| 16 + i <= k < 128 ==> wire@[k] == 0,
        decreases data@.len() - i,
    {
        wire[16 + i] = data[i];
        i = i + 1;
    }
    proof {
        assert(wire@ =~= seq![op, name@.len() as u8, data@.len() as u8, 0u8] + name@ + zeros(
            (12 - name@.len()) as nat,
        ) + data@ + zeros((112 - data@.len()) as nat));
    }
    Some(wire)
}

/// Set-1 detector for the fixed translated PS/2 controller: reports, from
/// then on, that the A key was made and then broken. Extended sequences
/// never count as A, and a lone break proves nothing.
pub struct Keyboard {
    extended: bool,
    made: bool,
    completed: bool,
}

/// Abstract detector state: an extended prefix pending, A made, proof seen.
pub struct KeyboardView {
    pub extended: bool,
    pub made: bool,
    pub completed: bool,
}

impl View for Keyboard {
    type V = KeyboardView;

    closed spec fn view(&self) -> KeyboardView {
        KeyboardView { extended: self.extended, made: self.made, completed: self.completed }
    }
}

/// One byte of input to the detector.
pub open spec fn feed_spec(k: KeyboardView, byte: u8) -> KeyboardView {
    if byte == 0xe0 || byte == 0xe1 {
        KeyboardView { extended: true, ..k }
    } else if k.extended {
        KeyboardView { extended: false, ..k }
    } else if byte == 0x1e {
        KeyboardView { made: true, ..k }
    } else if byte == 0x9e && k.made {
        KeyboardView { completed: true, made: false, ..k }
    } else {
        k
    }
}

impl Keyboard {
    pub fn new() -> (k: Self)
        ensures
            k@ == (KeyboardView { extended: false, made: false, completed: false }),
    {
        Keyboard { extended: false, made: false, completed: false }
    }

    /// Feeds one byte; returns whether a make-then-break of A has been seen
    /// (outside an extended sequence) at any point so far.
    pub fn feed(&mut self, byte: u8) -> (r: bool)
        ensures
            final(self)@ == feed_spec(old(self)@, byte),
            r == (if byte == 0xe0 || byte == 0xe1 || old(self)@.extended { false } else { feed_spec(old(self)@, byte).completed }),
    {
        if byte == 0xe0 || byte == 0xe1 {
            self.extended = true;
            return false;
        }
        if self.extended {
            self.extended = false;
            return false;
        }
        if byte == 0x1e {
            self.made = true;
        }
        if byte == 0x9e && self.made {
            self.completed = true;
            self.made = false;
        }
        self.completed
    }
}

proof fn lemma_find_owned(files: Seq<Option<FileView>>, owner: Owner, name: Seq<u8>, n: int)
    ensures
        find(files, owner, name, n) matches Some(i) ==> 0 <= i < n && named(files[i], owner, name),
    decreases n,
{
    if n > 0 {
        lemma_find_owned(files, owner, name, n - 1);
    }
}

proof fn lemma_free_empty(files: Seq<Option<FileView>>, n: int)
    ensures
        free(files, n) matches Some(i) ==> 0 <= i < n && files[i] is None,
    decreases n,
{
    if n > 0 {
        lemma_free_empty(files, n - 1);
    }
}

/// Law: a request names files only in its sender's own namespace: no
/// request touches a file another owner holds, whatever its bytes.
pub proof fn law_other_owners_files_untouched(files: Seq<Option<FileView>>, owner: Owner, req: Seq<u8>, i: int)
    requires
        files.len() == FILES,
        0 <= i < files.len(),
        files[i] is Some,
        files[i]->Some_0.owner != owner,
    ensures
        process_spec(files, owner, req).0.len() == files.len(),
        process_spec(files, owner, req).0[i] == files[i],
{
    if owner.generation != 0 && request_ok(req) {
        let name = req.subrange(4, 4 + req[1] as int);
        lemma_find_owned(files, owner, name, FILES as int);
        lemma_free_empty(files, FILES as int);
    }
}

/// Law: owners have separate namespaces. A request with generation zero or
/// of the wrong shape is invalid and changes nothing. A read or write of a
/// name the sender does not hold is not found and changes nothing, whoever
/// else holds that name; a create of it succeeds while the sender is under
/// its file quota and a slot is free.
pub proof fn law_namespaces_are_separate(files: Seq<Option<FileView>>, owner: Owner, req: Seq<u8>)
    ensures
        owner.generation == 0 || !request_ok(req) ==> process_spec(files, owner, req) == (files, status_reply(INVALID)),
        owner.generation != 0 && request_ok(req) && find(files, owner, req.subrange(4, 4 + req[1] as int), FILES as int)
            is None ==> {
            &&& (req[0] == READ || req[0] == WRITE) ==> process_spec(files, owner, req) == (
            files, status_reply(NOT_FOUND))
            &&& (req[0] == CREATE && count(files, owner, FILES as int) < OWNER_FILES && free(files, FILES as int) is Some)
                ==> process_spec(files, owner, req).1 == status_reply(OK)
        },
{
}

} // verus!
