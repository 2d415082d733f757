use vstd::prelude::*;

verus! {

/// Little-endian 16-bit value of the two bytes starting at `at`.
pub open spec fn le16(b: Seq<u8>, at: int) -> int {
    b[at] as int + b[at + 1] as int * 256
}

/// Little-endian 32-bit value of the four bytes starting at `at`.
pub open spec fn le32(b: Seq<u8>, at: int) -> int {
    le16(b, at) + le16(b, at + 2) * 65536
}

/// Little-endian 64-bit value of the eight bytes starting at `at`.
pub open spec fn le64(b: Seq<u8>, at: int) -> int {
    le32(b, at) + le32(b, at + 4) * 0x1_0000_0000
}

/// Big-endian 16-bit value of the two bytes starting at `at`.
pub open spec fn be16(b: Seq<u8>, at: int) -> int {
    b[at] as int * 256 + b[at + 1] as int
}

/// The `n` little-endian bytes of `x` (the low `n` bytes).
pub open spec fn le_bytes(x: int, n: nat) -> Seq<u8>
    decreases n,
{
    if n == 0 {
        Seq::empty()
    } else {
        seq![(x % 256) as u8] + le_bytes(x / 256, (n - 1) as nat)
    }
}

pub fn read16(b: &[u8], at: usize) -> (r: u16)
    requires
        at + 2 <= b.len(),
    ensures
        r as int == le16(b@, at as int),
{
    b[at] as u16 + b[at + 1] as u16 * 256
}

pub fn read32(b: &[u8], at: usize) -> (r: u32)
    requires
        at + 4 <= b.len(),
    ensures
        r as int == le32(b@, at as int),
{
    let lo = read16(b, at) as u32;
    let hi = read16(b, at + 2) as u32;
    lo + hi * 65536
}

pub fn read64(b: &[u8], at: usize) -> (r: u64)
    requires
        at + 8 <= b.len(),
    ensures
        r as int == le64(b@, at as int),
{
    let lo = read32(b, at) as u64;
    let hi = read32(b, at + 4) as u64;
    lo + hi * 0x1_0000_0000
}

pub fn read_be16(b: &[u8], at: usize) -> (r: u16)
    requires
        at + 2 <= b.len(),
    ensures
        r as int == be16(b@, at as int),
{
    b[at] as u16 * 256 + b[at + 1] as u16
}

pub proof fn lemma_le_bytes_len(x: int, n: nat)
    ensures
        le_bytes(x, n).len() == n,
    decreases n,
{
    if n > 0 {
        lemma_le_bytes_len(x / 256, (n - 1) as nat);
    }
}

/// Writes the `n` low little-endian bytes of `x` at `at`, leaving other bytes unchanged.
pub fn write_le(b: &mut Vec<u8>, at: usize, x: u64, n: usize)
    requires
        n <= 8,
        at + n <= old(b)@.len(),
    ensures
        final(b)@ == old(b)@.subrange(0, at as int) + le_bytes(x as int, n as nat)
            + old(b)@.subrange(at + n, old(b)@.len() as int),
{
    let mut i: usize = 0;
    let mut v: u64 = x;
    let ghost x0 = x as int;
    while i < n
        invariant
            n <= 8,
            x0 >= 0,
            at + n <= b.len(),
            b@.len() == old(b)@.len(),
            i <= n,
            v as int == x0 / pow256(i as nat),
            forall|k: int| 0 <= k < at ==> b@[k] == old(b)@[k],
            forall|k: int| at + n <= k < b@.len() ==> b@[k] == old(b)@[k],
            forall|k: int| 0 <= k < i ==> b@[at + k] == le_bytes(x0, n as nat)[k],
        decreases n - i,
    {
        proof {
            lemma_le_bytes_index(x0, n as nat, i as nat);
            lemma_pow256_step(x0, i as nat);
        }
        b.set(at + i, (v % 256) as u8);
        v = v / 256;
        i = i + 1;
    }
    proof {
        lemma_le_bytes_len(x0, n as nat);
        assert(b@ =~= old(b)@.subrange(0, at as int) + le_bytes(x as int, n as nat)
            + old(b)@.subrange(at + n, old(b)@.len() as int));
    }
}

pub open spec fn pow256(k: nat) -> int
    decreases k,
{
    if k == 0 { 1 } else { 256 * pow256((k - 1) as nat) }
}

pub proof fn lemma_pow256_pos(k: nat)
    ensures
        pow256(k) >= 1,
    decreases k,
{
    if k > 0 {
        lemma_pow256_pos((k - 1) as nat);
    }
}

pub proof fn lemma_pow256_step(x: int, k: nat)
    requires
        x >= 0,
    ensures
        x / pow256(k) / 256 == x / pow256(k + 1),
{
    lemma_pow256_pos(k);
    assert(pow256(k + 1) == 256 * pow256(k));
    vstd::arithmetic::div_mod::lemma_div_denominator(x, pow256(k), 256);
    assert(pow256(k) * 256 == 256 * pow256(k)) by (nonlinear_arith);
}

/// Element `i` of the little-endian encoding is byte `i` of `x`.
pub proof fn lemma_le_bytes_index(x: int, n: nat, i: nat)
    requires
        i < n,
        x >= 0,
    ensures
        le_bytes(x, n)[i as int] == (x / pow256(i) % 256) as u8,
        le_bytes(x, n).len() == n,
    decreases i,
{
    lemma_le_bytes_len(x, n);
    lemma_le_bytes_len(x / 256, (n - 1) as nat);
    if i > 0 {
        lemma_le_bytes_index(x / 256, (n - 1) as nat, (i - 1) as nat);
        lemma_pow256_pos((i - 1) as nat);
        vstd::arithmetic::div_mod::lemma_div_denominator(x, 256, pow256((i - 1) as nat));
        assert(256 * pow256((i - 1) as nat) == pow256(i));
    }
}

/// Reading back two little-endian bytes of a 16-bit value gives the value.
pub proof fn lemma_le16_bytes(x: u16)
    ensures
        le16(le_bytes(x as int, 2), 0) == x,
{
    lemma_le_bytes_index(x as int, 2, 0);
    lemma_le_bytes_index(x as int, 2, 1);
    assert(pow256(1) == 256);
    assert(x == (x % 256) + ((x / 256) % 256) * 256) by (bit_vector);
}

/// Reading back four little-endian bytes of a 32-bit value gives the value.
pub proof fn lemma_le32_bytes(x: u32)
    ensures
        le32(le_bytes(x as int, 4), 0) == x,
{
    lemma_le_bytes_index(x as int, 4, 0);
    lemma_le_bytes_index(x as int, 4, 1);
    lemma_le_bytes_index(x as int, 4, 2);
    lemma_le_bytes_index(x as int, 4, 3);
    assert(pow256(1) == 256);
    assert(pow256(2) == 65536);
    assert(pow256(3) == 0x100_0000);
    assert(x == (x % 256) + ((x / 256) % 256) * 256 + ((x / 65536) % 256) * 65536 + ((x / 0x100_0000) % 256)
        * 0x100_0000) by (bit_vector);
}

/// Reading back eight little-endian bytes of a 64-bit value gives the value.
pub proof fn lemma_le64_bytes(x: u64)
    ensures
        le64(le_bytes(x as int, 8), 0) == x,
{
    lemma_le_bytes_index(x as int, 8, 0);
    lemma_le_bytes_index(x as int, 8, 1);
    lemma_le_bytes_index(x as int, 8, 2);
    lemma_le_bytes_index(x as int, 8, 3);
    lemma_le_bytes_index(x as int, 8, 4);
    lemma_le_bytes_index(x as int, 8, 5);
    lemma_le_bytes_index(x as int, 8, 6);
    lemma_le_bytes_index(x as int, 8, 7);
    assert(le_bytes(x as int, 8)[0] == (x as int / pow256(0) % 256) as u8);
    assert(le_bytes(x as int, 8)[1] == (x as int / pow256(1) % 256) as u8);
    assert(le_bytes(x as int, 8)[2] == (x as int / pow256(2) % 256) as u8);
    assert(le_bytes(x as int, 8)[3] == (x as int / pow256(3) % 256) as u8);
    assert(le_bytes(x as int, 8)[4] == (x as int / pow256(4) % 256) as u8);
    assert(le_bytes(x as int, 8)[5] == (x as int / pow256(5) % 256) as u8);
    assert(le_bytes(x as int, 8)[6] == (x as int / pow256(6) % 256) as u8);
    assert(le_bytes(x as int, 8)[7] == (x as int / pow256(7) % 256) as u8);
    assert(pow256(1) == 256);
    assert(pow256(2) == 0x1_0000);
    assert(pow256(3) == 0x100_0000);
    assert(pow256(4) == 0x1_0000_0000);
    assert(pow256(5) == 0x100_0000_0000);
    assert(pow256(6) == 0x1_0000_0000_0000);
    assert(pow256(7) == 0x100_0000_0000_0000);
    assert(x == (x % 256) + ((x / 256) % 256) * 256 + ((x / 0x1_0000) % 256) * 0x1_0000 + ((x / 0x100_0000) % 256)
        * 0x100_0000 + ((x / 0x1_0000_0000) % 256) * 0x1_0000_0000 + ((x / 0x100_0000_0000) % 256) * 0x100_0000_0000
        + ((x / 0x1_0000_0000_0000) % 256) * 0x1_0000_0000_0000 + ((x / 0x100_0000_0000_0000) % 256)
        * 0x100_0000_0000_0000) by (bit_vector);
}

/// A little-endian field reads the same within a subrange that starts at it.
pub proof fn lemma_le_sub(s: Seq<u8>, at: int)
    requires
        0 <= at,
        at + 8 <= s.len(),
    ensures
        le16(s, at) == le16(s.subrange(at, at + 2), 0),
        le32(s, at) == le32(s.subrange(at, at + 4), 0),
        le64(s, at) == le64(s.subrange(at, at + 8), 0),
{
}

/// Four- and two-byte variants of `lemma_le_sub` near the end of a sequence.
pub proof fn lemma_le_sub_short(s: Seq<u8>, at: int)
    requires
        0 <= at,
        at + 4 <= s.len(),
    ensures
        le16(s, at) == le16(s.subrange(at, at + 2), 0),
        le32(s, at) == le32(s.subrange(at, at + 4), 0),
{
}

/// Writes the `n` low little-endian bytes of `x` at `at` of an array.
pub fn put_le<const N: usize>(b: &mut [u8; N], at: usize, x: u64, n: usize)
    requires
        n <= 8,
        at + n <= N,
    ensures
        final(b)@ == old(b)@.subrange(0, at as int) + le_bytes(x as int, n as nat) + old(b)@.subrange(
            at + n,
            N as int,
        ),
{
    let mut i: usize = 0;
    let mut v: u64 = x;
    let ghost x0 = x as int;
    while i < n
        invariant
            n <= 8,
            x0 >= 0,
            at + n <= N,
            b@.len() == N,
            i <= n,
            v as int == x0 / pow256(i as nat),
            forall|k: int| 0 <= k < at ==> b@[k] == old(b)@[k],
            forall|k: int| at + n <= k < N ==> b@[k] == old(b)@[k],
            forall|k: int| 0 <= k < i ==> b@[at + k] == le_bytes(x0, n as nat)[k],
        decreases n - i,
    {
        proof {
            lemma_le_bytes_index(x0, n as nat, i as nat);
            lemma_pow256_step(x0, i as nat);
        }
        b[at + i] = (v % 256) as u8;
        v = v / 256;
        i = i + 1;
    }
    proof {
        lemma_le_bytes_len(x0, n as nat);
        assert(b@ =~= old(b)@.subrange(0, at as int) + le_bytes(x as int, n as nat) + old(b)@.subrange(
            at + n,
            N as int,
        ));
    }
}

} // verus!
