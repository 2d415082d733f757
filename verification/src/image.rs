//! The deterministic FAT16 boot disk built around one UEFI executable: a
//! 16 MiB image with `EFI/BOOT/BOOTX64.EFI` and nothing else.
use vstd::prelude::*;
use crate::le::{le16, le32, le_bytes, lemma_le_bytes_len, read16, read32};

verus! {

pub const SECTOR: usize = 512;
pub const DATA: usize = 97 * 512;
pub const CLUSTER: usize = 2048;
pub const IMAGE_BYTES: usize = 16777216;

/// The image with `bytes` written at `at`.
#[verifier::opaque]
pub open spec fn put(s: Seq<u8>, at: int, bytes: Seq<u8>) -> Seq<u8> {
    s.take(at) + bytes + s.skip(at + bytes.len())
}

/// A directory entry: name, attributes, a fixed date, first cluster, size.
pub open spec fn entry_spec(s: Seq<u8>, o: int, name: Seq<u8>, attrs: u8, cluster: u16, size: u32) -> Seq<u8> {
    let s1 = put(s, o, name);
    let s2 = put(s1, o + 11, seq![attrs]);
    let s3 = put(s2, o + 26, le_bytes(cluster as int, 2));
    let s4 = put(s3, o + 28, le_bytes(size as int, 4));
    put(s4, o + 24, le_bytes(23585, 2))
}

pub open spec fn cluster_at(n: int) -> int {
    DATA + (n - 2) * CLUSTER
}

/// The executable's cluster chain in one FAT from entry 4: each cluster
/// links to the next, the last ends the chain.
pub open spec fn chain(s: Seq<u8>, fat: int, i: nat, n: nat) -> Seq<u8>
    decreases i,
{
    if i == 0 {
        s
    } else {
        let k = (i - 1) as int;
        let prev = chain(s, fat, (i - 1) as nat, n);
        put(prev, fat + (4 + k) * 2, le_bytes(if k + 1 == n { 0xffff } else { 5 + k }, 2))
    }
}

/// One FAT: media and reserved entries, the two directory clusters, then
/// the executable's chain.
pub open spec fn fat_spec(s: Seq<u8>, fat: int, n: nat) -> Seq<u8> {
    let s1 = put(s, fat, le_bytes(0xfff8, 2));
    let s2 = put(s1, fat + 2, le_bytes(0xffff, 2));
    let s3 = put(s2, fat + 4, le_bytes(0xffff, 2));
    let s4 = put(s3, fat + 6, le_bytes(0xffff, 2));
    chain(s4, fat, n, n)
}

pub open spec fn boot_jump() -> Seq<u8> {
    seq![0xebu8, 0x3c, 0x90]
}

/// `RAROS   `, `RAR ALPHA  ` and `FAT16   `.
pub open spec fn oem() -> Seq<u8> {
    seq![0x52u8, 0x41, 0x52, 0x4f, 0x53, 0x20, 0x20, 0x20]
}

pub open spec fn label() -> Seq<u8> {
    seq![0x52u8, 0x41, 0x52, 0x20, 0x41, 0x4c, 0x50, 0x48, 0x41, 0x20, 0x20]
}

pub open spec fn fs_type() -> Seq<u8> {
    seq![0x46u8, 0x41, 0x54, 0x31, 0x36, 0x20, 0x20, 0x20]
}

/// The boot sector: 512-byte sectors, 4 per cluster, one reserved, two FATs
/// of 32 sectors, 512 root entries, 32768 sectors.
pub open spec fn boot_sector(s: Seq<u8>) -> Seq<u8> {
    let s1 = put(s, 0, boot_jump());
    let s2 = put(s1, 3, oem());
    let s3 = put(s2, 11, le_bytes(512, 2));
    let s4 = put(s3, 13, seq![4u8]);
    let s5 = put(s4, 14, le_bytes(1, 2));
    let s6 = put(s5, 16, seq![2u8]);
    let s7 = put(s6, 17, le_bytes(512, 2));
    let s8 = put(s7, 19, le_bytes(32768, 2));
    let s9 = put(s8, 21, seq![0xf8u8]);
    let s10 = put(s9, 22, le_bytes(32, 2));
    let s11 = put(s10, 24, le_bytes(32, 2));
    let s12 = put(s11, 26, le_bytes(64, 2));
    let s13 = put(s12, 36, seq![0x80u8]);
    let s14 = put(s13, 38, seq![0x29u8]);
    let s15 = put(s14, 39, le_bytes(0x52415231, 4));
    let s16 = put(s15, 43, label());
    let s17 = put(s16, 54, fs_type());
    let s18 = put(s17, 510, seq![0x55u8]);
    put(s18, 511, seq![0xaau8])
}

pub open spec fn name_efi() -> Seq<u8> {
    seq![0x45u8, 0x46, 0x49, 0x20, 0x20, 0x20, 0x20, 0x20, 0x20, 0x20, 0x20]
}

pub open spec fn name_dot() -> Seq<u8> {
    seq![0x2eu8, 0x20, 0x20, 0x20, 0x20, 0x20, 0x20, 0x20, 0x20, 0x20, 0x20]
}

pub open spec fn name_dotdot() -> Seq<u8> {
    seq![0x2eu8, 0x2e, 0x20, 0x20, 0x20, 0x20, 0x20, 0x20, 0x20, 0x20, 0x20]
}

pub open spec fn name_boot() -> Seq<u8> {
    seq![0x42u8, 0x4f, 0x4f, 0x54, 0x20, 0x20, 0x20, 0x20, 0x20, 0x20, 0x20]
}

pub open spec fn name_loader() -> Seq<u8> {
    seq![0x42u8, 0x4f, 0x4f, 0x54, 0x58, 0x36, 0x34, 0x20, 0x45, 0x46, 0x49]
}

/// A UEFI x86-64 PE32+ application: `MZ`, a PE header in bounds, machine
/// `8664`, optional-header magic `20b` and subsystem 10.
pub open spec fn executable_ok(e: Seq<u8>) -> bool {
    &&& 1024 <= e.len() <= 2097152
    &&& e[0] == 0x4d && e[1] == 0x5a
    &&& ({
        let pe = le32(e, 60);
        &&& pe + 96 <= e.len()
        &&& e[pe] == 0x50 && e[pe + 1] == 0x45 && e[pe + 2] == 0 && e[pe + 3] == 0
        &&& le16(e, pe + 4) == 0x8664
        &&& le16(e, pe + 24) == 0x20b
        &&& le16(e, pe + 92) == 10
    })
}

pub open spec fn clusters_of(len: int) -> nat {
    ((len + CLUSTER - 1) / CLUSTER as int) as nat
}

/// The whole disk image for an executable.
pub open spec fn image_spec(efi: Seq<u8>) -> Seq<u8> {
    let n = clusters_of(efi.len() as int);
    let s0 = Seq::new(IMAGE_BYTES as nat, |i: int| 0u8);
    let s1 = boot_sector(s0);
    let s2 = fat_spec(s1, 512, n);
    let s3 = fat_spec(s2, 16896, n);
    let s4 = entry_spec(s3, 33280, name_efi(), 0x10, 2, 0);
    let s5 = entry_spec(s4, cluster_at(2), name_dot(), 0x10, 2, 0);
    let s6 = entry_spec(s5, cluster_at(2) + 32, name_dotdot(), 0x10, 0, 0);
    let s7 = entry_spec(s6, cluster_at(2) + 64, name_boot(), 0x10, 3, 0);
    let s8 = entry_spec(s7, cluster_at(3), name_dot(), 0x10, 3, 0);
    let s9 = entry_spec(s8, cluster_at(3) + 32, name_dotdot(), 0x10, 2, 0);
    let s10 = entry_spec(s9, cluster_at(3) + 64, name_loader(), 0x20, 4, efi.len() as u32);
    put(s10, cluster_at(4), efi)
}

proof fn lemma_put(s: Seq<u8>, at: int, b: Seq<u8>)
    requires
        0 <= at,
        at + b.len() <= s.len(),
    ensures
        put(s, at, b).len() == s.len(),
        forall|i: int| 0 <= i < s.len() && !(at <= i < at + b.len()) ==> #[trigger] put(s, at, b)[i] == s[i],
        forall|i: int| at <= i < at + b.len() ==> #[trigger] put(s, at, b)[i] == b[i - at],
{
    reveal(put);
}

proof fn lemma_le2(v: int)
    requires
        0 <= v < 0x1_0000,
    ensures
        le_bytes(v, 2).len() == 2,
        le_bytes(v, 2)[0] as int + le_bytes(v, 2)[1] as int * 256 == v,
{
    lemma_le_bytes_len(v, 2);
    assert(le_bytes(v, 2)[1] == le_bytes(v / 256, 1)[0]);
}

proof fn lemma_le4(v: int)
    requires
        0 <= v < 0x1_0000_0000,
    ensures
        le_bytes(v, 4).len() == 4,
        le_bytes(v, 4)[0] as int + le_bytes(v, 4)[1] as int * 256 + (le_bytes(v, 4)[2] as int + le_bytes(v, 4)[3] as int
            * 256) * 65536 == v,
{
    lemma_le_bytes_len(v, 4);
    assert(le_bytes(v, 4)[1] == le_bytes(v / 256, 3)[0]);
    assert(le_bytes(v / 256, 3)[1] == le_bytes(v / 256 / 256, 2)[0]);
    assert(le_bytes(v / 256 / 256, 2)[1] == le_bytes(v / 256 / 256 / 256, 1)[0]);
    assert(v / 256 / 256 == v / 65536);
    assert(v / 256 / 256 / 256 == v / 16777216);
}

/// A written directory entry: its name, attributes, first cluster and
/// size; nothing outside its 32 bytes changes.
proof fn lemma_entry(s: Seq<u8>, o: int, name: Seq<u8>, attrs: u8, cluster: u16, size: u32)
    requires
        0 <= o,
        o + 32 <= s.len(),
        name.len() == 11,
    ensures
        ({
            let t = entry_spec(s, o, name, attrs, cluster, size);
            &&& t.len() == s.len()
            &&& forall|i: int| 0 <= i < s.len() && !(o <= i < o + 32) ==> #[trigger] t[i] == s[i]
            &&& forall|k: int| 0 <= k < 11 ==> #[trigger] t[o + k] == name[k]
            &&& t[o + 11] == attrs
            &&& le16(t, o + 26) == cluster
            &&& le32(t, o + 28) == size
        }),
{
    let s1 = put(s, o, name);
    let s2 = put(s1, o + 11, seq![attrs]);
    let s3 = put(s2, o + 26, le_bytes(cluster as int, 2));
    let s4 = put(s3, o + 28, le_bytes(size as int, 4));
    lemma_le2(cluster as int);
    lemma_le4(size as int);
    lemma_le2(23585);
    lemma_put(s, o, name);
    lemma_put(s1, o + 11, seq![attrs]);
    lemma_put(s2, o + 26, le_bytes(cluster as int, 2));
    lemma_put(s3, o + 28, le_bytes(size as int, 4));
    lemma_put(s4, o + 24, le_bytes(23585, 2));
    let t = entry_spec(s, o, name, attrs, cluster, size);
    assert(t[o + 26] == s3[o + 26] && t[o + 27] == s3[o + 27]);
    assert(t[o + 28] == s4[o + 28] && t[o + 29] == s4[o + 29] && t[o + 30] == s4[o + 30] && t[o + 31] == s4[o + 31]);
}

/// Entry `m` of a FAT for an executable of `n` clusters.
pub open spec fn fat_value(m: int, n: int) -> int {
    if m == 0 {
        0xfff8
    } else if m < 4 {
        0xffff
    } else if m - 3 == n {
        0xffff
    } else {
        m + 1
    }
}

proof fn lemma_chain(s: Seq<u8>, fat: int, i: nat, n: nat)
    requires
        0 <= fat,
        i <= n < 0xfff0,
        fat + (4 + n) * 2 <= s.len(),
    ensures
        ({
            let t = chain(s, fat, i, n);
            &&& t.len() == s.len()
            &&& forall|p: int| 0 <= p < s.len() && !(fat + 8 <= p < fat + 8 + 2 * i) ==> #[trigger] t[p] == s[p]
            &&& forall|k: int| 0 <= k < i ==> #[trigger] le16(t, fat + (4 + k) * 2) == if k + 1 == n { 0xffff } else { 5 + k }
        }),
    decreases i,
{
    if i > 0 {
        let k = (i - 1) as int;
        let prev = chain(s, fat, (i - 1) as nat, n);
        lemma_chain(s, fat, (i - 1) as nat, n);
        let v = if k + 1 == n { 0xffff } else { 5 + k };
        lemma_le2(v);
        lemma_put(prev, fat + (4 + k) * 2, le_bytes(v, 2));
        let t = chain(s, fat, i, n);
        assert forall|m: int| 0 <= m < i implies #[trigger] le16(t, fat + (4 + m) * 2) == if m + 1 == n { 0xffff } else { 5 + m } by {
            if m < k {
                assert(le16(prev, fat + (4 + m) * 2) == if m + 1 == n { 0xffff } else { 5 + m });
                assert(t[fat + (4 + m) * 2] == prev[fat + (4 + m) * 2]);
                assert(t[fat + (4 + m) * 2 + 1] == prev[fat + (4 + m) * 2 + 1]);
            } else {
                assert(t == put(prev, fat + (4 + k) * 2, le_bytes(v, 2)));
                assert(t[fat + (4 + k) * 2] == le_bytes(v, 2)[0]);
                assert(t[fat + (4 + k) * 2 + 1] == le_bytes(v, 2)[1]);
            }
        }
    }
}

/// A written FAT: the media and reserved entries, the two directory
/// clusters, and the chain `4, 5, ..., 3 + n` ending the file; nothing
/// outside it changes.
proof fn lemma_fat(s: Seq<u8>, fat: int, n: nat)
    requires
        0 <= fat,
        n < 0xfff0,
        fat + (4 + n) * 2 <= s.len(),
    ensures
        ({
            let t = fat_spec(s, fat, n);
            &&& t.len() == s.len()
            &&& forall|p: int| 0 <= p < s.len() && !(fat <= p < fat + 8 + 2 * n) ==> #[trigger] t[p] == s[p]
            &&& forall|k: int| 0 <= k < n ==> #[trigger] le16(t, fat + (4 + k) * 2) == if k + 1 == n { 0xffff } else { 5 + k }
            &&& forall|m: int| 0 <= m < 4 + n ==> #[trigger] le16(t, fat + 2 * m) == fat_value(m, n as int)
        }),
{
    let s1 = put(s, fat, le_bytes(0xfff8, 2));
    let s2 = put(s1, fat + 2, le_bytes(0xffff, 2));
    let s3 = put(s2, fat + 4, le_bytes(0xffff, 2));
    let s4 = put(s3, fat + 6, le_bytes(0xffff, 2));
    lemma_le2(0xfff8);
    lemma_le2(0xffff);
    lemma_put(s, fat, le_bytes(0xfff8, 2));
    lemma_put(s1, fat + 2, le_bytes(0xffff, 2));
    lemma_put(s2, fat + 4, le_bytes(0xffff, 2));
    lemma_put(s3, fat + 6, le_bytes(0xffff, 2));
    lemma_chain(s4, fat, n, n);
    let t = fat_spec(s, fat, n);
    assert forall|m: int| 0 <= m < 4 + n implies #[trigger] le16(t, fat + 2 * m) == fat_value(m, n as int) by {
        if m >= 4 {
            assert(le16(t, fat + (4 + (m - 4)) * 2) == if m - 4 + 1 == n { 0xffff } else { 5 + (m - 4) });
        } else {
            assert(t[fat + 2 * m] == s4[fat + 2 * m] && t[fat + 2 * m + 1] == s4[fat + 2 * m + 1]);
            assert(s4[fat] == s1[fat] && s4[fat + 1] == s1[fat + 1]);
            assert(s4[fat + 2] == s2[fat + 2] && s4[fat + 3] == s2[fat + 3]);
            assert(s4[fat + 4] == s3[fat + 4] && s4[fat + 5] == s3[fat + 5]);
        }
    }
}

/// The boot sector's geometry fields; nothing past the first sector changes.
proof fn lemma_boot_sector(s: Seq<u8>)
    requires
        s.len() == IMAGE_BYTES,
    ensures
        ({
            let t = boot_sector(s);
            &&& t.len() == s.len()
            &&& forall|p: int| 512 <= p < s.len() ==> #[trigger] t[p] == s[p]
            &&& le16(t, 11) == 512
            &&& t[13] == 4
            &&& le16(t, 14) == 1
            &&& t[16] == 2
            &&& le16(t, 17) == 512
            &&& le16(t, 22) == 32
            &&& le16(t, 19) == 32768
            &&& t[510] == 0x55 && t[511] == 0xaa
            &&& t[0] == 0xeb && t[2] == 0x90 && t[21] == 0xf8 && t[38] == 0x29
            &&& forall|k: int| 0 <= k < 8 ==> #[trigger] t[54 + k] == fs_type()[k]
        }),
{
    let s1 = put(s, 0, boot_jump());
    let s2 = put(s1, 3, oem());
    let s3 = put(s2, 11, le_bytes(512, 2));
    let s4 = put(s3, 13, seq![4u8]);
    let s5 = put(s4, 14, le_bytes(1, 2));
    let s6 = put(s5, 16, seq![2u8]);
    let s7 = put(s6, 17, le_bytes(512, 2));
    let s8 = put(s7, 19, le_bytes(32768, 2));
    let s9 = put(s8, 21, seq![0xf8u8]);
    let s10 = put(s9, 22, le_bytes(32, 2));
    let s11 = put(s10, 24, le_bytes(32, 2));
    let s12 = put(s11, 26, le_bytes(64, 2));
    let s13 = put(s12, 36, seq![0x80u8]);
    let s14 = put(s13, 38, seq![0x29u8]);
    let s15 = put(s14, 39, le_bytes(0x52415231, 4));
    let s16 = put(s15, 43, label());
    let s17 = put(s16, 54, fs_type());
    let s18 = put(s17, 510, seq![0x55u8]);
    lemma_le2(512);
    lemma_le2(1);
    lemma_le2(32768);
    lemma_le2(32);
    lemma_le2(64);
    lemma_le4(0x52415231);
    lemma_put(s, 0, boot_jump());
    lemma_put(s1, 3, oem());
    lemma_put(s2, 11, le_bytes(512, 2));
    lemma_put(s3, 13, seq![4u8]);
    lemma_put(s4, 14, le_bytes(1, 2));
    lemma_put(s5, 16, seq![2u8]);
    lemma_put(s6, 17, le_bytes(512, 2));
    lemma_put(s7, 19, le_bytes(32768, 2));
    lemma_put(s8, 21, seq![0xf8u8]);
    lemma_put(s9, 22, le_bytes(32, 2));
    lemma_put(s10, 24, le_bytes(32, 2));
    lemma_put(s11, 26, le_bytes(64, 2));
    lemma_put(s12, 36, seq![0x80u8]);
    lemma_put(s13, 38, seq![0x29u8]);
    lemma_put(s14, 39, le_bytes(0x52415231, 4));
    lemma_put(s15, 43, label());
    lemma_put(s16, 54, fs_type());
    lemma_put(s17, 510, seq![0x55u8]);
    lemma_put(s18, 511, seq![0xaau8]);
    let t = boot_sector(s);
    assert(t[11] == s3[11] && t[12] == s3[12]);
    assert(t[13] == s4[13]);
    assert(t[14] == s5[14] && t[15] == s5[15]);
    assert(t[16] == s6[16]);
    assert(t[17] == s7[17] && t[18] == s7[18]);
    assert(t[22] == s10[22] && t[23] == s10[23]);
    assert(t[19] == s8[19] && t[20] == s8[20]);
    assert(t[510] == s18[510]);
    assert(t[0] == s1[0] && t[2] == s1[2] && t[21] == s9[21] && t[38] == s14[38]);
    assert forall|k: int| 0 <= k < 8 implies #[trigger] t[54 + k] == fs_type()[k] by {
        assert(t[54 + k] == s17[54 + k]);
    }
}

/// The entry at `o` has this name, these attributes and this first cluster.
pub open spec fn entry_at(img: Seq<u8>, o: int, name: Seq<u8>, attrs: u8, cluster: int) -> bool {
    &&& forall|k: int| #![trigger img[o + k]] #![trigger name[k]] 0 <= k < 11 ==> img[o + k] == name[k]
    &&& img[o + 11] == attrs
    &&& le16(img, o + 26) == cluster
}

/// Where the builder puts everything a reader needs: the geometry, the
/// first FAT's chain, the three directories and the executable's bytes.
pub open spec fn layout(img: Seq<u8>, efi: Seq<u8>) -> bool {
    let n = clusters_of(efi.len() as int);
    &&& img.len() == IMAGE_BYTES
    &&& le16(img, 11) == 512 && img[13] == 4 && le16(img, 14) == 1 && img[16] == 2
    &&& le16(img, 17) == 512 && le16(img, 22) == 32
    &&& le16(img, 19) == 32768 && img[510] == 0x55 && img[511] == 0xaa
    &&& img[0] == 0xeb && img[2] == 0x90 && img[21] == 0xf8 && img[38] == 0x29
    &&& forall|k: int| 0 <= k < 8 ==> #[trigger] img[54 + k] == fs_type()[k]
    &&& le16(img, 512) == 0xfff8 && le16(img, 514) == 0xffff && le16(img, 516) == 0xffff && le16(img, 518) == 0xffff
    &&& forall|p: int| 0 <= p < 16384 ==> #[trigger] img[512 + p] == img[16896 + p]
    &&& forall|k: int| 0 <= k < n ==> #[trigger] le16(img, 512 + (4 + k) * 2) == if k + 1 == n { 0xffff } else { 5 + k }
    &&& entry_at(img, 33280, name_efi(), 0x10, 2)
    &&& entry_at(img, 49664, name_dot(), 0x10, 2)
    &&& entry_at(img, 49696, name_dotdot(), 0x10, 0)
    &&& entry_at(img, 49728, name_boot(), 0x10, 3)
    &&& entry_at(img, 51712, name_dot(), 0x10, 3)
    &&& entry_at(img, 51744, name_dotdot(), 0x10, 2)
    &&& entry_at(img, 51776, name_loader(), 0x20, 4)
    &&& le32(img, 51804) == efi.len()
    &&& forall|j: int| 0 <= j < efi.len() ==> #[trigger] img[53760 + j] == efi[j]
}

proof fn lemma_le16_bytes(x: Seq<u8>, i: int, y: Seq<u8>, j: int)
    requires
        0 <= i,
        i + 1 < x.len(),
        0 <= j,
        j + 1 < y.len(),
        le16(x, i) == le16(y, j),
    ensures
        x[i] == y[j],
        x[i + 1] == y[j + 1],
{
}

proof fn lemma_entry_kept(s: Seq<u8>, t: Seq<u8>, o: int, name: Seq<u8>, attrs: u8, cluster: int, from: int)
    requires
        entry_at(s, o, name, attrs, cluster),
        0 <= o,
        o + 32 <= from,
        t.len() == s.len(),
        o + 32 <= s.len(),
        forall|p: int| 0 <= p < from ==> #[trigger] t[p] == s[p],
    ensures
        entry_at(t, o, name, attrs, cluster),
{
    assert forall|k: int| 0 <= k < 11 implies #[trigger] t[o + k] == name[k] by {
        assert(t[o + k] == s[o + k]);
    }
    assert(t[o + 11] == s[o + 11]);
    assert(t[o + 26] == s[o + 26] && t[o + 27] == s[o + 27]);
}

#[verifier::rlimit(100)]
proof fn lemma_layout(efi: Seq<u8>)
    requires
        executable_ok(efi),
    ensures
        layout(image_spec(efi), efi),
{
    let n = clusters_of(efi.len() as int);
    assert(n <= 1024) by (nonlinear_arith)
        requires
            n == (efi.len() + 2047) / 2048,
            efi.len() <= 2097152,
    ;
    let s0 = Seq::new(IMAGE_BYTES as nat, |i: int| 0u8);
    let s1 = boot_sector(s0);
    let s2 = fat_spec(s1, 512, n);
    let s3 = fat_spec(s2, 16896, n);
    let s4 = entry_spec(s3, 65 * 512int, name_efi(), 0x10, 2, 0);
    let s5 = entry_spec(s4, cluster_at(2), name_dot(), 0x10, 2, 0);
    let s6 = entry_spec(s5, cluster_at(2) + 32, name_dotdot(), 0x10, 0, 0);
    let s7 = entry_spec(s6, cluster_at(2) + 64, name_boot(), 0x10, 3, 0);
    let s8 = entry_spec(s7, cluster_at(3), name_dot(), 0x10, 3, 0);
    let s9 = entry_spec(s8, cluster_at(3) + 32, name_dotdot(), 0x10, 2, 0);
    let s10 = entry_spec(s9, cluster_at(3) + 64, name_loader(), 0x20, 4, efi.len() as u32);
    let img = put(s10, cluster_at(4), efi);
    assert(img == image_spec(efi));
    lemma_boot_sector(s0);
    lemma_fat(s1, 512, n);
    lemma_fat(s2, 16896, n);
    lemma_entry(s3, 33280, name_efi(), 0x10, 2, 0);
    lemma_entry(s4, cluster_at(2), name_dot(), 0x10, 2, 0);
    lemma_entry(s5, cluster_at(2) + 32, name_dotdot(), 0x10, 0, 0);
    lemma_entry(s6, cluster_at(2) + 64, name_boot(), 0x10, 3, 0);
    lemma_entry(s7, cluster_at(3), name_dot(), 0x10, 3, 0);
    lemma_entry(s8, cluster_at(3) + 32, name_dotdot(), 0x10, 2, 0);
    lemma_entry(s9, cluster_at(3) + 64, name_loader(), 0x20, 4, efi.len() as u32);
    lemma_put(s10, cluster_at(4), efi);
    // What each later step leaves alone.
    assert forall|p: int| 0 <= p < 51776 implies #[trigger] img[p] == s9[p] by {
        assert(img[p] == s10[p] && s10[p] == s9[p]);
    }
    assert forall|p: int| 0 <= p < 51744 implies #[trigger] img[p] == s8[p] by {
        assert(img[p] == s9[p] && s9[p] == s8[p]);
    }
    assert forall|p: int| 0 <= p < 51712 implies #[trigger] img[p] == s7[p] by {
        assert(img[p] == s8[p] && s8[p] == s7[p]);
    }
    assert forall|p: int| 0 <= p < 49728 implies #[trigger] img[p] == s6[p] by {
        assert(img[p] == s7[p] && s7[p] == s6[p]);
    }
    assert forall|p: int| 0 <= p < 49696 implies #[trigger] img[p] == s5[p] by {
        assert(img[p] == s6[p] && s6[p] == s5[p]);
    }
    assert forall|p: int| 0 <= p < 49664 implies #[trigger] img[p] == s4[p] by {
        assert(img[p] == s5[p] && s5[p] == s4[p]);
    }
    assert forall|p: int| 0 <= p < 33280 implies #[trigger] img[p] == s3[p] by {
        assert(img[p] == s4[p] && s4[p] == s3[p]);
    }
    assert forall|p: int| 0 <= p < 16896 implies #[trigger] img[p] == s2[p] by {
        assert(img[p] == s3[p] && s3[p] == s2[p]);
    }
    assert forall|p: int| 0 <= p < 512 implies #[trigger] img[p] == s1[p] by {
        assert(img[p] == s2[p] && s2[p] == s1[p]);
    }
    // The geometry.
    assert(img[11] == s1[11] && img[12] == s1[12] && img[13] == s1[13] && img[14] == s1[14] && img[15] == s1[15]);
    assert(img[16] == s1[16] && img[17] == s1[17] && img[18] == s1[18] && img[22] == s1[22] && img[23] == s1[23]);
    assert(img[19] == s1[19] && img[20] == s1[20] && img[510] == s1[510] && img[511] == s1[511]);
    assert(img[0] == s1[0] && img[2] == s1[2] && img[21] == s1[21] && img[38] == s1[38]);
    assert forall|k: int| 0 <= k < 8 implies #[trigger] img[54 + k] == fs_type()[k] by {
        assert(img[54 + k] == s1[54 + k]);
    }
    assert(le16(s2, 512 + 2 * 0int) == fat_value(0, n as int) && le16(s2, 512 + 2 * 1int) == fat_value(1, n as int));
    assert(le16(s2, 512 + 2 * 2int) == fat_value(2, n as int) && le16(s2, 512 + 2 * 3int) == fat_value(3, n as int));
    assert(img[512] == s2[512] && img[513] == s2[513] && img[514] == s2[514] && img[515] == s2[515]);
    assert(img[516] == s2[516] && img[517] == s2[517] && img[518] == s2[518] && img[519] == s2[519]);
    // The second FAT mirrors the first.
    assert forall|p: int| 0 <= p < 16384 implies #[trigger] img[512 + p] == img[16896 + p] by {
        assert(img[512 + p] == s2[512 + p]);
        assert(img[16896 + p] == s3[16896 + p]);
        assert(s3[512 + p] == s2[512 + p]);
        if p < 8 + 2 * n {
            let m = p / 2;
            assert(le16(s2, 512 + 2 * m) == fat_value(m, n as int));
            assert(le16(s3, 16896 + 2 * m) == fat_value(m, n as int));
            lemma_le16_bytes(s2, 512 + 2 * m, s3, 16896 + 2 * m);
            assert(p == 2 * m || p == 2 * m + 1);
        } else {
            assert(s2[512 + p] == s1[512 + p] && s1[512 + p] == s0[512 + p]);
            assert(s3[16896 + p] == s2[16896 + p] && s2[16896 + p] == s1[16896 + p] && s1[16896 + p] == s0[16896 + p]);
        }
    }
    // The first FAT.
    assert forall|k: int| 0 <= k < n implies #[trigger] le16(img, 512 + (4 + k) * 2) == if k + 1 == n { 0xffff } else { 5 + k } by {
        let a = 512 + (4 + k) * 2;
        assert(le16(s2, a) == if k + 1 == n { 0xffff } else { 5 + k });
        assert(img[a] == s2[a] && img[a + 1] == s2[a + 1]);
    }
    // The directories.
    lemma_entry_kept(s4, img, 33280, name_efi(), 0x10, 2, 49664);
    lemma_entry_kept(s5, img, 49664, name_dot(), 0x10, 2, 49696);
    lemma_entry_kept(s6, img, 49696, name_dotdot(), 0x10, 0, 49728);
    lemma_entry_kept(s7, img, 49728, name_boot(), 0x10, 3, 51712);
    lemma_entry_kept(s8, img, 51712, name_dot(), 0x10, 3, 51744);
    lemma_entry_kept(s9, img, 51744, name_dotdot(), 0x10, 2, 51776);
    lemma_entry_kept(s10, img, 51776, name_loader(), 0x20, 4, 53760);
    assert(img[51804] == s10[51804] && img[51805] == s10[51805] && img[51806] == s10[51806] && img[51807] == s10[51807]);
}

/// Reading a FAT16 volume by its own boot sector: the sector size, the
/// sectors per cluster, the reserved sectors, the number of FATs, the root
/// directory's entries and the sectors per FAT.
pub open spec fn sector_bytes(img: Seq<u8>) -> int {
    le16(img, 11)
}

pub open spec fn cluster_bytes(img: Seq<u8>) -> int {
    img[13] as int * sector_bytes(img)
}

/// Where the first FAT starts: after the reserved sectors.
pub open spec fn fat_start(img: Seq<u8>) -> int {
    le16(img, 14) * sector_bytes(img)
}

/// Where the root directory starts: after the reserved sectors and the FATs.
pub open spec fn root_start(img: Seq<u8>) -> int {
    (le16(img, 14) + img[16] as int * le16(img, 22)) * sector_bytes(img)
}

pub open spec fn root_entries(img: Seq<u8>) -> int {
    le16(img, 17)
}

/// Where cluster `c` starts: clusters are numbered from 2 after the root
/// directory.
pub open spec fn cluster_start(img: Seq<u8>, c: int) -> int {
    root_start(img) + root_entries(img) * 32 + (c - 2) * cluster_bytes(img)
}

/// The FAT's entry for cluster `c`: the next cluster of its chain, or an
/// end mark from `fff8`.
pub open spec fn next_cluster(img: Seq<u8>, c: int) -> int {
    le16(img, fat_start(img) + 2 * c)
}

/// The cluster `i` steps along the chain from `c`.
pub open spec fn follow(img: Seq<u8>, c: int, i: nat) -> int
    decreases i,
{
    if i == 0 {
        c
    } else {
        next_cluster(img, follow(img, c, (i - 1) as nat))
    }
}

/// The first of the directory entries `k..count` at `dir` whose 11-byte name
/// is `name`.
pub open spec fn find_entry(img: Seq<u8>, dir: int, count: int, name: Seq<u8>, k: int) -> Option<int>
    decreases count - k,
{
    if k < 0 || k >= count {
        None
    } else if img.subrange(dir + 32 * k, dir + 32 * k + 11) == name {
        Some(dir + 32 * k)
    } else {
        find_entry(img, dir, count, name, k + 1)
    }
}

/// The first cluster of the entry at `e`, and its size.
pub open spec fn first_cluster(img: Seq<u8>, e: int) -> int {
    le16(img, e + 26)
}

pub open spec fn entry_size(img: Seq<u8>, e: int) -> int {
    le32(img, e + 28)
}

/// A subdirectory found at entry `e`: the entries of its first cluster.
pub open spec fn subdirectory(img: Seq<u8>, e: Option<int>, name: Seq<u8>) -> Option<int> {
    match e {
        None => None,
        Some(d) => if img[d + 11] != 0x10 {
            None
        } else {
            find_entry(img, cluster_start(img, first_cluster(img, d)), cluster_bytes(img) / 32, name, 0)
        },
    }
}

/// The directory entry of `EFI/BOOT/BOOTX64.EFI`, found the way firmware
/// finds it: `EFI` in the root directory, then `BOOT` in that directory,
/// then `BOOTX64.EFI` in that one.
pub open spec fn boot_loader_entry(img: Seq<u8>) -> Option<int> {
    let efi = find_entry(img, root_start(img), root_entries(img), seq!['E' as u8, 'F' as u8, 'I' as u8, ' ' as u8, ' ' as u8, ' ' as u8, ' ' as u8, ' ' as u8, ' ' as u8, ' ' as u8, ' ' as u8], 0);
    let boot = subdirectory(img, efi, seq!['B' as u8, 'O' as u8, 'O' as u8, 'T' as u8, ' ' as u8, ' ' as u8, ' ' as u8, ' ' as u8, ' ' as u8, ' ' as u8, ' ' as u8]);
    subdirectory(img, boot, seq!['B' as u8, 'O' as u8, 'O' as u8, 'T' as u8, 'X' as u8, '6' as u8, '4' as u8, ' ' as u8, 'E' as u8, 'F' as u8, 'I' as u8])
}

proof fn lemma_follow(img: Seq<u8>, efi: Seq<u8>, i: nat)
    requires
        layout(img, efi),
        i < clusters_of(efi.len() as int),
    ensures
        follow(img, 4, i) == 4 + i,
    decreases i,
{
    if i > 0 {
        lemma_follow(img, efi, (i - 1) as nat);
        let k = i - 1;
        assert(le16(img, 512 + (4 + k) * 2) == 5 + k);
        assert(fat_start(img) == 512);
    }
}

/// The image boots its executable: resolving `EFI/BOOT/BOOTX64.EFI` from the
/// root directory reaches a file entry of the executable's size whose
/// cluster chain holds the executable's bytes in order and ends right after
/// its last cluster.
pub proof fn law_boot_path_resolves(efi: Seq<u8>)
    requires
        executable_ok(efi),
    ensures
        ({
            let img = image_spec(efi);
            let n = clusters_of(efi.len() as int);
            &&& boot_loader_entry(img) is Some
            &&& img[boot_loader_entry(img)->Some_0 + 11] == 0x20
            &&& entry_size(img, boot_loader_entry(img)->Some_0) == efi.len()
            &&& forall|j: int|
                0 <= j < efi.len() ==> img[cluster_start(
                    img,
                    #[trigger] follow(img, first_cluster(img, boot_loader_entry(img)->Some_0), (j / cluster_bytes(img)) as nat),
                ) + j % cluster_bytes(img)] == efi[j]
            &&& forall|i: nat| i + 1 < n ==> next_cluster(img, #[trigger] follow(img, first_cluster(img, boot_loader_entry(img)->Some_0), i)) < 0xfff0
            &&& next_cluster(img, follow(img, first_cluster(img, boot_loader_entry(img)->Some_0), (n - 1) as nat)) >= 0xfff8
        }),
{
    let img = image_spec(efi);
    let n = clusters_of(efi.len() as int);
    lemma_layout(efi);
    assert(n >= 1 && n <= 1024) by (nonlinear_arith)
        requires
            n == (efi.len() + 2047) / 2048,
            1024 <= efi.len() <= 2097152,
    ;
    assert(sector_bytes(img) == 512);
    assert(cluster_bytes(img) == 2048);
    assert(fat_start(img) == 512);
    assert(root_start(img) == 33280);
    assert(root_entries(img) == 512);
    let efi_name = seq!['E' as u8, 'F' as u8, 'I' as u8, ' ' as u8, ' ' as u8, ' ' as u8, ' ' as u8, ' ' as u8, ' ' as u8, ' ' as u8, ' ' as u8];
    let boot_name = seq!['B' as u8, 'O' as u8, 'O' as u8, 'T' as u8, ' ' as u8, ' ' as u8, ' ' as u8, ' ' as u8, ' ' as u8, ' ' as u8, ' ' as u8];
    let loader = seq!['B' as u8, 'O' as u8, 'O' as u8, 'T' as u8, 'X' as u8, '6' as u8, '4' as u8, ' ' as u8, 'E' as u8, 'F' as u8, 'I' as u8];
    assert(name_efi() =~= efi_name);
    assert(name_boot() =~= boot_name);
    assert(name_loader() =~= loader);
    // EFI is the root directory's first entry, a directory at cluster 2.
    assert(img.subrange(33280, 33291) =~= efi_name) by {
        assert forall|k: int| 0 <= k < 11 implies img.subrange(33280, 33291)[k] == efi_name[k] by {
            assert(img[33280 + k] == name_efi()[k]);
        }
    }
    assert(find_entry(img, 33280, 512, efi_name, 0) == Some(33280int));
    assert(cluster_start(img, 2) == 49664);
    // BOOT is the third entry of cluster 2, after `.` and `..`.
    assert(img[49664] == name_dot()[0] && img[49696] == name_dotdot()[0]);
    assert(img.subrange(49664, 49675)[0] != boot_name[0]);
    assert(img.subrange(49696, 49707)[0] != boot_name[0]);
    assert(img.subrange(49728, 49739) =~= boot_name) by {
        assert forall|k: int| 0 <= k < 11 implies img.subrange(49728, 49739)[k] == boot_name[k] by {
            assert(img[49728 + k] == name_boot()[k]);
        }
    }
    assert(find_entry(img, 49664, 64, boot_name, 2) == Some(49728int));
    assert(find_entry(img, 49664, 64, boot_name, 1) == Some(49728int));
    assert(find_entry(img, 49664, 64, boot_name, 0) == Some(49728int));
    assert(cluster_start(img, 3) == 51712);
    // BOOTX64.EFI is the third entry of cluster 3.
    assert(img[51712] == name_dot()[0] && img[51744] == name_dotdot()[0]);
    assert(img.subrange(51712, 51723)[0] != loader[0]);
    assert(img.subrange(51744, 51755)[0] != loader[0]);
    assert(img.subrange(51776, 51787) =~= loader) by {
        assert forall|k: int| 0 <= k < 11 implies img.subrange(51776, 51787)[k] == loader[k] by {
            assert(img[51776 + k] == name_loader()[k]);
        }
    }
    assert(find_entry(img, 51712, 64, loader, 2) == Some(51776int));
    assert(find_entry(img, 51712, 64, loader, 1) == Some(51776int));
    assert(find_entry(img, 51712, 64, loader, 0) == Some(51776int));
    assert(boot_loader_entry(img) == Some(51776int));
    // The chain runs 4, 5, ... through the executable's clusters.
    assert forall|i: nat| i < n implies #[trigger] follow(img, 4, i) == 4 + i by {
        lemma_follow(img, efi, i);
    }
    assert forall|j: int| 0 <= j < efi.len() implies img[cluster_start(img, #[trigger] follow(img, 4, (j / 2048) as nat))
        + j % 2048] == efi[j] by {
        assert(j / 2048 < n) by (nonlinear_arith)
            requires
                0 <= j < efi.len(),
                n == (efi.len() + 2047) / 2048,
        ;
        assert(follow(img, 4, (j / 2048) as nat) == 4 + j / 2048);
        assert(cluster_start(img, 4 + j / 2048) + j % 2048 == 53760 + j);
    }
    assert forall|i: nat| i + 1 < n implies next_cluster(img, #[trigger] follow(img, 4, i)) < 0xfff0 by {
        assert(follow(img, 4, i) == 4 + i);
        assert(le16(img, 512 + (4 + i as int) * 2) == 5 + i);
    }
    assert(follow(img, 4, (n - 1) as nat) == 4 + (n - 1));
    assert(le16(img, 512 + (4 + (n - 1)) * 2) == 0xffff);
}

/// In the directory `first` found in the root, and in its subdirectory
/// `second`, the `.` entry names the directory's own cluster and the `..`
/// entry its parent's (0 for the root).
pub open spec fn directory_links(img: Seq<u8>, first: Seq<u8>, second: Seq<u8>) -> bool {
    let dot = seq!['.' as u8, ' ' as u8, ' ' as u8, ' ' as u8, ' ' as u8, ' ' as u8, ' ' as u8, ' ' as u8, ' ' as u8, ' ' as u8, ' ' as u8];
    let dotdot = seq!['.' as u8, '.' as u8, ' ' as u8, ' ' as u8, ' ' as u8, ' ' as u8, ' ' as u8, ' ' as u8, ' ' as u8, ' ' as u8, ' ' as u8];
    let a = find_entry(img, root_start(img), root_entries(img), first, 0);
    let a_dir = first_cluster(img, a->Some_0);
    let b = find_entry(img, cluster_start(img, a_dir), cluster_bytes(img) / 32, second, 0);
    let b_dir = first_cluster(img, b->Some_0);
    &&& a is Some && b is Some
    &&& find_entry(img, cluster_start(img, a_dir), cluster_bytes(img) / 32, dot, 0) matches Some(e) && first_cluster(img, e) == a_dir
    &&& find_entry(img, cluster_start(img, a_dir), cluster_bytes(img) / 32, dotdot, 0) matches Some(e) && first_cluster(img, e) == 0
    &&& find_entry(img, cluster_start(img, b_dir), cluster_bytes(img) / 32, dot, 0) matches Some(e) && first_cluster(img, e) == b_dir
    &&& find_entry(img, cluster_start(img, b_dir), cluster_bytes(img) / 32, dotdot, 0) matches Some(e) && first_cluster(img, e)
        == a_dir
}

/// The image is a FAT16 volume firmware accepts: it carries the boot
/// signature, its cluster count lies in FAT16's range, its two FATs are
/// identical, and in each directory on the boot path the `.` entry names
/// the directory's own cluster and the `..` entry its parent's (0 for the
/// root).
pub proof fn law_volume_is_fat16(efi: Seq<u8>)
    requires
        executable_ok(efi),
    ensures
        image_spec(efi)[510] == 0x55 && image_spec(efi)[511] == 0xaa,
        4085 <= (le16(image_spec(efi), 19) * sector_bytes(image_spec(efi)) - cluster_start(image_spec(efi), 2))
            / cluster_bytes(image_spec(efi)) < 65525,
        forall|p: int|
            0 <= p < le16(image_spec(efi), 22) * sector_bytes(image_spec(efi)) ==> #[trigger] image_spec(efi)[fat_start(
                image_spec(efi),
            ) + p] == image_spec(efi)[fat_start(image_spec(efi)) + le16(image_spec(efi), 22) * sector_bytes(image_spec(efi)) + p],
        image_spec(efi)[0] == 0xeb && image_spec(efi)[2] == 0x90 && image_spec(efi)[38] == 0x29,
        image_spec(efi).subrange(54, 62) == seq!['F' as u8, 'A' as u8, 'T' as u8, '1' as u8, '6' as u8, ' ' as u8, ' ' as u8, ' ' as u8],
        le16(image_spec(efi), 19) * sector_bytes(image_spec(efi)) == image_spec(efi).len(),
        le16(image_spec(efi), fat_start(image_spec(efi))) == 0xff00 + image_spec(efi)[21],
        next_cluster(image_spec(efi), 1) >= 0xfff8,
        directory_links(image_spec(efi), seq!['E' as u8, 'F' as u8, 'I' as u8, ' ' as u8, ' ' as u8, ' ' as u8, ' ' as u8, ' ' as u8, ' ' as u8, ' ' as u8, ' ' as u8], seq!['B' as u8, 'O' as u8, 'O' as u8, 'T' as u8, ' ' as u8, ' ' as u8, ' ' as u8, ' ' as u8, ' ' as u8, ' ' as u8, ' ' as u8]),
{
    let img = image_spec(efi);
    lemma_layout(efi);
    assert(sector_bytes(img) == 512);
    assert(cluster_bytes(img) == 2048);
    assert(fat_start(img) == 512);
    assert(root_start(img) == 33280);
    assert(root_entries(img) == 512);
    assert(le16(img, 19) == 32768 && cluster_start(img, 2) == 49664);
    assert(img.subrange(54, 62) =~= seq!['F' as u8, 'A' as u8, 'T' as u8, '1' as u8, '6' as u8, ' ' as u8, ' ' as u8, ' ' as u8]) by {
        assert forall|k: int| 0 <= k < 8 implies img.subrange(54, 62)[k] == fs_type()[k] by {
            assert(img[54 + k] == fs_type()[k]);
        }
    }
    assert((32768 * 512 - 49664) / 2048 == 8167int);
    let efi_name = seq!['E' as u8, 'F' as u8, 'I' as u8, ' ' as u8, ' ' as u8, ' ' as u8, ' ' as u8, ' ' as u8, ' ' as u8, ' ' as u8, ' ' as u8];
    let boot_name = seq!['B' as u8, 'O' as u8, 'O' as u8, 'T' as u8, ' ' as u8, ' ' as u8, ' ' as u8, ' ' as u8, ' ' as u8, ' ' as u8, ' ' as u8];
    let dot = seq!['.' as u8, ' ' as u8, ' ' as u8, ' ' as u8, ' ' as u8, ' ' as u8, ' ' as u8, ' ' as u8, ' ' as u8, ' ' as u8, ' ' as u8];
    let dotdot = seq!['.' as u8, '.' as u8, ' ' as u8, ' ' as u8, ' ' as u8, ' ' as u8, ' ' as u8, ' ' as u8, ' ' as u8, ' ' as u8, ' ' as u8];
    assert(name_efi() =~= efi_name);
    assert(name_boot() =~= boot_name);
    assert(name_dot() =~= dot);
    assert(name_dotdot() =~= dotdot);
    assert forall|p: int| 0 <= p < 16384 implies #[trigger] img[512 + p] == img[512 + 16384 + p] by {
        assert(img[512 + p] == img[16896 + p]);
    }
    assert(img.subrange(33280, 33291) =~= efi_name) by {
        assert forall|k: int| 0 <= k < 11 implies img.subrange(33280, 33291)[k] == efi_name[k] by {
            assert(img[33280 + k] == name_efi()[k]);
        }
    }
    assert(find_entry(img, 33280, 512, efi_name, 0) == Some(33280int));
    assert(img.subrange(49664, 49675) =~= dot) by {
        assert forall|k: int| 0 <= k < 11 implies img.subrange(49664, 49675)[k] == dot[k] by {
            assert(img[49664 + k] == name_dot()[k]);
        }
    }
    assert(img.subrange(49696, 49707) =~= dotdot) by {
        assert forall|k: int| 0 <= k < 11 implies img.subrange(49696, 49707)[k] == dotdot[k] by {
            assert(img[49696 + k] == name_dotdot()[k]);
        }
    }
    assert(img.subrange(49728, 49739) =~= boot_name) by {
        assert forall|k: int| 0 <= k < 11 implies img.subrange(49728, 49739)[k] == boot_name[k] by {
            assert(img[49728 + k] == name_boot()[k]);
        }
    }
    assert(img[49664] == name_dot()[0] && img[49696] == name_dotdot()[0]);
    assert(img.subrange(49664, 49675)[0] != boot_name[0] && img.subrange(49696, 49707)[0] != boot_name[0]);
    assert(img.subrange(49664, 49675)[1] != dotdot[1]);
    assert(find_entry(img, 49664, 64, boot_name, 2) == Some(49728int));
    assert(find_entry(img, 49664, 64, boot_name, 1) == Some(49728int));
    assert(find_entry(img, 49664, 64, boot_name, 0) == Some(49728int));
    assert(find_entry(img, 49664, 64, dot, 0) == Some(49664int));
    assert(find_entry(img, 49664, 64, dotdot, 1) == Some(49696int));
    assert(find_entry(img, 49664, 64, dotdot, 0) == Some(49696int));
    assert(img.subrange(51712, 51723) =~= dot) by {
        assert forall|k: int| 0 <= k < 11 implies img.subrange(51712, 51723)[k] == dot[k] by {
            assert(img[51712 + k] == name_dot()[k]);
        }
    }
    assert(img.subrange(51744, 51755) =~= dotdot) by {
        assert forall|k: int| 0 <= k < 11 implies img.subrange(51744, 51755)[k] == dotdot[k] by {
            assert(img[51744 + k] == name_dotdot()[k]);
        }
    }
    assert(img.subrange(51712, 51723)[1] != dotdot[1]);
    assert(find_entry(img, 51712, 64, dot, 0) == Some(51712int));
    assert(find_entry(img, 51712, 64, dotdot, 1) == Some(51744int));
    assert(find_entry(img, 51712, 64, dotdot, 0) == Some(51744int));
}

/// Writes `src` at `at`.
fn put_at(b: &mut Vec<u8>, at: usize, src: &[u8])
    requires
        old(b)@.len() == IMAGE_BYTES,
        at + src@.len() <= old(b)@.len(),
    ensures
        final(b)@.len() == IMAGE_BYTES,
        final(b)@ == put(old(b)@, at as int, src@),
{
    reveal(put);
    let mut i: usize = 0;
    while i < src.len()
        invariant
            at + src@.len() <= b@.len(),
            b@.len() == old(b)@.len() == IMAGE_BYTES,
            i <= src@.len(),
            forall|k: int| 0 <= k < at ==> b@[k] == old(b)@[k],
            forall|k: int| 0 <= k < i ==> b@[at + k] == src@[k],
            forall|k: int| at + i <= k < b@.len() ==> b@[k] == old(b)@[k],
        decreases src@.len() - i,
    {
        b[at + i] = src[i];
        i = i + 1;
    }
    assert(b@ =~= put(old(b)@, at as int, src@));
}

fn put16(b: &mut Vec<u8>, at: usize, v: u16)
    requires
        old(b)@.len() == IMAGE_BYTES,
        at + 2 <= old(b)@.len(),
    ensures
        final(b)@.len() == IMAGE_BYTES,
        final(b)@ == put(old(b)@, at as int, le_bytes(v as int, 2)),
{
    let bytes: [u8; 2] = [(v % 256) as u8, (v / 256) as u8];
    proof {
        assert(bytes@ =~= le_bytes(v as int, 2)) by {
            lemma_le_bytes_len(v as int, 2);
            assert(le_bytes(v as int, 2)[0] == (v as int % 256) as u8);
            assert(le_bytes(v as int, 2)[1] == le_bytes(v as int / 256, 1)[0]);
        }
    }
    put_at(b, at, &bytes);
}

fn put32(b: &mut Vec<u8>, at: usize, v: u32)
    requires
        old(b)@.len() == IMAGE_BYTES,
        at + 4 <= old(b)@.len(),
    ensures
        final(b)@.len() == IMAGE_BYTES,
        final(b)@ == put(old(b)@, at as int, le_bytes(v as int, 4)),
{
    let bytes: [u8; 4] = [(v % 256) as u8, (v / 256 % 256) as u8, (v / 65536 % 256) as u8, (v / 16777216) as u8];
    proof {
        assert(bytes@ =~= le_bytes(v as int, 4)) by {
            lemma_le_bytes_len(v as int, 4);
            assert(le_bytes(v as int, 4)[1] == le_bytes(v as int / 256, 3)[0]);
            assert(le_bytes(v as int / 256, 3)[1] == le_bytes(v as int / 256 / 256, 2)[0]);
            assert(le_bytes(v as int / 256 / 256, 2)[1] == le_bytes(v as int / 256 / 256 / 256, 1)[0]);
            assert(v as int / 256 / 256 == v as int / 65536);
            assert(v as int / 256 / 256 / 256 == v as int / 16777216);
        }
    }
    put_at(b, at, &bytes);
}

fn entry(b: &mut Vec<u8>, o: usize, name: &[u8; 11], attrs: u8, cluster: u16, size: u32)
    requires
        old(b)@.len() == IMAGE_BYTES,
        o + 32 <= old(b)@.len(),
    ensures
        final(b)@.len() == IMAGE_BYTES,
        final(b)@ == entry_spec(old(b)@, o as int, name@, attrs, cluster, size),
{
    put_at(b, o, name);
    let a: [u8; 1] = [attrs];
    proof {
        assert(a@ =~= seq![attrs]);
    }
    put_at(b, o + 11, &a);
    put16(b, o + 26, cluster);
    put32(b, o + 28, size);
    put16(b, o + 24, 23585);
}

fn fat(b: &mut Vec<u8>, at: usize, n: usize)
    requires
        old(b)@.len() == IMAGE_BYTES,
        at + (4 + n) * 2 <= old(b)@.len(),
        n < 0xfff0,
    ensures
        final(b)@.len() == IMAGE_BYTES,
        final(b)@ == fat_spec(old(b)@, at as int, n as nat),
{
    put16(b, at, 0xfff8);
    put16(b, at + 2, 0xffff);
    put16(b, at + 4, 0xffff);
    put16(b, at + 6, 0xffff);
    let ghost base = b@;
    let mut i: usize = 0;
    while i < n
        invariant
            i <= n < 0xfff0,
            b@.len() == IMAGE_BYTES,
            at + (4 + n) * 2 <= b@.len(),
            b@ == chain(base, at as int, i as nat, n as nat),
        decreases n - i,
    {
        let value: u16 = if i + 1 == n { 0xffff } else { (5 + i) as u16 };
        put16(b, at + (4 + i) * 2, value);
        i = i + 1;
    }
}

/// Whether `efi` is an executable the image can boot.
pub fn executable_valid(efi: &[u8]) -> (r: bool)
    ensures
        r == executable_ok(efi@),
{
    if efi.len() < 1024 || efi.len() > 2097152 || efi[0] != 0x4d || efi[1] != 0x5a {
        return false;
    }
    let pe = read32(efi, 60) as usize;
    if pe > efi.len() || efi.len() - pe < 96 {
        return false;
    }
    efi[pe] == 0x50 && efi[pe + 1] == 0x45 && efi[pe + 2] == 0 && efi[pe + 3] == 0 && read16(efi, pe + 4)
        == 0x8664 && read16(efi, pe + 24) == 0x20b && read16(efi, pe + 92) == 10
}

/// Builds the disk image; `None` for anything but a UEFI x86-64
/// application of one KiB to two MiB.
#[verifier::rlimit(60)]
pub fn build(efi: &[u8]) -> (r: Option<Vec<u8>>)
    ensures
        match r {
            Some(b) => executable_ok(efi@) && b@ == image_spec(efi@),
            None => !executable_ok(efi@),
        },
{
    if !executable_valid(efi) {
        return None;
    }
    let mut b: Vec<u8> = vec![0u8; 16777216];
    assert(b@.len() == IMAGE_BYTES);
    proof {
        assert(b@ =~= Seq::new(IMAGE_BYTES as nat, |i: int| 0u8));
    }
    let jump: [u8; 3] = [0xeb, 0x3c, 0x90];
    let oem_name: [u8; 8] = [0x52, 0x41, 0x52, 0x4f, 0x53, 0x20, 0x20, 0x20];
    let volume: [u8; 11] = [0x52, 0x41, 0x52, 0x20, 0x41, 0x4c, 0x50, 0x48, 0x41, 0x20, 0x20];
    let kind: [u8; 8] = [0x46, 0x41, 0x54, 0x31, 0x36, 0x20, 0x20, 0x20];
    let four: [u8; 1] = [4];
    let two: [u8; 1] = [2];
    let media: [u8; 1] = [0xf8];
    let drive: [u8; 1] = [0x80];
    let signature: [u8; 1] = [0x29];
    let s55: [u8; 1] = [0x55];
    let saa: [u8; 1] = [0xaa];
    proof {
        assert(jump@ =~= boot_jump());
        assert(oem_name@ =~= oem());
        assert(volume@ =~= label());
        assert(kind@ =~= fs_type());
        assert(four@ =~= seq![4u8]);
        assert(two@ =~= seq![2u8]);
        assert(media@ =~= seq![0xf8u8]);
        assert(drive@ =~= seq![0x80u8]);
        assert(signature@ =~= seq![0x29u8]);
        assert(s55@ =~= seq![0x55u8]);
        assert(saa@ =~= seq![0xaau8]);
    }
    put_at(&mut b, 0, &jump);
    put_at(&mut b, 3, &oem_name);
    put16(&mut b, 11, 512);
    put_at(&mut b, 13, &four);
    put16(&mut b, 14, 1);
    put_at(&mut b, 16, &two);
    put16(&mut b, 17, 512);
    put16(&mut b, 19, 32768);
    put_at(&mut b, 21, &media);
    put16(&mut b, 22, 32);
    put16(&mut b, 24, 32);
    put16(&mut b, 26, 64);
    put_at(&mut b, 36, &drive);
    put_at(&mut b, 38, &signature);
    put32(&mut b, 39, 0x52415231);
    put_at(&mut b, 43, &volume);
    put_at(&mut b, 54, &kind);
    put_at(&mut b, 510, &s55);
    put_at(&mut b, 511, &saa);
    let n = (efi.len() + CLUSTER - 1) / CLUSTER;
    fat(&mut b, 512, n);
    fat(&mut b, 33 * 512, n);
    let efi_name: [u8; 11] = [0x45, 0x46, 0x49, 0x20, 0x20, 0x20, 0x20, 0x20, 0x20, 0x20, 0x20];
    let dot: [u8; 11] = [0x2e, 0x20, 0x20, 0x20, 0x20, 0x20, 0x20, 0x20, 0x20, 0x20, 0x20];
    let dotdot: [u8; 11] = [0x2e, 0x2e, 0x20, 0x20, 0x20, 0x20, 0x20, 0x20, 0x20, 0x20, 0x20];
    let boot: [u8; 11] = [0x42, 0x4f, 0x4f, 0x54, 0x20, 0x20, 0x20, 0x20, 0x20, 0x20, 0x20];
    let loader: [u8; 11] = [0x42, 0x4f, 0x4f, 0x54, 0x58, 0x36, 0x34, 0x20, 0x45, 0x46, 0x49];
    proof {
        assert(efi_name@ =~= name_efi());
        assert(dot@ =~= name_dot());
        assert(dotdot@ =~= name_dotdot());
        assert(boot@ =~= name_boot());
        assert(loader@ =~= name_loader());
    }
    entry(&mut b, 65 * 512, &efi_name, 0x10, 2, 0);
    entry(&mut b, DATA, &dot, 0x10, 2, 0);
    entry(&mut b, DATA + 32, &dotdot, 0x10, 0, 0);
    entry(&mut b, DATA + 64, &boot, 0x10, 3, 0);
    entry(&mut b, DATA + CLUSTER, &dot, 0x10, 3, 0);
    entry(&mut b, DATA + CLUSTER + 32, &dotdot, 0x10, 2, 0);
    entry(&mut b, DATA + CLUSTER + 64, &loader, 0x20, 4, efi.len() as u32);
    put_at(&mut b, DATA + 2 * CLUSTER, efi);
    Some(b)
}

} // verus!
