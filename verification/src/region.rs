//! The region container engine: header index, junk scanner and chunk rewriter.
//!
//! A region file holds a 32-by-32 grid of chunks. Its first 4096 bytes are
//! 1024 big-endian words, one per slot: the high 24 bits are the chunk's
//! offset in 4096-byte sectors, the low 8 bits the number of sectors
//! allocated to it. The next 4096 bytes are 1024 big-endian timestamps.
//! Each existing chunk's allocated region starts with a 4-byte big-endian
//! declared length `L`, one compression-tag byte, `L - 1` bytes of compressed
//! payload, and zero padding up to the region's end.
//!
//! The engine owns the file's bytes in memory. The index (offsets, sector
//! counts, timestamps) is decoded once at construction and never re-read,
//! even though operations change bytes inside chunk regions.

use crate::bytes::be32_at;
use crate::bytes::read_be32;
use crate::bytes::read_range;
use crate::bytes::write_be32;
use crate::bytes::write_range;
use crate::bytes::zero_range;
use crate::zlib::inflate_of;
use crate::zlib::zlib_compress;
use crate::zlib::zlib_decompress;
use vstd::pervasive::VecAdditionalExecFns;
use vstd::arithmetic::div_mod::lemma_add_mod_noop;
use vstd::arithmetic::div_mod::lemma_fundamental_div_mod;
use vstd::arithmetic::div_mod::lemma_fundamental_div_mod_converse;
use vstd::arithmetic::div_mod::lemma_mod_multiples_basic;
use vstd::prelude::*;

verus! {

/// The ways an engine operation can fail.
#[derive(Debug, Clone, Copy, PartialEq, Eq, Structural)]
pub enum Error {
    /// A read or write would fall outside the file's bytes.
    Io,
    /// A chunk carries a compression tag other than the zlib tag (2); the
    /// offending tag byte is carried along.
    UnsupportedCompressionFormat { compression_type: u8 },
    /// The file's recorded sizes contradict themselves: a declared chunk
    /// length does not fit its allocated sectors, a header offset overflows
    /// the 32-bit byte range, or a recompressed payload would not fit.
    InvariantViolation,
}

/// The grid slot addressed by coordinates `(x, z)`.
pub open spec fn slot_index(x: u8, z: u8) -> int {
    (x as int) % 32 + ((z as int) % 32) * 32
}

/// The 24-bit sector-offset field of `slot`'s header word.
pub open spec fn header_sector(d: Seq<u8>, slot: int) -> int {
    d[4 * slot] * 0x1_0000 + d[4 * slot + 1] * 0x100 + d[4 * slot + 2]
}

/// The 8-bit sector-count field of `slot`'s header word.
pub open spec fn header_count(d: Seq<u8>, slot: int) -> int {
    d[4 * slot + 3] as int
}

/// The timestamp word recorded for `slot`.
pub open spec fn header_timestamp(d: Seq<u8>, slot: int) -> int {
    be32_at(d, 4096 + 4 * slot)
}

/// The declared length of the chunk stored at byte offset `off`: the 4-byte
/// big-endian word at the start of its region, counting the compression tag
/// byte and the compressed payload.
pub open spec fn chunk_len(d: Seq<u8>, off: int) -> int {
    be32_at(d, off)
}

/// Every byte of the slot's region past its declared-length window is zero:
/// the region holds no junk.
pub open spec fn tail_zero(d: Seq<u8>, off: int, size: int, l: int) -> bool {
    forall|i: int| off + 5 + l <= i < off + size ==> d[i] == 0
}

/// The compression tag byte of the chunk stored at byte offset `off`.
pub open spec fn chunk_tag(d: Seq<u8>, off: int) -> u8 {
    d[off + 4]
}

/// The compressed payload of the chunk stored at byte offset `off`: the
/// `L - 1` bytes after the tag byte, `L` its declared length.
pub open spec fn chunk_payload(d: Seq<u8>, off: int) -> Seq<u8> {
    d.subrange(off + 5, off + 4 + chunk_len(d, off))
}

/// The bytes `d1` hold, inside the region at `off` of `size` bytes, a
/// freshly rewritten chunk whose payload inflates to the same bytes as the
/// payload the region held in `d0`: zlib tag, a declared length that leaves
/// the rewriter's strict room, zero padding, and the region in bounds.
pub open spec fn slot_recompressed(d0: Seq<u8>, d1: Seq<u8>, off: int, size: int) -> bool {
    &&& 0 <= off
    &&& off + size <= d1.len()
    &&& chunk_tag(d1, off) == 2
    &&& 1 <= chunk_len(d1, off) < size - 5
    &&& inflate_of(chunk_payload(d1, off)) == inflate_of(chunk_payload(d0, off))
    &&& forall|j: int| off + 4 + chunk_len(d1, off) <= j < off + size ==> d1[j] == 0
}

/// The bytes of the region at `off` of `size` bytes are the same in `d1` as
/// in `d0`.
pub open spec fn region_unchanged(d0: Seq<u8>, d1: Seq<u8>, off: int, size: int) -> bool {
    forall|i: int| off <= i < off + size && 0 <= i < d0.len() ==> d1[i] == d0[i]
}

/// Every used slot's declared chunk (length word, tag byte and payload) lies
/// inside its own allocated region, with a declared length of at least 1 so
/// that the tag byte is real. The rewriter reads a chunk by its declared
/// length, so a slot whose length overruns its region would read its
/// neighbour's bytes.
pub open spec fn payloads_in_regions(d: Seq<u8>, offs: Seq<u32>, sizes: Seq<u8>) -> bool {
    forall|s: int|
        0 <= s < 1024 && (#[trigger] offs[s]) > 0 ==> 1 <= chunk_len(d, offs[s] as int)
            && chunk_len(d, offs[s] as int) + 4 <= sizes[s] * 4096
}

/// How recompressing the region at `off` of `size` bytes ends before the
/// compressor runs, judged against the bytes `d`: `None` when only the
/// compressor's output can still decide the outcome (success, or the
/// too-large invariant violation), otherwise the error the rewriter stops
/// with, in the order it checks them.
pub open spec fn recompress_err(d: Seq<u8>, off: int, size: int) -> Option<Error> {
    if off + 5 > d.len() {
        Some(Error::Io)
    } else if chunk_len(d, off) >= size {
        Some(Error::InvariantViolation)
    } else if chunk_tag(d, off) != 2 {
        Some(Error::UnsupportedCompressionFormat { compression_type: chunk_tag(d, off) })
    } else if chunk_len(d, off) < 1 {
        Some(Error::InvariantViolation)
    } else if off + 4 + chunk_len(d, off) > d.len() {
        Some(Error::Io)
    } else if inflate_of(chunk_payload(d, off)) is None {
        Some(Error::Io)
    } else if off + size > d.len() {
        Some(Error::Io)
    } else if size < 5 {
        Some(Error::InvariantViolation)
    } else {
        None
    }
}

/// The first compressor-independent error a recompress pass meets from step
/// `k` on, or `None` when no remaining used slot carries one.
pub open spec fn first_recompress_err(d: Seq<u8>, offs: Seq<u32>, sizes: Seq<u8>, k: int) -> Option<
    Error,
>
    decreases 1024 - k,
{
    if k >= 1024 {
        None
    } else {
        let s = visit_slot(k);
        if offs[s] > 0 && recompress_err(d, offs[s] as int, sizes[s] * 4096) is Some {
            recompress_err(d, offs[s] as int, sizes[s] * 4096)
        } else {
            first_recompress_err(d, offs, sizes, k + 1)
        }
    }
}

/// The file state a failed recompress pass leaves behind: the pass stopped
/// at step `kf`, whose slot is used; every used slot visited before it is
/// freshly rewritten against the starting bytes `d0`, and the failing slot
/// and every used slot after it are byte-for-byte as they started.
pub open spec fn recompress_stopped_at(
    d0: Seq<u8>,
    d1: Seq<u8>,
    offs: Seq<u32>,
    sizes: Seq<u8>,
    kf: int,
) -> bool {
    &&& 0 <= kf < 1024
    &&& offs[visit_slot(kf)] > 0
    &&& forall|j: int|
        0 <= j < kf && (#[trigger] offs[visit_slot(j)]) > 0 ==> slot_recompressed(
            d0,
            d1,
            offs[visit_slot(j)] as int,
            sizes[visit_slot(j)] * 4096,
        )
    &&& forall|j: int|
        kf <= j < 1024 && (#[trigger] offs[visit_slot(j)]) > 0 ==> region_unchanged(
            d0,
            d1,
            offs[visit_slot(j)] as int,
            sizes[visit_slot(j)] * 4096,
        )
}

/// The summed declared lengths of the used slots among the first `k` steps
/// of a pass, read from the bytes `d`.
pub open spec fn lens_total_upto(d: Seq<u8>, offs: Seq<u32>, k: int) -> int
    decreases k,
{
    if k <= 0 {
        0
    } else {
        lens_total_upto(d, offs, k - 1) + (if offs[visit_slot(k - 1)] > 0 {
            chunk_len(d, offs[visit_slot(k - 1)] as int)
        } else {
            0
        })
    }
}

/// The slot a batch pass visits at step `k`: passes walk the grid with `x`
/// outer and `z` inner, so step `k` handles `x = k / 32`, `z = k % 32`, i.e.
/// slot `k / 32 + 32 * (k % 32)`.
pub open spec fn visit_slot(k: int) -> int {
    k / 32 + 32 * (k % 32)
}

/// Whether byte `i` lies inside the allocated region of some used slot.
pub open spec fn in_live_region(offs: Seq<u32>, sizes: Seq<u8>, i: int) -> bool {
    exists|s: int|
        0 <= s < 1024 && (#[trigger] offs[s]) > 0 && offs[s] <= i < offs[s] + sizes[s] * 4096
}

/// The allocated regions of used slots do not overlap each other.
pub open spec fn regions_disjoint(offs: Seq<u32>, sizes: Seq<u8>) -> bool {
    forall|a: int, b: int|
        #![trigger offs[a], offs[b]]
        0 <= a < 1024 && 0 <= b < 1024 && a != b && offs[a] > 0 && offs[b] > 0 ==> (offs[a]
            + sizes[a] * 4096 <= offs[b] || offs[b] + sizes[b] * 4096 <= offs[a])
}

/// How cleaning the region at `off` of `size` bytes ends: `None` for success,
/// or the error it stops with, judged against the bytes `d`.
pub open spec fn clean_err(d: Seq<u8>, off: int, size: int) -> Option<Error> {
    if off + 4 > d.len() {
        Some(Error::Io)
    } else if chunk_len(d, off) > size - 4 {
        Some(Error::InvariantViolation)
    } else if off + size > d.len() {
        Some(Error::Io)
    } else {
        None
    }
}

/// The first error a batch clean pass meets from step `k` on, or `None` when
/// every remaining used slot cleans successfully.
pub open spec fn first_clean_err(d: Seq<u8>, offs: Seq<u32>, sizes: Seq<u8>, k: int) -> Option<
    Error,
>
    decreases 1024 - k,
{
    if k >= 1024 {
        None
    } else {
        let s = visit_slot(k);
        if offs[s] > 0 && clean_err(d, offs[s] as int, sizes[s] * 4096) is Some {
            clean_err(d, offs[s] as int, sizes[s] * 4096)
        } else {
            first_clean_err(d, offs, sizes, k + 1)
        }
    }
}

/// The number of bytes a clean pass reports over the used slots from step `k`
/// on (each contributes its region size minus its declared length minus 4).
pub open spec fn clean_total(d: Seq<u8>, offs: Seq<u32>, sizes: Seq<u8>, k: int) -> int
    decreases 1024 - k,
{
    if k >= 1024 {
        0
    } else {
        let s = visit_slot(k);
        (if offs[s] > 0 {
            sizes[s] * 4096 - chunk_len(d, offs[s] as int) - 4
        } else {
            0
        }) + clean_total(d, offs, sizes, k + 1)
    }
}

/// The file state a failed clean pass leaves behind: the pass stopped at
/// step `kf`, whose used slot fails with `e` judged against the starting
/// bytes `d0`; the windows of the used slots visited before it are zeroed,
/// and every other byte — the failing slot's region included — is as it
/// started.
pub open spec fn clean_stopped_at(
    d0: Seq<u8>,
    d1: Seq<u8>,
    offs: Seq<u32>,
    sizes: Seq<u8>,
    kf: int,
    e: Error,
) -> bool {
    &&& 0 <= kf < 1024
    &&& offs[visit_slot(kf)] > 0
    &&& clean_err(d0, offs[visit_slot(kf)] as int, sizes[visit_slot(kf)] * 4096) == Some(e)
    &&& forall|i: int|
        0 <= i < d0.len() ==> d1[i] == (if in_clean_window_upto(d0, offs, sizes, kf, i) {
            0u8
        } else {
            d0[i]
        })
}

/// Whether byte `i` lies in the window a clean pass zeroes for some used
/// slot: past the slot's declared length, up to its region's end.
pub open spec fn in_clean_window(d: Seq<u8>, offs: Seq<u32>, sizes: Seq<u8>, i: int) -> bool {
    exists|s: int|
        0 <= s < 1024 && (#[trigger] offs[s]) > 0 && offs[s] + 4 + chunk_len(d, offs[s] as int)
            <= i < offs[s] + sizes[s] * 4096
}

/// Like `in_clean_window`, but over the slots of the first `k` steps only.
pub open spec fn in_clean_window_upto(
    d: Seq<u8>,
    offs: Seq<u32>,
    sizes: Seq<u8>,
    k: int,
    i: int,
) -> bool {
    exists|j: int|
        0 <= j < k && (#[trigger] offs[visit_slot(j)]) > 0 && offs[visit_slot(j)] + 4 + chunk_len(
            d,
            offs[visit_slot(j)] as int,
        ) <= i < offs[visit_slot(j)] + sizes[visit_slot(j)] * 4096
}

/// A pass's step stays on the grid, with `x = k / 32` and `z = k % 32` both
/// coordinates of the 32-by-32 grid.
proof fn lemma_visit_slot_range(j: int)
    requires
        0 <= j < 1024,
    ensures
        0 <= visit_slot(j) < 1024,
        0 <= j / 32 < 32,
        0 <= j % 32 < 32,
{
    assert(0 <= j / 32 < 32 && 0 <= j % 32 < 32) by (nonlinear_arith)
        requires
            0 <= j < 1024,
    ;
}

/// Every slot is visited: step `32 * (s % 32) + s / 32` addresses slot `s`.
proof fn lemma_visit_slot_onto(s: int)
    requires
        0 <= s < 1024,
    ensures
        0 <= 32 * (s % 32) + s / 32 < 1024,
        visit_slot(32 * (s % 32) + s / 32) == s,
{
    assert(0 <= s % 32 < 32 && 0 <= s / 32 < 32 && s == 32 * (s / 32) + s % 32) by (nonlinear_arith)
        requires
            0 <= s < 1024,
    ;
    let a = s % 32;
    let b = s / 32;
    lemma_fundamental_div_mod_converse(32 * a + b, 32, a, b);
}

/// No slot is visited twice.
proof fn lemma_visit_slot_injective(j1: int, j2: int)
    requires
        0 <= j1 < 1024,
        0 <= j2 < 1024,
        visit_slot(j1) == visit_slot(j2),
    ensures
        j1 == j2,
{
    lemma_visit_slot_range(j1);
    lemma_visit_slot_range(j2);
    lemma_fundamental_div_mod_converse(visit_slot(j1), 32, j1 % 32, j1 / 32);
    lemma_fundamental_div_mod_converse(visit_slot(j2), 32, j2 % 32, j2 / 32);
    lemma_fundamental_div_mod(j1, 32);
    lemma_fundamental_div_mod(j2, 32);
}

/// A full pass's clean windows are exactly the used slots' clean windows.
proof fn lemma_clean_window_full(d: Seq<u8>, offs: Seq<u32>, sizes: Seq<u8>, i: int)
    ensures
        in_clean_window(d, offs, sizes, i) <==> in_clean_window_upto(d, offs, sizes, 1024, i),
{
    if in_clean_window(d, offs, sizes, i) {
        let s = choose|s: int|
            0 <= s < 1024 && (#[trigger] offs[s]) > 0 && offs[s] + 4 + chunk_len(d, offs[s] as int)
                <= i < offs[s] + sizes[s] * 4096;
        lemma_visit_slot_onto(s);
        let j = 32 * (s % 32) + s / 32;
        assert(0 <= j < 1024 && offs[visit_slot(j)] > 0 && offs[visit_slot(j)] + 4 + chunk_len(
            d,
            offs[visit_slot(j)] as int,
        ) <= i < offs[visit_slot(j)] + sizes[visit_slot(j)] * 4096);
    }
    if in_clean_window_upto(d, offs, sizes, 1024, i) {
        let j = choose|j: int|
            0 <= j < 1024 && (#[trigger] offs[visit_slot(j)]) > 0 && offs[visit_slot(j)] + 4
                + chunk_len(d, offs[visit_slot(j)] as int) <= i < offs[visit_slot(j)]
                + sizes[visit_slot(j)] * 4096;
        lemma_visit_slot_range(j);
        let s = visit_slot(j);
        assert(0 <= s < 1024 && offs[s] > 0 && offs[s] + 4 + chunk_len(d, offs[s] as int) <= i
            < offs[s] + sizes[s] * 4096);
    }
}

/// One more step widens the pass's clean windows by exactly the visited
/// slot's own window.
proof fn lemma_clean_window_upto_step(d: Seq<u8>, offs: Seq<u32>, sizes: Seq<u8>, k: int, i: int)
    requires
        0 <= k,
    ensures
        in_clean_window_upto(d, offs, sizes, k + 1, i) <==> (in_clean_window_upto(
            d,
            offs,
            sizes,
            k,
            i,
        ) || (offs[visit_slot(k)] > 0 && offs[visit_slot(k)] + 4 + chunk_len(
            d,
            offs[visit_slot(k)] as int,
        ) <= i < offs[visit_slot(k)] + sizes[visit_slot(k)] * 4096)),
{
    if in_clean_window_upto(d, offs, sizes, k + 1, i) {
        let j = choose|j: int|
            0 <= j < k + 1 && (#[trigger] offs[visit_slot(j)]) > 0 && offs[visit_slot(j)] + 4
                + chunk_len(d, offs[visit_slot(j)] as int) <= i < offs[visit_slot(j)]
                + sizes[visit_slot(j)] * 4096;
        if j < k {
            assert(in_clean_window_upto(d, offs, sizes, k, i));
        }
    }
    if in_clean_window_upto(d, offs, sizes, k, i) {
        let j = choose|j: int|
            0 <= j < k && (#[trigger] offs[visit_slot(j)]) > 0 && offs[visit_slot(j)] + 4
                + chunk_len(d, offs[visit_slot(j)] as int) <= i < offs[visit_slot(j)]
                + sizes[visit_slot(j)] * 4096;
        assert(0 <= j < k + 1);
        assert(in_clean_window_upto(d, offs, sizes, k + 1, i));
    }
}

/// A chunk's rewritten form depends only on the bytes of its own region:
/// bytes equal there carry `slot_recompressed` from one file state to
/// another.
proof fn lemma_slot_recompressed_same(d0: Seq<u8>, da: Seq<u8>, db: Seq<u8>, off: int, size: int)
    requires
        slot_recompressed(d0, da, off, size),
        da.len() == db.len(),
        forall|i: int| off <= i < off + size ==> da[i] == db[i],
    ensures
        slot_recompressed(d0, db, off, size),
{
    assert(chunk_len(db, off) == chunk_len(da, off));
    assert(chunk_payload(db, off) =~= chunk_payload(da, off));
}

/// Two files with equal declared lengths at every used slot of the first `k`
/// steps sum those lengths alike.
proof fn lemma_lens_total_upto_same(da: Seq<u8>, db: Seq<u8>, offs: Seq<u32>, k: int)
    requires
        forall|j: int|
            0 <= j < k && (#[trigger] offs[visit_slot(j)]) > 0 ==> chunk_len(
                da,
                offs[visit_slot(j)] as int,
            ) == chunk_len(db, offs[visit_slot(j)] as int),
    ensures
        lens_total_upto(da, offs, k) == lens_total_upto(db, offs, k),
    decreases k,
{
    if k > 0 {
        lemma_lens_total_upto_same(da, db, offs, k - 1);
    }
}

/// One rewritten slot advances a recompress pass: the freshly written slot
/// round-trips against the starting bytes, earlier rewrites and untouched
/// regions carry over, and both running totals grow by the slot's old and
/// new declared length.
proof fn lemma_recompress_step(
    d0: Seq<u8>,
    pre: Seq<u8>,
    post: Seq<u8>,
    offs: Seq<u32>,
    sizes: Seq<u8>,
    k: int,
    old_len: int,
    new_len: int,
)
    requires
        regions_disjoint(offs, sizes),
        0 <= k < 1024,
        offs[visit_slot(k)] > 0,
        pre.len() == d0.len(),
        post.len() == pre.len(),
        chunk_len(d0, offs[visit_slot(k)] as int) + 4 <= sizes[visit_slot(k)] * 4096,
        forall|j: int|
            0 <= j < k && (#[trigger] offs[visit_slot(j)]) > 0 ==> slot_recompressed(
                d0,
                pre,
                offs[visit_slot(j)] as int,
                sizes[visit_slot(j)] * 4096,
            ),
        forall|j: int|
            k <= j < 1024 && (#[trigger] offs[visit_slot(j)]) > 0 ==> region_unchanged(
                d0,
                pre,
                offs[visit_slot(j)] as int,
                sizes[visit_slot(j)] * 4096,
            ),
        old_len == chunk_len(pre, offs[visit_slot(k)] as int),
        1 <= old_len < sizes[visit_slot(k)] * 4096,
        offs[visit_slot(k)] + sizes[visit_slot(k)] * 4096 <= pre.len(),
        new_len == chunk_len(post, offs[visit_slot(k)] as int),
        slot_recompressed(
            pre,
            post,
            offs[visit_slot(k)] as int,
            sizes[visit_slot(k)] * 4096,
        ),
        forall|j: int|
            0 <= j < pre.len() && !(offs[visit_slot(k)] <= j < offs[visit_slot(k)]
                + sizes[visit_slot(k)] * 4096) ==> post[j] == pre[j],
    ensures
        forall|j: int|
            0 <= j < k + 1 && (#[trigger] offs[visit_slot(j)]) > 0 ==> slot_recompressed(
                d0,
                post,
                offs[visit_slot(j)] as int,
                sizes[visit_slot(j)] * 4096,
            ),
        forall|j: int|
            k + 1 <= j < 1024 && (#[trigger] offs[visit_slot(j)]) > 0 ==> region_unchanged(
                d0,
                post,
                offs[visit_slot(j)] as int,
                sizes[visit_slot(j)] * 4096,
            ),
        lens_total_upto(d0, offs, k + 1) == lens_total_upto(d0, offs, k) + old_len,
        lens_total_upto(post, offs, k + 1) == lens_total_upto(pre, offs, k) + new_len,
{
    lemma_visit_slot_range(k);
    let s = visit_slot(k);
    let off = offs[s] as int;
    let size = sizes[s] * 4096;
    // The slot's region was untouched before this step, so its length word
    // and payload are those of the starting bytes.
    assert(region_unchanged(d0, pre, off, size));
    assert(chunk_len(pre, off) == chunk_len(d0, off));
    assert(chunk_payload(pre, off) =~= chunk_payload(d0, off));
    // The fresh rewrite round-trips against the starting bytes too.
    assert(slot_recompressed(d0, post, off, size));
    // Earlier rewrites sit in regions this step did not write.
    assert forall|j: int|
        0 <= j < k + 1 && (#[trigger] offs[visit_slot(j)]) > 0 implies slot_recompressed(
        d0,
        post,
        offs[visit_slot(j)] as int,
        sizes[visit_slot(j)] * 4096,
    ) by {
        if j < k {
            lemma_visit_slot_range(j);
            let t = visit_slot(j);
            if t == s {
                lemma_visit_slot_injective(j, k);
            }
            assert(slot_recompressed(d0, pre, offs[t] as int, sizes[t] * 4096));
            assert forall|i: int|
                offs[t] <= i < offs[t] + sizes[t] * 4096 implies post[i] == pre[i] by {
                assert(!(off <= i < off + size));
            }
            lemma_slot_recompressed_same(d0, pre, post, offs[t] as int, sizes[t] * 4096);
        }
    }
    // Regions not yet visited are still untouched.
    assert forall|j: int|
        k + 1 <= j < 1024 && (#[trigger] offs[visit_slot(j)]) > 0 implies region_unchanged(
        d0,
        post,
        offs[visit_slot(j)] as int,
        sizes[visit_slot(j)] * 4096,
    ) by {
        lemma_visit_slot_range(j);
        let t = visit_slot(j);
        if t == s {
            lemma_visit_slot_injective(j, k);
        }
        assert(region_unchanged(d0, pre, offs[t] as int, sizes[t] * 4096));
        assert forall|i: int|
            offs[t] <= i < offs[t] + sizes[t] * 4096 && 0 <= i < d0.len() implies post[i]
            == d0[i] by {
            assert(!(off <= i < off + size));
        }
    }
    // The totals each grow by this slot's contribution.
    assert forall|j: int|
        0 <= j < k && (#[trigger] offs[visit_slot(j)]) > 0 implies chunk_len(
        pre,
        offs[visit_slot(j)] as int,
    ) == chunk_len(post, offs[visit_slot(j)] as int) by {
        lemma_visit_slot_range(j);
        let t = visit_slot(j);
        if t == s {
            lemma_visit_slot_injective(j, k);
        }
        assert(slot_recompressed(d0, pre, offs[t] as int, sizes[t] * 4096));
        assert(!(off <= offs[t] < off + size) && !(off <= offs[t] + 1 < off + size) && !(off
            <= offs[t] + 2 < off + size) && !(off <= offs[t] + 3 < off + size));
    }
    lemma_lens_total_upto_same(pre, post, offs, k);
}

/// When the slot's region still holds the starting bytes and its declared
/// chunk lies inside that region, a recompress step is judged against the
/// starting bytes: it meets the same compressor-independent error, if any,
/// and reads the same declared length.
proof fn lemma_recompress_err_same(
    d0: Seq<u8>,
    pre: Seq<u8>,
    offs: Seq<u32>,
    sizes: Seq<u8>,
    k: int,
)
    requires
        0 <= k < 1024,
        offs[visit_slot(k)] > 0,
        pre.len() == d0.len(),
        1 <= chunk_len(d0, offs[visit_slot(k)] as int),
        chunk_len(d0, offs[visit_slot(k)] as int) + 4 <= sizes[visit_slot(k)] * 4096,
        region_unchanged(d0, pre, offs[visit_slot(k)] as int, sizes[visit_slot(k)] * 4096),
    ensures
        recompress_err(pre, offs[visit_slot(k)] as int, sizes[visit_slot(k)] * 4096)
            == recompress_err(d0, offs[visit_slot(k)] as int, sizes[visit_slot(k)] * 4096),
        offs[visit_slot(k)] + 5 <= d0.len() ==> chunk_len(pre, offs[visit_slot(k)] as int)
            == chunk_len(d0, offs[visit_slot(k)] as int),
{
    let s = visit_slot(k);
    let off = offs[s] as int;
    let size = sizes[s] * 4096;
    let l = chunk_len(d0, off);
    if off + 5 <= d0.len() {
        // the length word and tag byte lie inside the region and the file
        assert(chunk_len(pre, off) == chunk_len(d0, off));
        assert(chunk_tag(pre, off) == chunk_tag(d0, off));
        if off + 4 + l <= d0.len() {
            assert(chunk_payload(pre, off) =~= chunk_payload(d0, off));
        }
    }
}

/// When used regions do not overlap, the steps before `k` leave every byte of
/// step `k`'s own region unwritten: their clean windows lie inside their own
/// regions.
proof fn lemma_region_byte_unwritten(
    d: Seq<u8>,
    offs: Seq<u32>,
    sizes: Seq<u8>,
    k: int,
    s: int,
    i: int,
)
    requires
        regions_disjoint(offs, sizes),
        0 <= k < 1024,
        s == visit_slot(k),
        offs[s] > 0,
        offs[s] <= i < offs[s] + sizes[s] * 4096,
    ensures
        !in_clean_window_upto(d, offs, sizes, k, i),
{
    if in_clean_window_upto(d, offs, sizes, k, i) {
        let j = choose|j: int|
            0 <= j < k && (#[trigger] offs[visit_slot(j)]) > 0 && offs[visit_slot(j)] + 4
                + chunk_len(d, offs[visit_slot(j)] as int) <= i < offs[visit_slot(j)]
                + sizes[visit_slot(j)] * 4096;
        lemma_visit_slot_range(j);
        lemma_visit_slot_range(k);
        let t = visit_slot(j);
        if t == s {
            lemma_visit_slot_injective(j, k);
        }
        assert(chunk_len(d, offs[t] as int) >= 0);
        assert(offs[t] <= i < offs[t] + sizes[t] * 4096);
        assert(false);
    }
}

/// A clean pass succeeds from step `k` on exactly when every remaining used
/// slot would clean without error.
proof fn lemma_first_clean_err_none(d: Seq<u8>, offs: Seq<u32>, sizes: Seq<u8>, k: int)
    ensures
        first_clean_err(d, offs, sizes, k) is None <==> forall|j: int|
            k <= j < 1024 && (#[trigger] offs[visit_slot(j)]) > 0 ==> clean_err(
                d,
                offs[visit_slot(j)] as int,
                sizes[visit_slot(j)] * 4096,
            ) is None,
    decreases 1024 - k,
{
    if k < 1024 {
        lemma_first_clean_err_none(d, offs, sizes, k + 1);
    }
}

/// Two files with equal declared lengths at every used slot report the same
/// clean totals.
proof fn lemma_clean_total_same(da: Seq<u8>, db: Seq<u8>, offs: Seq<u32>, sizes: Seq<u8>, k: int)
    requires
        forall|j: int|
            k <= j < 1024 && (#[trigger] offs[visit_slot(j)]) > 0 ==> chunk_len(
                da,
                offs[visit_slot(j)] as int,
            ) == chunk_len(db, offs[visit_slot(j)] as int),
    ensures
        clean_total(da, offs, sizes, k) == clean_total(db, offs, sizes, k),
    decreases 1024 - k,
{
    if k < 1024 {
        lemma_clean_total_same(da, db, offs, sizes, k + 1);
    }
}

/// When used regions do not overlap, a byte of slot `s`'s region that lies
/// in some slot's clean window lies in `s`'s own.
proof fn lemma_clean_window_in_own_region(
    d: Seq<u8>,
    offs: Seq<u32>,
    sizes: Seq<u8>,
    s: int,
    i: int,
)
    requires
        regions_disjoint(offs, sizes),
        0 <= s < 1024,
        offs[s] > 0,
        offs[s] <= i < offs[s] + sizes[s] * 4096,
        in_clean_window(d, offs, sizes, i),
    ensures
        offs[s] + 4 + chunk_len(d, offs[s] as int) <= i,
{
    let t = choose|t: int|
        0 <= t < 1024 && (#[trigger] offs[t]) > 0 && offs[t] + 4 + chunk_len(d, offs[t] as int)
            <= i < offs[t] + sizes[t] * 4096;
    if t != s {
        assert(chunk_len(d, offs[t] as int) >= 0);
        assert(offs[t] <= i < offs[t] + sizes[t] * 4096);
        assert(false);
    }
}

/// Two files with equal declared lengths at every used slot have the same
/// clean windows.
proof fn lemma_clean_window_same(
    da: Seq<u8>,
    db: Seq<u8>,
    offs: Seq<u32>,
    sizes: Seq<u8>,
    i: int,
)
    requires
        forall|s: int|
            0 <= s < 1024 && (#[trigger] offs[s]) > 0 ==> chunk_len(da, offs[s] as int)
                == chunk_len(db, offs[s] as int),
    ensures
        in_clean_window(da, offs, sizes, i) <==> in_clean_window(db, offs, sizes, i),
{
    if in_clean_window(da, offs, sizes, i) {
        let t = choose|t: int|
            0 <= t < 1024 && (#[trigger] offs[t]) > 0 && offs[t] + 4 + chunk_len(da, offs[t] as int)
                <= i < offs[t] + sizes[t] * 4096;
        assert(offs[t] + 4 + chunk_len(db, offs[t] as int) <= i < offs[t] + sizes[t] * 4096);
    }
    if in_clean_window(db, offs, sizes, i) {
        let t = choose|t: int|
            0 <= t < 1024 && (#[trigger] offs[t]) > 0 && offs[t] + 4 + chunk_len(db, offs[t] as int)
                <= i < offs[t] + sizes[t] * 4096;
        assert(offs[t] + 4 + chunk_len(da, offs[t] as int) <= i < offs[t] + sizes[t] * 4096);
    }
}

/// Cleaning is idempotent. `d1` is the outcome of a successful clean pass
/// over `d0`, on a file whose used regions do not overlap (the shape
/// `clean_junk` guarantees). Then every used slot keeps its declared length,
/// holds only zeroes past it — so a junk scan finds nothing — and a second
/// pass would also succeed, report the same total, and change not one byte.
pub proof fn lemma_clean_idempotent(d0: Seq<u8>, d1: Seq<u8>, offs: Seq<u32>, sizes: Seq<u8>)
    requires
        regions_disjoint(offs, sizes),
        d1.len() == d0.len(),
        first_clean_err(d0, offs, sizes, 0) is None,
        forall|i: int|
            0 <= i < d0.len() ==> d1[i] == (if in_clean_window(d0, offs, sizes, i) {
                0u8
            } else {
                d0[i]
            }),
    ensures
        forall|s: int|
            0 <= s < 1024 && (#[trigger] offs[s]) > 0 ==> chunk_len(d1, offs[s] as int)
                == chunk_len(d0, offs[s] as int),
        forall|s: int|
            0 <= s < 1024 && (#[trigger] offs[s]) > 0 ==> tail_zero(
                d1,
                offs[s] as int,
                sizes[s] * 4096,
                chunk_len(d1, offs[s] as int),
            ),
        first_clean_err(d1, offs, sizes, 0) is None,
        clean_total(d1, offs, sizes, 0) == clean_total(d0, offs, sizes, 0),
        forall|i: int|
            0 <= i < d1.len() ==> (if in_clean_window(d1, offs, sizes, i) {
                0u8
            } else {
                d1[i]
            }) == d1[i],
{
    lemma_first_clean_err_none(d0, offs, sizes, 0);
    // Every used slot cleaned without error, so its declared length fits its
    // region, and its length word sits outside every clean window.
    assert forall|s: int|
        0 <= s < 1024 && (#[trigger] offs[s]) > 0 implies chunk_len(d1, offs[s] as int)
        == chunk_len(d0, offs[s] as int) && clean_err(d1, offs[s] as int, sizes[s] * 4096)
        is None && tail_zero(d1, offs[s] as int, sizes[s] * 4096, chunk_len(d1, offs[s] as int)) by {
        lemma_visit_slot_onto(s);
        let off = offs[s] as int;
        let size = sizes[s] * 4096;
        assert(clean_err(d0, off, size) is None);
        assert(chunk_len(d0, off) >= 0);
        assert forall|i: int| off <= i < off + 4 implies d1[i] == d0[i] by {
            if in_clean_window(d0, offs, sizes, i) {
                lemma_clean_window_in_own_region(d0, offs, sizes, s, i);
            }
        }
        assert(chunk_len(d1, off) == chunk_len(d0, off));
        assert forall|i: int|
            off + 5 + chunk_len(d1, off) <= i < off + size implies d1[i] == 0 by {
            assert(in_clean_window(d0, offs, sizes, i));
        }
    }
    assert forall|j: int|
        0 <= j < 1024 && (#[trigger] offs[visit_slot(j)]) > 0 implies clean_err(
        d1,
        offs[visit_slot(j)] as int,
        sizes[visit_slot(j)] * 4096,
    ) is None && chunk_len(d1, offs[visit_slot(j)] as int) == chunk_len(
        d0,
        offs[visit_slot(j)] as int,
    ) by {
        lemma_visit_slot_range(j);
    }
    lemma_first_clean_err_none(d1, offs, sizes, 0);
    lemma_clean_total_same(d1, d0, offs, sizes, 0);
    // A second pass writes zeroes where zeroes already stand.
    assert forall|i: int|
        0 <= i < d1.len() implies (if in_clean_window(d1, offs, sizes, i) {
        0u8
    } else {
        d1[i]
    }) == d1[i] by {
        lemma_clean_window_same(d1, d0, offs, sizes, i);
        if in_clean_window(d0, offs, sizes, i) {
            assert(d1[i] == 0);
        }
    }
}

/// When used regions do not overlap, a clean step sees its slot's region as
/// the starting bytes left it: it meets the same error, if any, and reads
/// the same declared length.
proof fn lemma_clean_err_same(d0: Seq<u8>, pre: Seq<u8>, offs: Seq<u32>, sizes: Seq<u8>, k: int)
    requires
        regions_disjoint(offs, sizes),
        0 <= k < 1024,
        offs[visit_slot(k)] > 0,
        pre.len() == d0.len(),
        forall|i: int|
            0 <= i < d0.len() ==> pre[i] == (if in_clean_window_upto(d0, offs, sizes, k, i) {
                0u8
            } else {
                d0[i]
            }),
    ensures
        clean_err(pre, offs[visit_slot(k)] as int, sizes[visit_slot(k)] * 4096) == clean_err(
            d0,
            offs[visit_slot(k)] as int,
            sizes[visit_slot(k)] * 4096,
        ),
        clean_err(pre, offs[visit_slot(k)] as int, sizes[visit_slot(k)] * 4096) is None
            ==> chunk_len(pre, offs[visit_slot(k)] as int) == chunk_len(
            d0,
            offs[visit_slot(k)] as int,
        ),
{
    lemma_visit_slot_range(k);
    let s = visit_slot(k);
    let off = offs[s] as int;
    let size = sizes[s] * 4096;
    assert forall|i: int| off <= i < off + size && i < d0.len() implies pre[i] == d0[i] by {
        lemma_region_byte_unwritten(d0, offs, sizes, k, s, i);
        assert(pre[i] == (if in_clean_window_upto(d0, offs, sizes, k, i) {
            0u8
        } else {
            d0[i]
        }));
    }
    if off + 4 <= d0.len() && size >= 4 {
        assert(chunk_len(pre, off) == chunk_len(d0, off));
    }
    assert(chunk_len(pre, off) >= 0 && chunk_len(d0, off) >= 0);
}

/// One cleaned slot advances a clean pass: the pass's first error stands,
/// its total grows by this slot's window, and the bytes now show exactly one
/// more zeroed window.
proof fn lemma_clean_step(
    d0: Seq<u8>,
    pre: Seq<u8>,
    post: Seq<u8>,
    offs: Seq<u32>,
    sizes: Seq<u8>,
    k: int,
    n: int,
)
    requires
        regions_disjoint(offs, sizes),
        0 <= k < 1024,
        offs[visit_slot(k)] > 0,
        pre.len() == d0.len(),
        post.len() == pre.len(),
        forall|i: int|
            0 <= i < d0.len() ==> pre[i] == (if in_clean_window_upto(d0, offs, sizes, k, i) {
                0u8
            } else {
                d0[i]
            }),
        clean_err(pre, offs[visit_slot(k)] as int, sizes[visit_slot(k)] * 4096) is None,
        n == sizes[visit_slot(k)] * 4096 - chunk_len(pre, offs[visit_slot(k)] as int) - 4,
        forall|j: int|
            offs[visit_slot(k)] + 4 + chunk_len(pre, offs[visit_slot(k)] as int) <= j
                < offs[visit_slot(k)] + sizes[visit_slot(k)] * 4096 ==> post[j] == 0,
        forall|j: int|
            0 <= j < pre.len() && !(offs[visit_slot(k)] + 4 + chunk_len(
                pre,
                offs[visit_slot(k)] as int,
            ) <= j < offs[visit_slot(k)] + sizes[visit_slot(k)] * 4096) ==> post[j] == pre[j],
    ensures
        first_clean_err(d0, offs, sizes, k) == first_clean_err(d0, offs, sizes, k + 1),
        clean_total(d0, offs, sizes, k) == n + clean_total(d0, offs, sizes, k + 1),
        forall|i: int|
            0 <= i < d0.len() ==> post[i] == (if in_clean_window_upto(d0, offs, sizes, k + 1, i) {
                0u8
            } else {
                d0[i]
            }),
{
    lemma_visit_slot_range(k);
    let s = visit_slot(k);
    let off = offs[s] as int;
    let size = sizes[s] * 4096;
    lemma_clean_err_same(d0, pre, offs, sizes, k);
    let l = chunk_len(d0, off);
    assert(chunk_len(pre, off) == l);
    assert(clean_err(d0, off, size) is None);
    assert(first_clean_err(d0, offs, sizes, k) == first_clean_err(d0, offs, sizes, k + 1));
    assert(clean_total(d0, offs, sizes, k) == (size - l - 4) + clean_total(
        d0,
        offs,
        sizes,
        k + 1,
    ));
    assert forall|i: int|
        0 <= i < d0.len() implies post[i] == (if in_clean_window_upto(d0, offs, sizes, k + 1, i) {
        0u8
    } else {
        d0[i]
    }) by {
        lemma_clean_window_upto_step(d0, offs, sizes, k, i);
        assert(pre[i] == (if in_clean_window_upto(d0, offs, sizes, k, i) {
            0u8
        } else {
            d0[i]
        }));
        if off + 4 + l <= i < off + size {
            assert(post[i] == 0);
        } else {
            assert(post[i] == pre[i]);
        }
    }
}

/// A step over an unused slot leaves a clean pass's windows, first error and
/// running total as they were.
proof fn lemma_clean_skip(d0: Seq<u8>, offs: Seq<u32>, sizes: Seq<u8>, k: int)
    requires
        0 <= k < 1024,
        offs[visit_slot(k)] == 0,
    ensures
        first_clean_err(d0, offs, sizes, k) == first_clean_err(d0, offs, sizes, k + 1),
        clean_total(d0, offs, sizes, k) == clean_total(d0, offs, sizes, k + 1),
        forall|i: int|
            in_clean_window_upto(d0, offs, sizes, k + 1, i) <==> in_clean_window_upto(
                d0,
                offs,
                sizes,
                k,
                i,
            ),
{
    assert forall|i: int|
        in_clean_window_upto(d0, offs, sizes, k + 1, i) <==> in_clean_window_upto(
        d0,
        offs,
        sizes,
        k,
        i,
    ) by {
        lemma_clean_window_upto_step(d0, offs, sizes, k, i);
    }
}

/// A chunk exists exactly when the 24-bit sector-offset field recorded for
/// its slot in the raw header is non-zero: parsing stores that field times
/// 4096, and existence tests the stored offset against zero. The premises
/// are what `RegionFile::new` ensures of the index it decodes from `d`.
pub proof fn lemma_exists_iff_header_sector_nonzero(d: Seq<u8>, rf: RegionFile, x: u8, z: u8)
    requires
        x < 32,
        z < 32,
        rf.wf(),
        forall|s: int|
            0 <= s < 1024 ==> rf@.offsets[s] == #[trigger] header_sector(d, s) * 4096,
    ensures
        rf.spec_exists(x, z) <==> header_sector(d, slot_index(x, z)) > 0,
{
    let s = slot_index(x, z);
    assert(0 <= s < 1024);
    assert(header_sector(d, s) >= 0);
}

/// Batch passes never disturb the header: they write only inside used slots'
/// allocated regions, so when every used slot's region lies at or past the
/// header's end, re-parsing the rewritten file yields an identical index —
/// the same sector offsets, sector counts and timestamps for all 1024 slots.
pub proof fn lemma_header_reparse_identical(
    d0: Seq<u8>,
    d1: Seq<u8>,
    offs: Seq<u32>,
    sizes: Seq<u8>,
)
    requires
        d0.len() >= 8192,
        d1.len() == d0.len(),
        forall|i: int| 0 <= i < d0.len() && !in_live_region(offs, sizes, i) ==> d1[i] == d0[i],
        forall|s: int| 0 <= s < 1024 && (#[trigger] offs[s]) > 0 ==> offs[s] >= 8192,
    ensures
        forall|s: int|
            0 <= s < 1024 ==> #[trigger] header_sector(d1, s) == header_sector(d0, s),
        forall|s: int| 0 <= s < 1024 ==> #[trigger] header_count(d1, s) == header_count(d0, s),
        forall|s: int|
            0 <= s < 1024 ==> #[trigger] header_timestamp(d1, s) == header_timestamp(d0, s),
{
    assert forall|i: int| 0 <= i < 8192 implies d1[i] == d0[i] by {
        assert(!in_live_region(offs, sizes, i));
    }
}

/// The decoded header index and the file bytes it was read from.
#[verifier::ext_equal]
pub struct RegionView {
    /// Byte offset of each slot's region; 0 means the slot is unused.
    pub offsets: Seq<u32>,
    /// Sectors allocated to each slot.
    pub sizes: Seq<u8>,
    /// Last-modified timestamp of each slot; 0 if unused.
    pub timestamps: Seq<u32>,
    /// The file's bytes.
    pub data: Seq<u8>,
}

/// A region file, held in memory together with its decoded header index.
#[derive(Debug)]
pub struct RegionFile {
    offsets: Vec<u32>,
    timestamps: Vec<u32>,
    chunk_size: Vec<u8>,
    data: Vec<u8>,
}

impl View for RegionFile {
    type V = RegionView;

    closed spec fn view(&self) -> RegionView {
        RegionView {
            offsets: self.offsets@,
            sizes: self.chunk_size@,
            timestamps: self.timestamps@,
            data: self.data@,
        }
    }
}

impl RegionFile {
    /// The index has one entry per grid slot, every recorded offset is
    /// sector-aligned, and the bytes still hold at least the header.
    pub open spec fn wf(self) -> bool {
        &&& self@.offsets.len() == 1024
        &&& self@.sizes.len() == 1024
        &&& self@.timestamps.len() == 1024
        &&& self@.data.len() >= 8192
        &&& forall|s: int| 0 <= s < 1024 ==> (#[trigger] self@.offsets[s]) % 4096 == 0
    }

    /// Whether the slot for `(x, z)` is marked used in the decoded index.
    pub open spec fn spec_exists(self, x: u8, z: u8) -> bool {
        self@.offsets[slot_index(x, z)] > 0
    }

    /// Byte offset of the slot's allocated region.
    pub open spec fn slot_offset(self, x: u8, z: u8) -> int {
        self@.offsets[slot_index(x, z)] as int
    }

    /// Byte size of the slot's allocated region.
    pub open spec fn slot_size(self, x: u8, z: u8) -> int {
        self@.sizes[slot_index(x, z)] * 4096
    }

    /// Decodes the fixed 8192-byte header of `data` into an index.
    ///
    /// Fails with `Error::Io` when the bytes cannot hold a header, and with
    /// `Error::InvariantViolation` when a recorded sector offset is too large
    /// for its byte offset to be represented in 32 bits.
    pub fn new(data: Vec<u8>) -> (r: Result<RegionFile, Error>)
        ensures
            match r {
                Ok(rf) => {
                    &&& data@.len() >= 8192
                    &&& rf.wf()
                    &&& rf@.data == data@
                    &&& forall|s: int|
                        0 <= s < 1024 ==> {
                            &&& #[trigger] header_sector(data@, s) <= 0xFFFFF
                            &&& rf@.offsets[s] == header_sector(data@, s) * 4096
                            &&& rf@.sizes[s] as int == header_count(data@, s)
                            &&& rf@.timestamps[s] as int == header_timestamp(data@, s)
                        }
                },
                Err(Error::Io) => data@.len() < 8192,
                Err(Error::InvariantViolation) => {
                    &&& data@.len() >= 8192
                    &&& exists|s: int| 0 <= s < 1024 && #[trigger] header_sector(data@, s) > 0xFFFFF
                },
                Err(_) => false,
            },
    {
        if data.len() < 8192 {
            return Err(Error::Io);
        }
        let mut offsets: Vec<u32> = Vec::new();
        let mut chunk_size: Vec<u8> = Vec::new();
        let mut timestamps: Vec<u32> = Vec::new();
        let mut s: usize = 0;
        while s < 1024
            invariant
                s <= 1024,
                data@.len() >= 8192,
                offsets@.len() == s,
                chunk_size@.len() == s,
                forall|j: int|
                    0 <= j < s ==> {
                        &&& #[trigger] header_sector(data@, j) <= 0xFFFFF
                        &&& offsets@[j] == header_sector(data@, j) * 4096
                        &&& chunk_size@[j] as int == header_count(data@, j)
                    },
                forall|j: int| 0 <= j < s ==> (#[trigger] offsets@[j]) % 4096 == 0,
            decreases 1024 - s,
        {
            let b0 = data[4 * s] as u32;
            let b1 = data[4 * s + 1] as u32;
            let b2 = data[4 * s + 2] as u32;
            let sector = b0 * 0x1_0000 + b1 * 0x100 + b2;
            if sector > 0xFFFFF {
                proof {
                    assert(header_sector(data@, s as int) > 0xFFFFF);
                }
                return Err(Error::InvariantViolation);
            }
            proof {
                lemma_mod_multiples_basic(sector as int, 4096);
            }
            offsets.push(sector * 4096);
            chunk_size.push(data[4 * s + 3]);
            s = s + 1;
        }
        let mut t: usize = 0;
        while t < 1024
            invariant
                t <= 1024,
                data@.len() >= 8192,
                timestamps@.len() == t,
                forall|j: int|
                    0 <= j < t ==> #[trigger] timestamps@[j] as int == header_timestamp(data@, j),
            decreases 1024 - t,
        {
            let ts = read_be32(&data, 4096 + 4 * t);
            timestamps.push(ts);
            t = t + 1;
        }
        Ok(RegionFile { offsets, timestamps, chunk_size, data })
    }

    /// Returns the timestamp recorded for the slot of `(x, z)`, exactly as
    /// it stands in the decoded index (0 for an unused slot).
    pub fn get_chunk_timestamp(&self, x: u8, z: u8) -> (r: Option<u32>)
        requires
            self.wf(),
            x < 32,
            z < 32,
        ensures
            r == Some(self@.timestamps[slot_index(x, z)]),
    {
        let idx = (x as usize) % 32 + ((z as usize) % 32) * 32;
        if idx < self.timestamps.len() {
            Some(self.timestamps[idx])
        } else {
            None
        }
    }

    /// Returns the byte offset of the slot's allocated region, measured from
    /// the start of the file (0 for an unused slot).
    pub fn get_chunk_offset(&self, x: u8, z: u8) -> (r: u32)
        requires
            self.wf(),
            x < 32,
            z < 32,
        ensures
            r as int == self.slot_offset(x, z),
    {
        let idx = (x as usize) % 32 + ((z as usize) % 32) * 32;
        self.offsets[idx]
    }

    /// Returns the number of bytes allocated to the slot of `(x, z)`.
    pub fn get_chunk_size(&self, x: u8, z: u8) -> (r: usize)
        requires
            self.wf(),
            x < 32,
            z < 32,
        ensures
            r as int == self.slot_size(x, z),
    {
        let idx = (x as usize) % 32 + ((z as usize) % 32) * 32;
        (self.chunk_size[idx] as usize) * 4096
    }

    /// Whether the chunk at `(x, z)` exists: true exactly when the decoded
    /// offset word for its slot is non-zero.
    pub fn chunk_exists(&self, x: u8, z: u8) -> (r: bool)
        requires
            self.wf(),
            x < 32,
            z < 32,
        ensures
            r == self.spec_exists(x, z),
    {
        let idx = (x as usize) % 32 + ((z as usize) % 32) * 32;
        self.offsets[idx] > 0
    }

    /// Counts the junk in the chunk at `(x, z)`: reads the `size - 5` bytes
    /// after the slot's 5-byte prefix, and if any byte of that window at or
    /// past offset `L` is non-zero, treats the whole trailing window as junk
    /// and returns its full size, `size - 5 - L`; otherwise returns 0.
    /// Purely a read.
    ///
    /// Fails with `Error::Io` when the region reaches past the file's end,
    /// and with `Error::InvariantViolation` when the region cannot hold its
    /// own 5-byte prefix or the declared length exceeds the region.
    pub fn junk_bytes(&self, x: u8, z: u8) -> (r: Result<usize, Error>)
        requires
            self.wf(),
            x < 32,
            z < 32,
            self.spec_exists(x, z),
        ensures
            ({
                let off = self.slot_offset(x, z);
                let size = self.slot_size(x, z);
                let d = self@.data;
                let l = chunk_len(d, off);
                if off + 5 > d.len() {
                    r == Err::<usize, Error>(Error::Io)
                } else if size < 5 {
                    r == Err::<usize, Error>(Error::InvariantViolation)
                } else if off + size > d.len() {
                    r == Err::<usize, Error>(Error::Io)
                } else if l > size - 5 {
                    r == Err::<usize, Error>(Error::InvariantViolation)
                } else if tail_zero(d, off, size, l) {
                    r == Ok::<usize, Error>(0)
                } else {
                    r matches Ok(n) && n as int == size - 5 - l
                }
            }),
    {
        let off = self.get_chunk_offset(x, z) as usize;
        let size = self.get_chunk_size(x, z);
        let len = self.data.len();
        if len < 5 || off > len - 5 {
            return Err(Error::Io);
        }
        let l32 = read_be32(&self.data, off);
        let l = l32 as usize;
        if size < 5 {
            return Err(Error::InvariantViolation);
        }
        if size > len - off {
            return Err(Error::Io);
        }
        if l > size - 5 {
            return Err(Error::InvariantViolation);
        }
        let mut i = off + 5 + l;
        let end = off + size;
        while i < end
            invariant
                off + 5 + l <= i <= end,
                end == off + size <= self@.data.len(),
                off as int == self.slot_offset(x, z),
                size as int == self.slot_size(x, z),
                l as int == chunk_len(self@.data, off as int),
                5 <= size,
                l <= size - 5,
                forall|j: int| off + 5 + l <= j < i ==> self@.data[j] == 0,
            decreases end - i,
        {
            if self.data[i] != 0 {
                proof {
                    assert(!tail_zero(self@.data, off as int, size as int, l as int)) by {
                        assert(self@.data[i as int] != 0);
                    }
                }
                return Ok(size - 5 - l);
            }
            i = i + 1;
        }
        Ok(0)
    }

    /// Zeroes the chunk's region past its declared-length-bearing prefix:
    /// everything from byte `off + 4 + L` to the region's end (this includes
    /// the compression tag byte's trailing window, a deliberate difference
    /// from the scan window of `junk_bytes`). Returns the number of bytes
    /// written, `size - L - 4`, whether or not they were already zero. The
    /// write ends exactly at the region's end, a multiple of 4096.
    ///
    /// Fails with `Error::Io` when the read or the write would reach past the
    /// file's end, and with `Error::InvariantViolation` when the declared
    /// length (plus its own 4 bytes) exceeds the region.
    pub fn clean_chunk(&mut self, x: u8, z: u8) -> (r: Result<usize, Error>)
        requires
            old(self).wf(),
            x < 32,
            z < 32,
            old(self).spec_exists(x, z),
        ensures
            final(self).wf(),
            final(self)@.offsets == old(self)@.offsets,
            final(self)@.sizes == old(self)@.sizes,
            final(self)@.timestamps == old(self)@.timestamps,
            final(self)@.data.len() == old(self)@.data.len(),
            (old(self).slot_offset(x, z) + old(self).slot_size(x, z)) % 4096 == 0,
            ({
                let off = old(self).slot_offset(x, z);
                let size = old(self).slot_size(x, z);
                let d = old(self)@.data;
                let l = chunk_len(d, off);
                if off + 4 > d.len() {
                    r == Err::<usize, Error>(Error::Io) && final(self)@.data == d
                } else if l > size - 4 {
                    r == Err::<usize, Error>(Error::InvariantViolation) && final(self)@.data == d
                } else if off + size > d.len() {
                    r == Err::<usize, Error>(Error::Io) && final(self)@.data == d
                } else {
                    &&& r matches Ok(n) && n as int == size - l - 4
                    &&& forall|j: int| off + 4 + l <= j < off + size ==> final(self)@.data[j] == 0
                    &&& forall|j: int|
                        0 <= j < d.len() && !(off + 4 + l <= j < off + size) ==> final(self)@.data[j]
                            == d[j]
                }
            }),
    {
        proof {
            lemma_mod_multiples_basic(old(self)@.sizes[slot_index(x, z)] as int, 4096);
            lemma_add_mod_noop(
                old(self).slot_offset(x, z),
                old(self).slot_size(x, z),
                4096,
            );
        }
        let off = self.get_chunk_offset(x, z) as usize;
        let size = self.get_chunk_size(x, z);
        let len = self.data.len();
        if len < 4 || off > len - 4 {
            return Err(Error::Io);
        }
        let l32 = read_be32(&self.data, off);
        let l = l32 as usize;
        if size < 4 || l > size - 4 {
            return Err(Error::InvariantViolation);
        }
        if size > len - off {
            return Err(Error::Io);
        }
        zero_range(&mut self.data, off + 4 + l, off + size);
        Ok(size - l - 4)
    }

    /// Cleans every existing chunk, walking the grid with `x` outer and `z`
    /// inner, and returns the total number of bytes written. Stops at the
    /// first failing slot and returns its error; slots cleaned before it keep
    /// their zeroed tails.
    ///
    /// The pass writes only zeroes, and only inside used slots' allocated
    /// regions, so the header and every unused byte are untouched; when all
    /// used regions lie past the header, re-parsing afterwards yields the
    /// identical index. On a file whose used regions do not overlap, the
    /// outcome is pinned exactly: the pass fails with the first slot's error
    /// as judged against the starting bytes, or zeroes exactly every used
    /// slot's window past its declared length and reports their summed sizes.
    #[verifier::rlimit(100)]
    pub fn clean_junk(&mut self) -> (r: Result<usize, Error>)
        requires
            old(self).wf(),
        ensures
            final(self).wf(),
            final(self)@.offsets == old(self)@.offsets,
            final(self)@.sizes == old(self)@.sizes,
            final(self)@.timestamps == old(self)@.timestamps,
            final(self)@.data.len() == old(self)@.data.len(),
            forall|i: int|
                0 <= i < old(self)@.data.len() && !in_live_region(
                    old(self)@.offsets,
                    old(self)@.sizes,
                    i,
                ) ==> final(self)@.data[i] == old(self)@.data[i],
            forall|i: int|
                0 <= i < old(self)@.data.len() ==> final(self)@.data[i] == old(self)@.data[i]
                    || final(self)@.data[i] == 0,
            (forall|s: int|
                0 <= s < 1024 && (#[trigger] old(self)@.offsets[s]) > 0 ==> old(self)@.offsets[s]
                    >= 8192) ==> {
                &&& forall|s: int|
                    0 <= s < 1024 ==> #[trigger] header_sector(final(self)@.data, s)
                        == header_sector(old(self)@.data, s)
                &&& forall|s: int|
                    0 <= s < 1024 ==> #[trigger] header_count(final(self)@.data, s)
                        == header_count(old(self)@.data, s)
                &&& forall|s: int|
                    0 <= s < 1024 ==> #[trigger] header_timestamp(final(self)@.data, s)
                        == header_timestamp(old(self)@.data, s)
            },
            r is Err ==> exists|s: int| 0 <= s < 1024 && (#[trigger] old(self)@.offsets[s]) > 0,
            regions_disjoint(old(self)@.offsets, old(self)@.sizes) ==> match r {
                Ok(n) => {
                    &&& first_clean_err(
                        old(self)@.data,
                        old(self)@.offsets,
                        old(self)@.sizes,
                        0,
                    ) is None
                    &&& n as int == clean_total(
                        old(self)@.data,
                        old(self)@.offsets,
                        old(self)@.sizes,
                        0,
                    )
                    &&& forall|i: int|
                        0 <= i < old(self)@.data.len() ==> final(self)@.data[i] == (
                        if in_clean_window(old(self)@.data, old(self)@.offsets, old(self)@.sizes, i) {
                            0u8
                        } else {
                            old(self)@.data[i]
                        })
                },
                Err(e) => {
                    &&& first_clean_err(
                        old(self)@.data,
                        old(self)@.offsets,
                        old(self)@.sizes,
                        0,
                    ) == Some(e)
                    &&& exists|kf: int|
                        #[trigger] clean_stopped_at(
                            old(self)@.data,
                            final(self)@.data,
                            old(self)@.offsets,
                            old(self)@.sizes,
                            kf,
                            e,
                        )
                },
            },
    {
        let ghost d0 = old(self)@.data;
        let ghost offs = old(self)@.offsets;
        let ghost sizes = old(self)@.sizes;
        let mut total: usize = 0;
        let mut k: usize = 0;
        while k < 1024
            invariant
                k <= 1024,
                self.wf(),
                self@.offsets == offs,
                self@.sizes == sizes,
                self@.timestamps == old(self)@.timestamps,
                self@.data.len() == d0.len(),
                offs == old(self)@.offsets,
                sizes == old(self)@.sizes,
                d0 == old(self)@.data,
                total <= k * 0x100000,
                forall|i: int|
                    0 <= i < d0.len() && !in_live_region(offs, sizes, i) ==> self@.data[i]
                        == d0[i],
                forall|i: int|
                    0 <= i < d0.len() ==> self@.data[i] == d0[i] || self@.data[i] == 0,
                regions_disjoint(offs, sizes) ==> {
                    &&& first_clean_err(d0, offs, sizes, 0) == first_clean_err(
                        d0,
                        offs,
                        sizes,
                        k as int,
                    )
                    &&& total as int == clean_total(d0, offs, sizes, 0) - clean_total(
                        d0,
                        offs,
                        sizes,
                        k as int,
                    )
                    &&& forall|i: int|
                        0 <= i < d0.len() ==> self@.data[i] == (if in_clean_window_upto(
                            d0,
                            offs,
                            sizes,
                            k as int,
                            i,
                        ) {
                            0u8
                        } else {
                            d0[i]
                        })
                },
            decreases 1024 - k,
        {
            proof {
                lemma_visit_slot_range(k as int);
            }
            let x = (k / 32) as u8;
            let z = (k % 32) as u8;
            let ghost s = visit_slot(k as int);
            proof {
                assert(slot_index(x, z) == s);
            }
            if self.chunk_exists(x, z) {
                let ghost pre = self@.data;
                let ghost off = self.slot_offset(x, z);
                let ghost size = self.slot_size(x, z);
                let res = self.clean_chunk(x, z);
                match res {
                    Ok(n) => {
                        proof {
                            assert forall|i: int|
                                0 <= i < d0.len() && !in_live_region(offs, sizes, i) implies self@.data[i]
                                == d0[i] by {
                                if off + 4 + chunk_len(pre, off) <= i < off + size {
                                    assert(offs[s] > 0 && offs[s] <= i < offs[s] + sizes[s] * 4096);
                                    assert(in_live_region(offs, sizes, i));
                                }
                            }
                            if regions_disjoint(offs, sizes) {
                                assert(clean_err(pre, off, size) is None);
                                lemma_clean_step(
                                    d0,
                                    pre,
                                    self@.data,
                                    offs,
                                    sizes,
                                    k as int,
                                    n as int,
                                );
                            }
                        }
                        total = total + n;
                    },
                    Err(e) => {
                        proof {
                            assert(0 <= s < 1024 && offs[s] > 0);
                            if regions_disjoint(offs, sizes) {
                                assert(clean_err(pre, off, size) == Some(e));
                                lemma_clean_err_same(d0, pre, offs, sizes, k as int);
                                assert(first_clean_err(d0, offs, sizes, k as int) == Some(e));
                                assert(clean_stopped_at(d0, self@.data, offs, sizes, k as int, e));
                            }
                            if (forall|t: int|
                                0 <= t < 1024 && (#[trigger] offs[t]) > 0 ==> offs[t] >= 8192) {
                                lemma_header_reparse_identical(d0, self@.data, offs, sizes);
                            }
                        }
                        return Err(e);
                    },
                }
            } else {
                proof {
                    if regions_disjoint(offs, sizes) {
                        lemma_clean_skip(d0, offs, sizes, k as int);
                    }
                }
            }
            k = k + 1;
        }
        proof {
            if (forall|s: int|
                0 <= s < 1024 && (#[trigger] offs[s]) > 0 ==> offs[s] >= 8192) {
                lemma_header_reparse_identical(d0, self@.data, offs, sizes);
            }
            if regions_disjoint(offs, sizes) {
                assert forall|i: int| 0 <= i < d0.len() implies self@.data[i] == (
                if in_clean_window(d0, offs, sizes, i) {
                    0u8
                } else {
                    d0[i]
                }) by {
                    lemma_clean_window_full(d0, offs, sizes, i);
                }
            }
        }
        Ok(total)
    }

    /// Stores `payload` as the new zlib-tagged content of the chunk at
    /// `(x, z)`: writes the new declared length (`payload` plus the tag
    /// byte), the zlib tag, the payload itself, and zero-pads the region's
    /// remainder, ending exactly at the region's sector-aligned end. Returns
    /// the new declared length.
    ///
    /// Fails with `Error::Io` when the region reaches past the file's end,
    /// and with `Error::InvariantViolation` when the region cannot hold the
    /// 5-byte prefix or the payload does not leave the rewriter's strict
    /// room; on failure nothing is written.
    pub fn write_recompressed(&mut self, x: u8, z: u8, payload: &Vec<u8>) -> (r: Result<
        usize,
        Error,
    >)
        requires
            old(self).wf(),
            x < 32,
            z < 32,
            old(self).spec_exists(x, z),
        ensures
            final(self).wf(),
            final(self)@.offsets == old(self)@.offsets,
            final(self)@.sizes == old(self)@.sizes,
            final(self)@.timestamps == old(self)@.timestamps,
            final(self)@.data.len() == old(self)@.data.len(),
            (old(self).slot_offset(x, z) + old(self).slot_size(x, z)) % 4096 == 0,
            ({
                let off = old(self).slot_offset(x, z);
                let size = old(self).slot_size(x, z);
                let d = old(self)@.data;
                if off + size > d.len() {
                    r == Err::<usize, Error>(Error::Io) && final(self)@.data == d
                } else if size < 5 {
                    r == Err::<usize, Error>(Error::InvariantViolation) && final(self)@.data == d
                } else if payload@.len() + 1 >= size - 5 {
                    r == Err::<usize, Error>(Error::InvariantViolation) && final(self)@.data == d
                } else {
                    &&& r matches Ok(n) && n as int == payload@.len() + 1
                    &&& chunk_len(final(self)@.data, off) == payload@.len() + 1
                    &&& chunk_tag(final(self)@.data, off) == 2
                    &&& chunk_payload(final(self)@.data, off) == payload@
                    &&& forall|j: int|
                        off + 5 + payload@.len() <= j < off + size ==> final(self)@.data[j] == 0
                    &&& forall|j: int|
                        0 <= j < d.len() && !(off <= j < off + size) ==> final(self)@.data[j]
                            == d[j]
                }
            }),
    {
        proof {
            lemma_mod_multiples_basic(old(self)@.sizes[slot_index(x, z)] as int, 4096);
            lemma_add_mod_noop(
                old(self).slot_offset(x, z),
                old(self).slot_size(x, z),
                4096,
            );
        }
        let off = self.get_chunk_offset(x, z) as usize;
        let size = self.get_chunk_size(x, z);
        let len = self.data.len();
        if off > len || size > len - off {
            return Err(Error::Io);
        }
        if size < 5 {
            return Err(Error::InvariantViolation);
        }
        let plen = payload.len();
        if size < 6 || plen >= size - 6 {
            return Err(Error::InvariantViolation);
        }
        let new_len = plen + 1;
        write_be32(&mut self.data, off, new_len as u32);
        self.data.set(off + 4, 2u8);
        write_range(&mut self.data, off + 5, payload);
        zero_range(&mut self.data, off + 5 + plen, off + size);
        proof {
            assert(chunk_payload(self@.data, off as int) =~= payload@);
        }
        Ok(new_len)
    }

    /// Recompresses the chunk at `(x, z)` in place: reads its declared
    /// length and compression tag, inflates its zlib payload, deflates the
    /// result again at `level` (0 fastest, 9 best), and stores it back with
    /// `write_recompressed`, zero-padding the freed space. Returns the old
    /// and the new declared length. The rewritten payload inflates to
    /// exactly the bytes the old payload inflated to, and the rest of the
    /// file is untouched; on any error the whole file is untouched.
    ///
    /// Only the zlib tag (2) is supported: any other tag fails with
    /// `Error::UnsupportedCompressionFormat` carrying that tag, before
    /// anything is written. `Error::Io` reports a region or payload reaching
    /// past the file's end, or a payload that is not a well-formed zlib
    /// stream; `Error::InvariantViolation` reports a declared length that
    /// contradicts the region's size, or a recompressed payload that would
    /// not leave the rewriter's strict room.
    pub fn recompress_chunk(&mut self, x: u8, z: u8, level: u32) -> (r: Result<
        (usize, usize),
        Error,
    >)
        requires
            old(self).wf(),
            x < 32,
            z < 32,
            old(self).spec_exists(x, z),
            level <= 9,
        ensures
            final(self).wf(),
            final(self)@.offsets == old(self)@.offsets,
            final(self)@.sizes == old(self)@.sizes,
            final(self)@.timestamps == old(self)@.timestamps,
            final(self)@.data.len() == old(self)@.data.len(),
            r is Err ==> final(self)@.data == old(self)@.data,
            forall|j: int|
                0 <= j < old(self)@.data.len() && !(old(self).slot_offset(x, z) <= j < old(
                    self,
                ).slot_offset(x, z) + old(self).slot_size(x, z)) ==> final(self)@.data[j] == old(
                    self,
                )@.data[j],
            ({
                let off = old(self).slot_offset(x, z);
                let size = old(self).slot_size(x, z);
                let d = old(self)@.data;
                let l = chunk_len(d, off);
                let tag = chunk_tag(d, off);
                if off + 5 > d.len() {
                    r == Err::<(usize, usize), Error>(Error::Io)
                } else if l >= size {
                    r == Err::<(usize, usize), Error>(Error::InvariantViolation)
                } else if tag != 2 {
                    r == Err::<(usize, usize), Error>(
                        Error::UnsupportedCompressionFormat { compression_type: tag },
                    )
                } else if l < 1 {
                    r == Err::<(usize, usize), Error>(Error::InvariantViolation)
                } else if off + 4 + l > d.len() {
                    r == Err::<(usize, usize), Error>(Error::Io)
                } else if inflate_of(chunk_payload(d, off)) is None {
                    r == Err::<(usize, usize), Error>(Error::Io)
                } else if off + size > d.len() {
                    r == Err::<(usize, usize), Error>(Error::Io)
                } else if size < 5 {
                    r == Err::<(usize, usize), Error>(Error::InvariantViolation)
                } else {
                    match r {
                        Ok((old_len, new_len)) => {
                            &&& old_len as int == l
                            &&& new_len as int == chunk_len(final(self)@.data, off)
                            &&& slot_recompressed(d, final(self)@.data, off, size)
                        },
                        Err(e) => e == Error::InvariantViolation,
                    }
                }
            }),
    {
        let off = self.get_chunk_offset(x, z) as usize;
        let size = self.get_chunk_size(x, z);
        let len = self.data.len();
        if len < 5 || off > len - 5 {
            return Err(Error::Io);
        }
        let l32 = read_be32(&self.data, off);
        let l = l32 as usize;
        let tag = self.data[off + 4];
        if l >= size {
            return Err(Error::InvariantViolation);
        }
        if tag != 2 {
            return Err(Error::UnsupportedCompressionFormat { compression_type: tag });
        }
        if l < 1 {
            return Err(Error::InvariantViolation);
        }
        if l - 1 > len - (off + 5) {
            return Err(Error::Io);
        }
        let payload = read_range(&self.data, off + 5, l - 1);
        let raw = match zlib_decompress(&payload) {
            Some(v) => v,
            None => {
                return Err(Error::Io);
            },
        };
        let compressed = zlib_compress(&raw, level);
        match self.write_recompressed(x, z, &compressed) {
            Ok(new_len) => Ok((l, new_len)),
            Err(e) => Err(e),
        }
    }

    /// Recompresses every existing chunk at `level` (0 fastest, 9 best),
    /// walking the grid with `x` outer and `z` inner, and returns the summed
    /// old and new declared lengths. Stops at the first failing slot and
    /// returns its error; slots rewritten before it keep their new contents.
    ///
    /// The pass writes only inside used slots' allocated regions, so the
    /// header and every unused byte are untouched; when all used regions lie
    /// past the header, re-parsing afterwards yields the identical index. On
    /// a file whose used regions do not overlap, every used slot ends either
    /// byte-for-byte as it started or freshly rewritten with a payload that
    /// inflates to exactly what its old payload inflated to; on success the
    /// latter holds for every used slot, and the two totals are the sums of
    /// the declared lengths before and after.
    #[verifier::rlimit(60)]
    pub fn recompress_region(&mut self, level: u32) -> (r: Result<(usize, usize), Error>)
        requires
            old(self).wf(),
            level <= 9,
        ensures
            final(self).wf(),
            final(self)@.offsets == old(self)@.offsets,
            final(self)@.sizes == old(self)@.sizes,
            final(self)@.timestamps == old(self)@.timestamps,
            final(self)@.data.len() == old(self)@.data.len(),
            forall|i: int|
                0 <= i < old(self)@.data.len() && !in_live_region(
                    old(self)@.offsets,
                    old(self)@.sizes,
                    i,
                ) ==> final(self)@.data[i] == old(self)@.data[i],
            (forall|s: int|
                0 <= s < 1024 && (#[trigger] old(self)@.offsets[s]) > 0 ==> old(self)@.offsets[s]
                    >= 8192) ==> {
                &&& forall|s: int|
                    0 <= s < 1024 ==> #[trigger] header_sector(final(self)@.data, s)
                        == header_sector(old(self)@.data, s)
                &&& forall|s: int|
                    0 <= s < 1024 ==> #[trigger] header_count(final(self)@.data, s)
                        == header_count(old(self)@.data, s)
                &&& forall|s: int|
                    0 <= s < 1024 ==> #[trigger] header_timestamp(final(self)@.data, s)
                        == header_timestamp(old(self)@.data, s)
            },
            (regions_disjoint(old(self)@.offsets, old(self)@.sizes) && payloads_in_regions(
                old(self)@.data,
                old(self)@.offsets,
                old(self)@.sizes,
            )) ==> forall|s: int|
                0 <= s < 1024 && (#[trigger] old(self)@.offsets[s]) > 0 ==> (region_unchanged(
                    old(self)@.data,
                    final(self)@.data,
                    old(self)@.offsets[s] as int,
                    old(self)@.sizes[s] * 4096,
                ) || slot_recompressed(
                    old(self)@.data,
                    final(self)@.data,
                    old(self)@.offsets[s] as int,
                    old(self)@.sizes[s] * 4096,
                )),
            r is Err ==> exists|s: int| 0 <= s < 1024 && (#[trigger] old(self)@.offsets[s]) > 0,
            (regions_disjoint(old(self)@.offsets, old(self)@.sizes) && payloads_in_regions(
                old(self)@.data,
                old(self)@.offsets,
                old(self)@.sizes,
            )) ==> match r {
                Ok(totals) => {
                    &&& first_recompress_err(
                        old(self)@.data,
                        old(self)@.offsets,
                        old(self)@.sizes,
                        0,
                    ) is None
                    &&& forall|s: int|
                        0 <= s < 1024 && (#[trigger] old(self)@.offsets[s]) > 0
                            ==> slot_recompressed(
                            old(self)@.data,
                            final(self)@.data,
                            old(self)@.offsets[s] as int,
                            old(self)@.sizes[s] * 4096,
                        )
                    &&& totals.0 as int == lens_total_upto(
                        old(self)@.data,
                        old(self)@.offsets,
                        1024,
                    )
                    &&& totals.1 as int == lens_total_upto(
                        final(self)@.data,
                        old(self)@.offsets,
                        1024,
                    )
                },
                Err(e) => {
                    &&& e != Error::InvariantViolation ==> first_recompress_err(
                        old(self)@.data,
                        old(self)@.offsets,
                        old(self)@.sizes,
                        0,
                    ) == Some(e)
                    &&& exists|kf: int|
                        #[trigger] recompress_stopped_at(
                            old(self)@.data,
                            final(self)@.data,
                            old(self)@.offsets,
                            old(self)@.sizes,
                            kf,
                        )
                },
            },
    {
        let ghost d0 = old(self)@.data;
        let ghost offs = old(self)@.offsets;
        let ghost sizes = old(self)@.sizes;
        let mut total_old: usize = 0;
        let mut total_new: usize = 0;
        let mut k: usize = 0;
        while k < 1024
            invariant
                k <= 1024,
                level <= 9,
                self.wf(),
                self@.offsets == offs,
                self@.sizes == sizes,
                self@.timestamps == old(self)@.timestamps,
                self@.data.len() == d0.len(),
                offs == old(self)@.offsets,
                sizes == old(self)@.sizes,
                d0 == old(self)@.data,
                total_old <= k * 0x100000,
                total_new <= k * 0x100000,
                forall|i: int|
                    0 <= i < d0.len() && !in_live_region(offs, sizes, i) ==> self@.data[i]
                        == d0[i],
                (regions_disjoint(offs, sizes) && payloads_in_regions(d0, offs, sizes)) ==> {
                    &&& first_recompress_err(d0, offs, sizes, 0) == first_recompress_err(
                        d0,
                        offs,
                        sizes,
                        k as int,
                    )
                    &&& forall|j: int|
                        0 <= j < k && (#[trigger] offs[visit_slot(j)]) > 0 ==> slot_recompressed(
                            d0,
                            self@.data,
                            offs[visit_slot(j)] as int,
                            sizes[visit_slot(j)] * 4096,
                        )
                    &&& forall|j: int|
                        k <= j < 1024 && (#[trigger] offs[visit_slot(j)]) > 0 ==> region_unchanged(
                            d0,
                            self@.data,
                            offs[visit_slot(j)] as int,
                            sizes[visit_slot(j)] * 4096,
                        )
                    &&& total_old as int == lens_total_upto(d0, offs, k as int)
                    &&& total_new as int == lens_total_upto(self@.data, offs, k as int)
                },
            decreases 1024 - k,
        {
            proof {
                lemma_visit_slot_range(k as int);
            }
            let x = (k / 32) as u8;
            let z = (k % 32) as u8;
            let ghost s = visit_slot(k as int);
            proof {
                assert(slot_index(x, z) == s);
            }
            if self.chunk_exists(x, z) {
                let ghost pre = self@.data;
                let ghost off = self.slot_offset(x, z);
                let ghost size = self.slot_size(x, z);
                let res = self.recompress_chunk(x, z, level);
                match res {
                    Ok(lens) => {
                        proof {
                            assert forall|i: int|
                                0 <= i < d0.len() && !in_live_region(offs, sizes, i) implies self@.data[i]
                                == d0[i] by {
                                if off <= i < off + size {
                                    assert(offs[s] > 0 && offs[s] <= i < offs[s] + sizes[s] * 4096);
                                    assert(in_live_region(offs, sizes, i));
                                }
                            }
                            if regions_disjoint(offs, sizes) && payloads_in_regions(
                                d0,
                                offs,
                                sizes,
                            ) {
                                lemma_recompress_step(
                                    d0,
                                    pre,
                                    self@.data,
                                    offs,
                                    sizes,
                                    k as int,
                                    lens.0 as int,
                                    lens.1 as int,
                                );
                                assert(region_unchanged(d0, pre, offs[s] as int, sizes[s] * 4096));
                                lemma_recompress_err_same(d0, pre, offs, sizes, k as int);
                                assert(recompress_err(pre, off, size) is None);
                                assert(first_recompress_err(d0, offs, sizes, k as int)
                                    == first_recompress_err(d0, offs, sizes, k as int + 1));
                            }
                        }
                        total_old = total_old + lens.0;
                        total_new = total_new + lens.1;
                    },
                    Err(e) => {
                        proof {
                            assert(0 <= s < 1024 && offs[s] > 0);
                            if regions_disjoint(offs, sizes) && payloads_in_regions(
                                d0,
                                offs,
                                sizes,
                            ) {
                                assert forall|t: int|
                                    0 <= t < 1024 && (#[trigger] offs[t]) > 0 implies (
                                region_unchanged(d0, self@.data, offs[t] as int, sizes[t] * 4096)
                                    || slot_recompressed(
                                    d0,
                                    self@.data,
                                    offs[t] as int,
                                    sizes[t] * 4096,
                                )) by {
                                    lemma_visit_slot_onto(t);
                                }
                                assert(recompress_stopped_at(d0, self@.data, offs, sizes, k as int));
                                if e != Error::InvariantViolation {
                                    assert(recompress_err(pre, off, size) == Some(e));
                                    assert(region_unchanged(
                                        d0,
                                        pre,
                                        offs[s] as int,
                                        sizes[s] * 4096,
                                    ));
                                    lemma_recompress_err_same(d0, pre, offs, sizes, k as int);
                                    assert(first_recompress_err(d0, offs, sizes, k as int) == Some(
                                        e,
                                    ));
                                }
                            }
                            if (forall|t: int|
                                0 <= t < 1024 && (#[trigger] offs[t]) > 0 ==> offs[t] >= 8192) {
                                lemma_header_reparse_identical(d0, self@.data, offs, sizes);
                            }
                        }
                        return Err(e);
                    },
                }
            } else {
                proof {
                    if regions_disjoint(offs, sizes) && payloads_in_regions(d0, offs, sizes) {
                        assert(lens_total_upto(d0, offs, k as int + 1) == lens_total_upto(
                            d0,
                            offs,
                            k as int,
                        ));
                        assert(lens_total_upto(self@.data, offs, k as int + 1) == lens_total_upto(
                            self@.data,
                            offs,
                            k as int,
                        ));
                        assert(first_recompress_err(d0, offs, sizes, k as int)
                            == first_recompress_err(d0, offs, sizes, k as int + 1));
                    }
                }
            }
            k = k + 1;
        }
        proof {
            if (forall|t: int| 0 <= t < 1024 && (#[trigger] offs[t]) > 0 ==> offs[t] >= 8192) {
                lemma_header_reparse_identical(d0, self@.data, offs, sizes);
            }
            if regions_disjoint(offs, sizes) && payloads_in_regions(d0, offs, sizes) {
                assert forall|t: int|
                    0 <= t < 1024 && (#[trigger] offs[t]) > 0 implies slot_recompressed(
                    d0,
                    self@.data,
                    offs[t] as int,
                    sizes[t] * 4096,
                ) by {
                    lemma_visit_slot_onto(t);
                }
            }
        }
        Ok((total_old, total_new))
    }

    /// A read-only view of the file's bytes, junk, padding and all.
    pub fn file_bytes(&self) -> (r: &Vec<u8>)
        ensures
            r@ == self@.data,
    {
        &self.data
    }
}

} // verus!
