use vstd::prelude::*;

verus! {

/// Side length, in chunks, of a square container.
pub const CONTAINER_CHUNKS: i32 = 32;

/// Number of chunks (bits) in one container.
pub const CONTAINER_BITS: usize = 1024;

/// Number of bytes in one container bitmap.
pub const CONTAINER_BYTES: usize = 128;

// ---------------------------------------------------------------------------
// Mathematical model
// ---------------------------------------------------------------------------

/// The container that holds chunk `(cx, cz)`: floor division by the side length.
pub open spec fn spec_container_of(cx: int, cz: int) -> (int, int) {
    (cx / 32, cz / 32)
}

/// The bit position of chunk `(cx, cz)` inside its container, rows running along `z`.
pub open spec fn spec_local_index(cx: int, cz: int) -> int {
    (cz % 32) * 32 + (cx % 32)
}

/// The single-bit mask that selects bit `k` (0..8) of a byte.
pub open spec fn bit_mask(k: int) -> u8 {
    1u8 << (k as u8)
}

/// Whether bit `idx` of the bitmap is set (bit `idx % 8` of byte `idx / 8`).
pub open spec fn bit_of(bm: Seq<u8>, idx: int) -> bool {
    bm[idx / 8] & bit_mask(idx % 8) != 0
}

/// The bitmap after setting bit `idx`.
pub open spec fn spec_set_bit(bm: Seq<u8>, idx: int) -> Seq<u8> {
    bm.update(idx / 8, bm[idx / 8] | bit_mask(idx % 8))
}

/// Number of one bits in a byte.
pub open spec fn byte_ones(b: u8) -> int {
    (b & 1) + ((b >> 1u8) & 1) + ((b >> 2u8) & 1) + ((b >> 3u8) & 1) + ((b >> 4u8) & 1) + ((b
        >> 5u8) & 1) + ((b >> 6u8) & 1) + ((b >> 7u8) & 1)
}

/// Number of one bits in the whole bitmap.
pub open spec fn ones(bm: Seq<u8>) -> nat
    decreases bm.len(),
{
    if bm.len() == 0 {
        0
    } else {
        ones(bm.drop_last()) + byte_ones(bm.last()) as nat
    }
}

/// The absolute chunk coordinates of bit `idx` of container `(x, z)`.
pub open spec fn spec_chunk_at(x: int, z: int, idx: int) -> (int, int) {
    (x * 32 + idx % 32, z * 32 + idx / 32)
}

/// Coordinates of the set bits among the first `n` bits of a container, in bit order.
pub open spec fn decoded_prefix(x: int, z: int, bm: Seq<u8>, n: int) -> Seq<(int, int)>
    decreases n,
{
    if n <= 0 {
        Seq::empty()
    } else if bit_of(bm, n - 1) {
        decoded_prefix(x, z, bm, n - 1).push(spec_chunk_at(x, z, n - 1))
    } else {
        decoded_prefix(x, z, bm, n - 1)
    }
}

/// Coordinates of all set bits of container `(x, z)`, in bit order.
pub open spec fn decoded(x: int, z: int, bm: Seq<u8>) -> Seq<(int, int)> {
    decoded_prefix(x, z, bm, 1024)
}

/// Whether `x * 32 + off` is computed without leaving the `i32` range.
pub open spec fn offset_fits(x: int, off: int) -> bool {
    i32::MIN <= x * 32 && x * 32 + off <= i32::MAX
}

/// Every set bit of container `(x, z)` has coordinates that fit in an `i32`.
pub open spec fn decodable(x: int, z: int, bm: Seq<u8>) -> bool {
    forall|idx: int|
        0 <= idx < 1024 && #[trigger] bit_of(bm, idx) ==> offset_fits(x, idx % 32) && offset_fits(
            z,
            idx / 32,
        )
}

/// A chunk coordinate pair as held in the output vector.
pub open spec fn pair_of(a: [i32; 2]) -> (int, int) {
    (a[0] as int, a[1] as int)
}

// ---------------------------------------------------------------------------
// Lemmas on single bytes
// ---------------------------------------------------------------------------

proof fn lemma_or_mask(b: u8, k: u8, j: u8)
    requires
        k < 8,
        j < 8,
    ensures
        ((b | (1u8 << k)) & (1u8 << j) != 0) == (j == k || b & (1u8 << j) != 0),
{
    assert(k < 8 && j < 8 ==> (((b | (1u8 << k)) & (1u8 << j) != 0) == (j == k || b & (1u8
        << j) != 0))) by (bit_vector);
}

proof fn lemma_or_mask_ones(b: u8, k: u8)
    requires
        k < 8,
    ensures
        b & (1u8 << k) == 0 ==> byte_ones(b | (1u8 << k)) == byte_ones(b) + 1,
        b & (1u8 << k) != 0 ==> b | (1u8 << k) == b,
        byte_ones(b) <= 8,
{
    assert(k < 8 ==> (b & (1u8 << k) == 0 ==> byte_ones(b | (1u8 << k)) == byte_ones(b) + 1))
        by (bit_vector);
    assert(k < 8 ==> (b & (1u8 << k) != 0 ==> b | (1u8 << k) == b)) by (bit_vector);
    assert(byte_ones(b) <= 8) by (bit_vector);
}

proof fn lemma_ones_update(bm: Seq<u8>, i: int, v: u8)
    requires
        0 <= i < bm.len(),
    ensures
        ones(bm.update(i, v)) + byte_ones(bm[i]) == ones(bm) + byte_ones(v),
    decreases bm.len(),
{
    let u = bm.update(i, v);
    if i == bm.len() - 1 {
        assert(u.drop_last() =~= bm.drop_last());
    } else {
        assert(u.drop_last() =~= bm.drop_last().update(i, v));
        lemma_ones_update(bm.drop_last(), i, v);
    }
}

/// The bits other than `idx` keep their value when bit `idx` is set.
pub proof fn lemma_set_bit_bits(bm: Seq<u8>, idx: int, j: int)
    requires
        0 <= idx,
        idx / 8 < bm.len(),
        0 <= j,
        j / 8 < bm.len(),
    ensures
        bit_of(spec_set_bit(bm, idx), j) == (j == idx || bit_of(bm, j)),
{
    let k = (idx % 8) as u8;
    let jj = (j % 8) as u8;
    if j / 8 == idx / 8 {
        lemma_or_mask(bm[idx / 8], k, jj);
        assert(j == idx <==> j % 8 == idx % 8);
    }
}

/// A bitmap has at most eight set bits per byte.
pub proof fn lemma_ones_bound(bm: Seq<u8>)
    ensures
        ones(bm) <= 8 * bm.len(),
    decreases bm.len(),
{
    if bm.len() > 0 {
        lemma_ones_bound(bm.drop_last());
        let b = bm.last();
        assert(byte_ones(b) <= 8) by (bit_vector);
    }
}

// ---------------------------------------------------------------------------
// Laws
// ---------------------------------------------------------------------------

/// Every chunk is found again at its own bit: the coordinates of bit
/// `spec_local_index(cx, cz)` of container `spec_container_of(cx, cz)` are `(cx, cz)`.
pub proof fn lemma_chunk_position_roundtrip(cx: int, cz: int)
    ensures
        0 <= spec_local_index(cx, cz) < 1024,
        spec_chunk_at(
            spec_container_of(cx, cz).0,
            spec_container_of(cx, cz).1,
            spec_local_index(cx, cz),
        ) == (cx, cz),
{
    let i = spec_local_index(cx, cz);
    assert(i % 32 == cx % 32);
    assert(i / 32 == cz % 32);
}

/// The container of a chunk is the one whose 32-wide span holds it on each axis.
pub proof fn lemma_container_spans_chunk(cx: int, cz: int)
    ensures
        spec_container_of(cx, cz).0 * 32 <= cx < spec_container_of(cx, cz).0 * 32 + 32,
        spec_container_of(cx, cz).1 * 32 <= cz < spec_container_of(cx, cz).1 * 32 + 32,
{
}

/// Distinct bits of one container stand for distinct chunks.
proof fn lemma_chunk_at_injective(x: int, z: int, i: int, j: int)
    requires
        0 <= i < 1024,
        0 <= j < 1024,
        spec_chunk_at(x, z, i) == spec_chunk_at(x, z, j),
    ensures
        i == j,
{
    assert(i == (i / 32) * 32 + i % 32);
    assert(j == (j / 32) * 32 + j % 32);
}

proof fn lemma_decoded_prefix_contains(x: int, z: int, bm: Seq<u8>, n: int, p: (int, int))
    requires
        0 <= n <= 1024,
    ensures
        decoded_prefix(x, z, bm, n).contains(p) <==> exists|i: int|
            0 <= i < n && #[trigger] bit_of(bm, i) && spec_chunk_at(x, z, i) == p,
    decreases n,
{
    if n > 0 {
        lemma_decoded_prefix_contains(x, z, bm, n - 1, p);
        let prev = decoded_prefix(x, z, bm, n - 1);
        if bit_of(bm, n - 1) {
            let cur = prev.push(spec_chunk_at(x, z, n - 1));
            if spec_chunk_at(x, z, n - 1) == p {
                assert(cur[cur.len() - 1] == p);
            }
            if cur.contains(p) && !prev.contains(p) {
                let k = choose|k: int| 0 <= k < cur.len() && cur[k] == p;
                assert(k == cur.len() - 1);
            }
            if prev.contains(p) {
                let k = choose|k: int| 0 <= k < prev.len() && prev[k] == p;
                assert(cur[k] == p);
            }
        }
    }
}

/// What a container gives back: chunk `(cx, cz)` is among the decoded chunks of
/// its own container exactly when its bit is set.
pub proof fn lemma_decoded_iff_bit_set(cx: int, cz: int, bm: Seq<u8>)
    ensures
        decoded(spec_container_of(cx, cz).0, spec_container_of(cx, cz).1, bm).contains((cx, cz))
            <==> bit_of(bm, spec_local_index(cx, cz)),
{
    let (x, z) = spec_container_of(cx, cz);
    let li = spec_local_index(cx, cz);
    lemma_chunk_position_roundtrip(cx, cz);
    lemma_decoded_prefix_contains(x, z, bm, 1024, (cx, cz));
    if decoded(x, z, bm).contains((cx, cz)) {
        let i = choose|i: int|
            0 <= i < 1024 && #[trigger] bit_of(bm, i) && spec_chunk_at(x, z, i) == (cx, cz);
        lemma_chunk_at_injective(x, z, i, li);
    }
    if bit_of(bm, li) {
        assert(0 <= li < 1024 && bit_of(bm, li) && spec_chunk_at(x, z, li) == (cx, cz));
    }
}


proof fn lemma_decoded_prefix_no_duplicates(x: int, z: int, bm: Seq<u8>, n: int)
    requires
        0 <= n <= 1024,
    ensures
        decoded_prefix(x, z, bm, n).no_duplicates(),
    decreases n,
{
    if n > 0 {
        lemma_decoded_prefix_no_duplicates(x, z, bm, n - 1);
        let prev = decoded_prefix(x, z, bm, n - 1);
        if bit_of(bm, n - 1) {
            let q = spec_chunk_at(x, z, n - 1);
            lemma_decoded_prefix_contains(x, z, bm, n - 1, q);
            if prev.contains(q) {
                let i = choose|i: int| 0 <= i < n - 1 && #[trigger] bit_of(bm, i) && spec_chunk_at(x, z, i) == q;
                lemma_chunk_at_injective(x, z, i, n - 1);
            }
            let cur = prev.push(q);
            assert forall|a: int, b: int| 0 <= a < cur.len() && 0 <= b < cur.len() && a != b implies cur[a]
                != cur[b] by {
                if a == cur.len() - 1 {
                    assert(prev[b] == cur[b]);
                } else if b == cur.len() - 1 {
                    assert(prev[a] == cur[a]);
                } else {
                    assert(prev[a] == cur[a] && prev[b] == cur[b]);
                }
            }
        }
    }
}

/// A container decodes to each chunk at most once.
pub proof fn lemma_decoded_no_duplicates(x: int, z: int, bm: Seq<u8>)
    ensures
        decoded(x, z, bm).no_duplicates(),
{
    lemma_decoded_prefix_no_duplicates(x, z, bm, 1024);
}

/// Every decoded chunk belongs to the decoded container.
pub proof fn lemma_decoded_in_container(x: int, z: int, bm: Seq<u8>, p: (int, int))
    requires
        decoded(x, z, bm).contains(p),
    ensures
        spec_container_of(p.0, p.1) == (x, z),
        bit_of(bm, spec_local_index(p.0, p.1)),
{
    lemma_decoded_prefix_contains(x, z, bm, 1024, p);
    let i = choose|i: int| 0 <= i < 1024 && #[trigger] bit_of(bm, i) && spec_chunk_at(x, z, i) == p;
    assert(spec_local_index(p.0, p.1) == i);
}


proof fn lemma_bit_masks()
    ensures
        bit_mask(0) == 1u8,
        bit_mask(1) == 2u8,
        bit_mask(2) == 4u8,
        bit_mask(3) == 8u8,
        bit_mask(4) == 16u8,
        bit_mask(5) == 32u8,
        bit_mask(6) == 64u8,
        bit_mask(7) == 128u8,
{
    assert(bit_mask(0) == 1u8) by (bit_vector);
    assert(bit_mask(1) == 2u8) by (bit_vector);
    assert(bit_mask(2) == 4u8) by (bit_vector);
    assert(bit_mask(3) == 8u8) by (bit_vector);
    assert(bit_mask(4) == 16u8) by (bit_vector);
    assert(bit_mask(5) == 32u8) by (bit_vector);
    assert(bit_mask(6) == 64u8) by (bit_vector);
    assert(bit_mask(7) == 128u8) by (bit_vector);
}

proof fn lemma_byte_eq_from_bits(a: u8, b: u8)
    requires
        forall|j: int| 0 <= j < 8 ==> (a & #[trigger] bit_mask(j) != 0) == (b & bit_mask(j) != 0),
    ensures
        a == b,
{
    lemma_bit_masks();
    assert((a & 1u8 != 0) == (b & 1u8 != 0) && (a & 2u8 != 0) == (b & 2u8 != 0) && (a & 4u8 != 0)
        == (b & 4u8 != 0) && (a & 8u8 != 0) == (b & 8u8 != 0) && (a & 16u8 != 0) == (b & 16u8 != 0)
        && (a & 32u8 != 0) == (b & 32u8 != 0) && (a & 64u8 != 0) == (b & 64u8 != 0) && (a & 128u8
        != 0) == (b & 128u8 != 0) ==> a == b) by (bit_vector);
}

/// Two bitmaps of one size with the same set bits are the same bitmap.
pub proof fn lemma_bitmaps_eq(a: Seq<u8>, b: Seq<u8>)
    requires
        a.len() == b.len(),
        forall|idx: int| 0 <= idx < 8 * a.len() ==> bit_of(a, idx) == #[trigger] bit_of(b, idx),
    ensures
        a == b,
{
    assert forall|k: int| 0 <= k < a.len() implies a[k] == b[k] by {
        assert forall|j: int| 0 <= j < 8 implies (a[k] & #[trigger] bit_mask(j) != 0) == (b[k]
            & bit_mask(j) != 0) by {
            let idx = 8 * k + j;
            assert(idx / 8 == k);
            assert(idx % 8 == j);
            assert(bit_of(a, idx) == bit_of(b, idx));
        }
        lemma_byte_eq_from_bits(a[k], b[k]);
    }
    assert(a =~= b);
}

/// Setting a bit a second time changes nothing and reports nothing new.
pub proof fn lemma_set_bit_idempotent(bm: Seq<u8>, idx: int)
    requires
        0 <= idx,
        idx / 8 < bm.len(),
    ensures
        bit_of(spec_set_bit(bm, idx), idx),
        spec_set_bit(spec_set_bit(bm, idx), idx) == spec_set_bit(bm, idx),
{
    lemma_set_bit_bits(bm, idx, idx);
    let b = bm[idx / 8];
    let k = (idx % 8) as u8;
    assert(k < 8 ==> ((b | (1u8 << k)) | (1u8 << k)) == (b | (1u8 << k))) by (bit_vector);
    assert(spec_set_bit(spec_set_bit(bm, idx), idx) =~= spec_set_bit(bm, idx));
}

proof fn lemma_decoded_byte(x: int, z: int, bm: Seq<u8>, k: int)
    requires
        0 <= k < 128,
    ensures
        decoded_prefix(x, z, bm, 8 * k + 8).len() == decoded_prefix(x, z, bm, 8 * k).len()
            + byte_ones(bm[k]),
{
    let b = bm[k];
    reveal_with_fuel(decoded_prefix, 9);
    assert forall|j: int| 0 <= j < 8 implies #[trigger] bit_of(bm, 8 * k + j) == (b & bit_mask(j)
        != 0) by {
        assert((8 * k + j) / 8 == k);
        assert((8 * k + j) % 8 == j);
    }
    assert(bit_of(bm, 8 * k + 0) == (b & bit_mask(0) != 0));
    assert(bit_of(bm, 8 * k + 1) == (b & bit_mask(1) != 0));
    assert(bit_of(bm, 8 * k + 2) == (b & bit_mask(2) != 0));
    assert(bit_of(bm, 8 * k + 3) == (b & bit_mask(3) != 0));
    assert(bit_of(bm, 8 * k + 4) == (b & bit_mask(4) != 0));
    assert(bit_of(bm, 8 * k + 5) == (b & bit_mask(5) != 0));
    assert(bit_of(bm, 8 * k + 6) == (b & bit_mask(6) != 0));
    assert(bit_of(bm, 8 * k + 7) == (b & bit_mask(7) != 0));
    assert(byte_ones(b) == (if b & 1u8 != 0 { 1int } else { 0 }) + (if b & 2u8 != 0 { 1int } else { 0 })
        + (if b & 4u8 != 0 { 1int } else { 0 }) + (if b & 8u8 != 0 { 1int } else { 0 })
        + (if b & 16u8 != 0 { 1int } else { 0 }) + (if b & 32u8 != 0 { 1int } else { 0 })
        + (if b & 64u8 != 0 { 1int } else { 0 }) + (if b & 128u8 != 0 { 1int } else { 0 }))
        by (bit_vector);
    lemma_bit_masks();
}

proof fn lemma_decoded_count_prefix(x: int, z: int, bm: Seq<u8>, k: int)
    requires
        0 <= k <= 128,
        bm.len() == 128,
    ensures
        decoded_prefix(x, z, bm, 8 * k).len() == ones(bm.take(k)),
    decreases k,
{
    if k > 0 {
        lemma_decoded_count_prefix(x, z, bm, k - 1);
        lemma_decoded_byte(x, z, bm, k - 1);
        assert(bm.take(k).drop_last() =~= bm.take(k - 1));
        assert(8 * (k - 1) + 8 == 8 * k);
    }
}

/// A container of the standard size decodes to as many chunks as it has set bits.
pub proof fn lemma_decoded_count(x: int, z: int, bm: Seq<u8>)
    requires
        bm.len() == CONTAINER_BYTES,
    ensures
        decoded(x, z, bm).len() == ones(bm),
{
    lemma_decoded_count_prefix(x, z, bm, 128);
    assert(bm.take(128) =~= bm);
}

// ---------------------------------------------------------------------------
// Executable functions
// ---------------------------------------------------------------------------

/// The container that holds chunk `(cx, cz)`.
pub fn container_of(cx: i32, cz: i32) -> (r: (i32, i32))
    ensures
        (r.0 as int, r.1 as int) == spec_container_of(cx as int, cz as int),
        r.0 * 32 <= cx < r.0 * 32 + 32,
        r.1 * 32 <= cz < r.1 * 32 + 32,
{
    let x = match cx.checked_div_euclid(CONTAINER_CHUNKS) {
        Some(v) => v,
        None => 0,
    };
    let z = match cz.checked_div_euclid(CONTAINER_CHUNKS) {
        Some(v) => v,
        None => 0,
    };
    (x, z)
}

/// The bit position of chunk `(cx, cz)` inside its container; together with
/// the container it gives the chunk back.
pub fn local_index(cx: i32, cz: i32) -> (idx: usize)
    ensures
        idx == spec_local_index(cx as int, cz as int),
        idx < 1024,
        spec_container_of(cx as int, cz as int).0 * 32 + idx % 32 == cx,
        spec_container_of(cx as int, cz as int).1 * 32 + idx / 32 == cz,
{
    proof {
        lemma_chunk_position_roundtrip(cx as int, cz as int);
    }
    let lx = match cx.checked_rem_euclid(CONTAINER_CHUNKS) {
        Some(v) => v,
        None => 0,
    };
    let lz = match cz.checked_rem_euclid(CONTAINER_CHUNKS) {
        Some(v) => v,
        None => 0,
    };
    (lz as usize) * 32 + (lx as usize)
}

/// Sets the bit of chunk `(cx, cz)`; returns whether it was previously unset.
pub fn set_bit(bitmap: &mut [u8], cx: i32, cz: i32) -> (newly: bool)
    requires
        spec_local_index(cx as int, cz as int) / 8 < old(bitmap)@.len(),
    ensures
        newly == !bit_of(old(bitmap)@, spec_local_index(cx as int, cz as int)),
        final(bitmap)@ == spec_set_bit(old(bitmap)@, spec_local_index(cx as int, cz as int)),
        forall|j: int|
            0 <= j < 8 * old(bitmap)@.len() ==> #[trigger] bit_of(final(bitmap)@, j) == (j
                == spec_local_index(cx as int, cz as int) || bit_of(old(bitmap)@, j)),
        ones(final(bitmap)@) == ones(old(bitmap)@) + (if newly {
            1nat
        } else {
            0nat
        }),
{
    let idx = local_index(cx, cz);
    let byte = idx / 8;
    let shift: u8 = (idx % 8) as u8;
    let mask: u8 = 1u8 << shift;
    let old_byte = bitmap[byte];
    let was = old_byte & mask != 0;
    bitmap[byte] = old_byte | mask;
    proof {
        let ghost o = old(bitmap)@;
        assert(bitmap@ =~= spec_set_bit(o, idx as int));
        assert forall|j: int| 0 <= j < 8 * o.len() implies #[trigger] bit_of(bitmap@, j) == (j
            == idx || bit_of(o, j)) by {
            lemma_set_bit_bits(o, idx as int, j);
        }
        lemma_or_mask_ones(old_byte, shift);
        lemma_ones_update(o, byte as int, old_byte | mask);
    }
    !was
}

/// Number of one bits in one byte.
fn byte_count(b: u8) -> (n: u8)
    ensures
        n == byte_ones(b),
        n <= 8,
{
    proof {
        assert(byte_ones(b) <= 8) by (bit_vector);
    }
    (b & 1) + ((b >> 1u8) & 1) + ((b >> 2u8) & 1) + ((b >> 3u8) & 1) + ((b >> 4u8) & 1) + ((b
        >> 5u8) & 1) + ((b >> 6u8) & 1) + ((b >> 7u8) & 1)
}

/// Number of set bits in the bitmap, as a (wrapping) `i32`.
pub fn popcount(bitmap: &[u8]) -> (n: i32)
    requires
        ones(bitmap@) <= u32::MAX,
    ensures
        n == ones(bitmap@) as i32,
{
    let mut total: u32 = 0;
    let mut i: usize = 0;
    while i < bitmap.len()
        invariant
            i <= bitmap@.len(),
            total == ones(bitmap@.take(i as int)),
            ones(bitmap@) <= u32::MAX,
        decreases bitmap@.len() - i,
    {
        proof {
            lemma_ones_prefix_le(bitmap@, i as int + 1);
            assert(bitmap@.take(i as int + 1).drop_last() =~= bitmap@.take(i as int));
        }
        let c = byte_count(bitmap[i]);
        total = total + c as u32;
        i = i + 1;
    }
    proof {
        assert(bitmap@.take(i as int) =~= bitmap@);
    }
    total as i32
}

proof fn lemma_ones_prefix_le(bm: Seq<u8>, n: int)
    requires
        0 <= n <= bm.len(),
    ensures
        ones(bm.take(n)) <= ones(bm),
    decreases bm.len(),
{
    if n < bm.len() {
        assert(bm.drop_last().take(n) =~= bm.take(n));
        lemma_ones_prefix_le(bm.drop_last(), n);
    } else {
        assert(bm.take(n) =~= bm);
    }
}

/// Appends to `out` the absolute coordinates of every set bit of container
/// `(container_x, container_z)`, in bit order.
pub fn decode_container(
    container_x: i32,
    container_z: i32,
    bitmap: &[u8],
    out: &mut Vec<[i32; 2]>,
)
    requires
        bitmap@.len() >= CONTAINER_BYTES,
        decodable(container_x as int, container_z as int, bitmap@),
    ensures
        final(out)@.map_values(|a: [i32; 2]| pair_of(a)) == old(out)@.map_values(
            |a: [i32; 2]| pair_of(a),
        ) + decoded(container_x as int, container_z as int, bitmap@),
{
    let ghost x = container_x as int;
    let ghost z = container_z as int;
    let mut idx: usize = 0;
    while idx < CONTAINER_BITS
        invariant
            idx <= 1024,
            bitmap@.len() >= 128,
            decodable(x, z, bitmap@),
            x == container_x,
            z == container_z,
            out@.map_values(|a: [i32; 2]| pair_of(a)) == old(out)@.map_values(
                |a: [i32; 2]| pair_of(a),
            ) + decoded_prefix(x, z, bitmap@, idx as int),
        decreases 1024 - idx,
    {
        let ghost before = out@;
        let shift: u8 = (idx % 8) as u8;
        if bitmap[idx / 8] & (1u8 << shift) == 0 {
            idx = idx + 1;
            continue;
        }
        assert(bit_of(bitmap@, idx as int));
        let lx = (idx % 32) as i32;
        let lz = (idx / 32) as i32;
        let ax = container_x * CONTAINER_CHUNKS + lx;
        let az = container_z * CONTAINER_CHUNKS + lz;
        out.push([ax, az]);
        proof {
            let f = |a: [i32; 2]| pair_of(a);
            assert(out@.map_values(f) =~= before.map_values(f).push(
                spec_chunk_at(x, z, idx as int),
            ));
        }
        idx = idx + 1;
    }
}

/// A fresh, all-zero container bitmap.
pub fn empty_bitmap() -> (bm: Vec<u8>)
    ensures
        bm@ == Seq::new(CONTAINER_BYTES as nat, |i: int| 0u8),
{
    let mut bm: Vec<u8> = Vec::new();
    let mut i: usize = 0;
    while i < CONTAINER_BYTES
        invariant
            i <= CONTAINER_BYTES,
            bm@ == Seq::new(i as nat, |k: int| 0u8),
        decreases CONTAINER_BYTES - i,
    {
        bm.push(0u8);
        i = i + 1;
    }
    bm
}

} // verus!
