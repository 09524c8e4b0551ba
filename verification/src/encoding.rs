//! The byte encoding of a Bloom filter, and what merging two encodings byte by
//! byte does to it.
//!
//! An encoding is a header followed by the bitmap. The header holds a version
//! byte, the number of bitmap bytes, the number of hash functions and the seed
//! of the hash functions, all integers in little-endian order.
use vstd::prelude::*;

verus! {

/// Number of header bytes: version, bitmap length, hash count, seed.
pub const HEADER_LEN: usize = 45;

/// The only version of the encoding.
pub const ENCODING_VERSION: u8 = 1;

pub open spec fn le_u64(
    b0: u8,
    b1: u8,
    b2: u8,
    b3: u8,
    b4: u8,
    b5: u8,
    b6: u8,
    b7: u8,
) -> u64 {
    (b0 as u64) | (b1 as u64) << 8 | (b2 as u64) << 16 | (b3 as u64) << 24 | (b4 as u64) << 32 | (
    b5 as u64) << 40 | (b6 as u64) << 48 | (b7 as u64) << 56
}

pub open spec fn le_u32(b0: u8, b1: u8, b2: u8, b3: u8) -> u32 {
    (b0 as u32) | (b1 as u32) << 8 | (b2 as u32) << 16 | (b3 as u32) << 24
}

/// The header of an encoding.
pub open spec fn header(bytes: Seq<u8>) -> Seq<u8> {
    bytes.take(HEADER_LEN as int)
}

/// The number of bitmap bytes that the header announces.
pub open spec fn bitmap_len(bytes: Seq<u8>) -> u64 {
    le_u64(bytes[1], bytes[2], bytes[3], bytes[4], bytes[5], bytes[6], bytes[7], bytes[8])
}

/// The number of hash functions that the header announces.
pub open spec fn hash_count(bytes: Seq<u8>) -> u32 {
    le_u32(bytes[9], bytes[10], bytes[11], bytes[12])
}

/// Why `bytes` is not the encoding of a filter; `None` if it is one.
pub open spec fn encoding_error(bytes: Seq<u8>) -> Option<Seq<char>> {
    if bytes.len() < HEADER_LEN {
        Some("Invalid size"@)
    } else if bytes[0] != ENCODING_VERSION {
        Some("Version mismatch"@)
    } else if hash_count(bytes) == 0 {
        Some("Invalid number of keys"@)
    } else if bitmap_len(bytes) > usize::MAX {
        Some("Too big"@)
    } else if bitmap_len(bytes) != bytes.len() - HEADER_LEN {
        Some("Invalid size"@)
    } else {
        None
    }
}

/// `bytes` is the encoding of a filter.
pub open spec fn is_encoding(bytes: Seq<u8>) -> bool {
    encoding_error(bytes) is None
}

/// The bits of the bitmap in `bytes` can be counted in a `u64`.
pub open spec fn is_countable(bytes: Seq<u8>) -> bool {
    bit_count(bytes) <= u64::MAX
}

/// Bit `p` of the bitmap is set.
pub open spec fn has_bit(bytes: Seq<u8>, p: int) -> bool {
    (bytes[HEADER_LEN + p / 8] >> ((p % 8) as u8)) & 1 == 1
}

/// The number of bits in the bitmap.
pub open spec fn bit_count(bytes: Seq<u8>) -> int {
    8 * (bytes.len() - HEADER_LEN)
}

/// `base` with the bytes of `other` or-ed into it, as far as both reach.
pub open spec fn overlay(base: Seq<u8>, other: Seq<u8>) -> Seq<u8> {
    Seq::new(
        base.len(),
        |i: int|
            if i < other.len() {
                base[i] | other[i]
            } else {
                base[i]
            },
    )
}

/// `other` can be overlaid on `base` so that an encoding comes out: the bitmap
/// length of `other` adds no bit to that of `base`.
pub open spec fn can_overlay(base: Seq<u8>, other: Seq<u8>) -> bool {
    bitmap_len(base) | bitmap_len(other) == bitmap_len(base)
}

/// The first of `encodings` with all the others overlaid on it.
pub open spec fn overlay_all(encodings: Seq<Seq<u8>>) -> Seq<u8>
    recommends
        encodings.len() > 0,
    decreases encodings.len(),
{
    if encodings.len() <= 1 {
        encodings[0]
    } else {
        overlay(overlay_all(encodings.drop_last()), encodings.last())
    }
}

/// All of `encodings` can be overlaid on the first of them.
pub open spec fn can_overlay_all(encodings: Seq<Seq<u8>>) -> bool {
    forall|i: int|
        0 <= i < encodings.len() ==> can_overlay(encodings[0], #[trigger] encodings[i])
}

/// The members of `candidates` that are encodings, in order.
pub open spec fn only_encodings(candidates: Seq<Seq<u8>>) -> Seq<Seq<u8>>
    decreases candidates.len(),
{
    if candidates.len() == 0 {
        Seq::empty()
    } else if is_encoding(candidates.last()) {
        only_encodings(candidates.drop_last()).push(candidates.last())
    } else {
        only_encodings(candidates.drop_last())
    }
}

/// The integers of a header have their least significant byte first.
pub proof fn law_little_endian(bytes: Seq<u8>)
    ensures
        bitmap_len(bytes) == bytes[1] + 0x100 * bytes[2] + 0x1_0000 * bytes[3] + 0x100_0000
            * bytes[4] + 0x1_0000_0000 * bytes[5] + 0x100_0000_0000 * bytes[6] + 0x1_0000_0000_0000
            * bytes[7] + 0x100_0000_0000_0000 * bytes[8],
        hash_count(bytes) == bytes[9] + 0x100 * bytes[10] + 0x1_0000 * bytes[11] + 0x100_0000
            * bytes[12],
{
    let (b1, b2, b3, b4) = (bytes[1], bytes[2], bytes[3], bytes[4]);
    let (b5, b6, b7, b8) = (bytes[5], bytes[6], bytes[7], bytes[8]);
    assert(le_u64(b1, b2, b3, b4, b5, b6, b7, b8) == b1 + 0x100 * b2 + 0x1_0000 * b3 + 0x100_0000
        * b4 + 0x1_0000_0000 * b5 + 0x100_0000_0000 * b6 + 0x1_0000_0000_0000 * b7
        + 0x100_0000_0000_0000 * b8) by (bit_vector);
    let (b9, b10, b11, b12) = (bytes[9], bytes[10], bytes[11], bytes[12]);
    assert(le_u32(b9, b10, b11, b12) == b9 + 0x100 * b10 + 0x1_0000 * b11 + 0x100_0000 * b12)
        by (bit_vector);
}

/// Bytes are an encoding exactly if there is a whole header, of the right version, with at
/// least one hash function, and as many bytes behind it as it announces. How many bytes these
/// are, or what is in them, makes no other difference.
pub proof fn law_encodings(bytes: Seq<u8>)
    requires
        bytes.len() <= usize::MAX,
    ensures
        is_encoding(bytes) <==> {
            &&& bytes.len() >= 45
            &&& bytes[0] == 1
            &&& !(bytes[9] == 0 && bytes[10] == 0 && bytes[11] == 0 && bytes[12] == 0)
            &&& bytes.len() - 45 == bytes[1] + 0x100 * bytes[2] + 0x1_0000 * bytes[3] + 0x100_0000
                * bytes[4] + 0x1_0000_0000 * bytes[5] + 0x100_0000_0000 * bytes[6]
                + 0x1_0000_0000_0000 * bytes[7] + 0x100_0000_0000_0000 * bytes[8]
        },
        is_countable(bytes) <==> 8 * (bytes.len() - 45) <= u64::MAX,
{
    law_little_endian(bytes);
}

/// Overlaying one string of bytes on another or-s it in byte by byte, and keeps the length
/// of the other.
pub proof fn law_overlay_bytes(base: Seq<u8>, other: Seq<u8>)
    ensures
        overlay(base, other).len() == base.len(),
        forall|i: int|
            0 <= i < base.len() && i < other.len() ==> #[trigger] overlay(base, other)[i] == base[i]
                | other[i],
        forall|i: int|
            other.len() <= i < base.len() ==> #[trigger] overlay(base, other)[i] == base[i],
{
}

/// `only_encodings` keeps nothing but encodings, and what it keeps of a prefix is
/// a prefix of what it keeps of the whole.
pub proof fn lemma_only_encodings(candidates: Seq<Seq<u8>>, k: int)
    requires
        0 <= k <= candidates.len(),
    ensures
        forall|i: int|
            0 <= i < only_encodings(candidates).len() ==> is_encoding(
                #[trigger] only_encodings(candidates)[i],
            ),
        only_encodings(candidates.take(k)).is_prefix_of(only_encodings(candidates)),
    decreases candidates.len(),
{
    if candidates.len() > 0 {
        let shorter = candidates.drop_last();
        if k < candidates.len() {
            lemma_only_encodings(shorter, k);
            assert(shorter.take(k) =~= candidates.take(k));
            let (kept, all) = (only_encodings(shorter), only_encodings(candidates));
            let part = only_encodings(candidates.take(k));
            assert(part =~= all.take(part.len() as int)) by {
                assert(part == kept.take(part.len() as int));
            }
        } else {
            lemma_only_encodings(shorter, shorter.len() as int);
            assert(candidates.take(k) =~= candidates);
        }
    }
}

proof fn lemma_or_le(a: Seq<u8>, b: Seq<u8>)
    requires
        a.len() >= HEADER_LEN,
        b.len() >= HEADER_LEN,
    ensures
        bitmap_len(overlay(a, b)) == bitmap_len(a) | bitmap_len(b),
        hash_count(overlay(a, b)) == hash_count(a) | hash_count(b),
{
    let (a1, a2, a3, a4, a5, a6, a7, a8) = (a[1], a[2], a[3], a[4], a[5], a[6], a[7], a[8]);
    let (b1, b2, b3, b4, b5, b6, b7, b8) = (b[1], b[2], b[3], b[4], b[5], b[6], b[7], b[8]);
    assert(le_u64(a1 | b1, a2 | b2, a3 | b3, a4 | b4, a5 | b5, a6 | b6, a7 | b7, a8 | b8) == le_u64(
        a1,
        a2,
        a3,
        a4,
        a5,
        a6,
        a7,
        a8,
    ) | le_u64(b1, b2, b3, b4, b5, b6, b7, b8)) by (bit_vector);
    let (a9, a10, a11, a12) = (a[9], a[10], a[11], a[12]);
    let (b9, b10, b11, b12) = (b[9], b[10], b[11], b[12]);
    assert(le_u32(a9 | b9, a10 | b10, a11 | b11, a12 | b12) == le_u32(a9, a10, a11, a12) | le_u32(
        b9,
        b10,
        b11,
        b12,
    )) by (bit_vector);
}

/// Overlaying one encoding on another gives an encoding exactly when the bitmap
/// length of the second adds no bit to that of the first; it then has the
/// length of the first.
pub proof fn law_overlay_is_encoding(base: Seq<u8>, other: Seq<u8>)
    requires
        is_encoding(base),
        is_encoding(other),
    ensures
        is_encoding(overlay(base, other)) <==> can_overlay(base, other),
        overlay(base, other).len() == base.len(),
        can_overlay(base, other) ==> bitmap_len(overlay(base, other)) == bitmap_len(base),
{
    lemma_or_le(base, other);
    let (x, y) = (hash_count(base), hash_count(other));
    assert(x != 0 ==> x | y != 0) by (bit_vector);
    assert(1u8 | 1u8 == 1u8) by (bit_vector);
}

/// Encodings with the same header can always be overlaid.
pub proof fn law_same_header_overlays(base: Seq<u8>, other: Seq<u8>)
    requires
        is_encoding(base),
        is_encoding(other),
        header(base) == header(other),
    ensures
        base.len() == other.len(),
        can_overlay(base, other),
        header(overlay(base, other)) == header(base),
{
    assert forall|i: int| 0 <= i < HEADER_LEN implies base[i] == other[i] by {
        assert(base.take(HEADER_LEN as int)[i] == base[i]);
        assert(other.take(HEADER_LEN as int)[i] == other[i]);
    }
    let l = bitmap_len(base);
    assert(l | l == l) by (bit_vector);
    assert forall|i: int| 0 <= i < HEADER_LEN implies overlay(base, other)[i] == base[i] by {
        let x = base[i];
        assert(x | x == x) by (bit_vector);
    }
    assert(header(overlay(base, other)) =~= header(base));
}

/// Encodings that announce the same bitmap length can always be overlaid.
pub proof fn law_same_len_overlays(encodings: Seq<Seq<u8>>)
    requires
        forall|i: int|
            0 <= i < encodings.len() ==> bitmap_len(#[trigger] encodings[i]) == bitmap_len(
                encodings[0],
            ),
    ensures
        can_overlay_all(encodings),
{
    let l = bitmap_len(encodings[0]);
    assert(l | l == l) by (bit_vector);
}

/// A bit of an overlay is set exactly when it is set in either of the two
/// encodings, where both have bitmaps of the same size.
pub proof fn law_overlay_bits(base: Seq<u8>, other: Seq<u8>, p: int)
    requires
        base.len() == other.len(),
        base.len() >= HEADER_LEN,
        0 <= p < bit_count(base),
    ensures
        has_bit(overlay(base, other), p) <==> has_bit(base, p) || has_bit(other, p),
{
    let i = HEADER_LEN + p / 8;
    let (x, y) = (base[i], other[i]);
    let s = (p % 8) as u8;
    assert(((x | y) >> s) & 1 == 1 <==> ((x >> s) & 1 == 1 || (y >> s) & 1 == 1)) by (bit_vector)
        requires
            s < 8,
    ;
}

/// Overlaying an encoding on itself changes nothing.
pub proof fn law_overlay_idempotent(base: Seq<u8>)
    ensures
        overlay(base, base) == base,
{
    assert forall|i: int| 0 <= i < base.len() implies overlay(base, base)[i] == base[i] by {
        let x = base[i];
        assert(x | x == x) by (bit_vector);
    }
    assert(overlay(base, base) =~= base);
}

/// Overlaying an encoding with one of the same header that has no bit set, in either
/// order, changes nothing.
pub proof fn law_overlay_identity(base: Seq<u8>, blank: Seq<u8>)
    requires
        is_encoding(base),
        is_encoding(blank),
        header(base) == header(blank),
        forall|p: int| 0 <= p < bit_count(blank) ==> !#[trigger] has_bit(blank, p),
    ensures
        overlay(base, blank) == base,
        overlay(blank, base) == base,
{
    law_same_header_overlays(base, blank);
    let merged = overlay(base, blank);
    assert forall|p: int| 0 <= p < bit_count(merged) implies (#[trigger] has_bit(merged, p)
        <==> has_bit(base, p)) by {
        law_overlay_bits(base, blank, p);
        assert(!has_bit(blank, p));
    }
    law_bits_determine_encoding(merged, base);
    law_overlay_commutative(base, blank);
}

/// Which of two encodings of the same length is overlaid on the other makes no
/// difference.
pub proof fn law_overlay_commutative(a: Seq<u8>, b: Seq<u8>)
    requires
        a.len() == b.len(),
    ensures
        overlay(a, b) == overlay(b, a),
{
    assert forall|i: int| 0 <= i < a.len() implies overlay(a, b)[i] == overlay(b, a)[i] by {
        let (x, y) = (a[i], b[i]);
        assert(x | y == y | x) by (bit_vector);
    }
    assert(overlay(a, b) =~= overlay(b, a));
}

/// The order in which two encodings are overlaid on a third makes no
/// difference.
pub proof fn law_overlay_order(base: Seq<u8>, a: Seq<u8>, b: Seq<u8>)
    ensures
        overlay(overlay(base, a), b) == overlay(overlay(base, b), a),
{
    let l = overlay(overlay(base, a), b);
    let r = overlay(overlay(base, b), a);
    assert forall|i: int| 0 <= i < base.len() implies l[i] == r[i] by {
        let x = base[i];
        if i < a.len() && i < b.len() {
            let (y, z) = (a[i], b[i]);
            assert((x | y) | z == (x | z) | y) by (bit_vector);
        }
    }
    assert(l =~= r);
}

/// Overlaying the overlay of two encodings is overlaying one after the other,
/// where the first of the two is not the shorter one.
pub proof fn law_overlay_associative(base: Seq<u8>, a: Seq<u8>, b: Seq<u8>)
    requires
        b.len() <= a.len(),
    ensures
        overlay(overlay(base, a), b) == overlay(base, overlay(a, b)),
{
    let l = overlay(overlay(base, a), b);
    let r = overlay(base, overlay(a, b));
    assert forall|i: int| 0 <= i < base.len() implies l[i] == r[i] by {
        let x = base[i];
        if i < b.len() {
            let (y, z) = (a[i], b[i]);
            assert((x | y) | z == x | (y | z)) by (bit_vector);
        }
    }
    assert(l =~= r);
}

/// Where encodings can all be overlaid on the first of them, an encoding with
/// the length of the first comes out.
pub proof fn law_overlay_all_is_encoding(encodings: Seq<Seq<u8>>)
    requires
        encodings.len() > 0,
        forall|i: int| 0 <= i < encodings.len() ==> is_encoding(#[trigger] encodings[i]),
        can_overlay_all(encodings),
    ensures
        is_encoding(overlay_all(encodings)),
        overlay_all(encodings).len() == encodings[0].len(),
        bitmap_len(overlay_all(encodings)) == bitmap_len(encodings[0]),
    decreases encodings.len(),
{
    if encodings.len() > 1 {
        let prefix = encodings.drop_last();
        assert forall|i: int| 0 <= i < prefix.len() implies is_encoding(#[trigger] prefix[i])
            && can_overlay(prefix[0], prefix[i]) by {
            assert(prefix[i] == encodings[i]);
        }
        law_overlay_all_is_encoding(prefix);
        law_overlay_is_encoding(overlay_all(prefix), encodings.last());
    }
}

/// A bit that is set in one of several encodings is set in their overlay, where the
/// bitmap of the one has the size of the first.
pub proof fn law_overlay_all_keeps_bits(encodings: Seq<Seq<u8>>, i: int, p: int)
    requires
        0 <= i < encodings.len(),
        encodings[i].len() == encodings[0].len(),
        encodings[0].len() >= HEADER_LEN,
        0 <= p < bit_count(encodings[0]),
        has_bit(encodings[i], p),
    ensures
        overlay_all(encodings).len() == encodings[0].len(),
        has_bit(overlay_all(encodings), p),
    decreases encodings.len(),
{
    lemma_overlay_all_len(encodings);
    if encodings.len() > 1 {
        let prefix = encodings.drop_last();
        let (rest, last) = (overlay_all(prefix), encodings.last());
        lemma_overlay_all_len(prefix);
        let at = HEADER_LEN + p / 8;
        let (x, y) = (rest[at], last[at]);
        let s = (p % 8) as u8;
        assert((x >> s) & 1 == 1 || (y >> s) & 1 == 1 ==> ((x | y) >> s) & 1 == 1) by (bit_vector)
            requires
                s < 8,
        ;
        if i < prefix.len() {
            law_overlay_all_keeps_bits(prefix, i, p);
        }
    }
}

/// An overlay has the length of the first encoding.
pub proof fn lemma_overlay_all_len(encodings: Seq<Seq<u8>>)
    requires
        encodings.len() > 0,
    ensures
        overlay_all(encodings).len() == encodings[0].len(),
    decreases encodings.len(),
{
    if encodings.len() > 1 {
        lemma_overlay_all_len(encodings.drop_last());
    }
}

/// Encodings with the same header have bitmaps of the same size.
pub proof fn law_same_header_same_len(a: Seq<u8>, b: Seq<u8>)
    requires
        is_encoding(a),
        is_encoding(b),
        header(a) == header(b),
    ensures
        a.len() == b.len(),
{
    law_same_header_overlays(a, b);
}

/// Where encodings all have the same header, so has their overlay, and one of
/// its bits is set exactly when the bit is set in one of them.
pub proof fn law_overlay_all_bits(encodings: Seq<Seq<u8>>)
    requires
        encodings.len() > 0,
        forall|i: int|
            0 <= i < encodings.len() ==> is_encoding(#[trigger] encodings[i]) && header(
                encodings[i],
            ) == header(encodings[0]),
    ensures
        can_overlay_all(encodings),
        is_encoding(overlay_all(encodings)),
        header(overlay_all(encodings)) == header(encodings[0]),
        forall|i: int|
            0 <= i < encodings.len() ==> (#[trigger] encodings[i]).len() == overlay_all(
                encodings,
            ).len(),
        forall|p: int|
            0 <= p < bit_count(encodings[0]) ==> (#[trigger] has_bit(overlay_all(encodings), p)
                <==> exists|i: int| 0 <= i < encodings.len() && has_bit(encodings[i], p)),
    decreases encodings.len(),
{
    if encodings.len() == 1 {
        law_same_header_overlays(encodings[0], encodings[0]);
        assert forall|p: int| 0 <= p < bit_count(encodings[0]) implies (#[trigger] has_bit(
            overlay_all(encodings),
            p,
        ) <==> exists|i: int| 0 <= i < encodings.len() && has_bit(encodings[i], p)) by {
            if has_bit(overlay_all(encodings), p) {
                assert(has_bit(encodings[0], p));
            }
        }
    } else {
        let prefix = encodings.drop_last();
        let last = encodings.last();
        assert forall|i: int| 0 <= i < prefix.len() implies is_encoding(#[trigger] prefix[i])
            && header(prefix[i]) == header(prefix[0]) by {
            assert(prefix[i] == encodings[i]);
        }
        law_overlay_all_bits(prefix);
        let rest = overlay_all(prefix);
        law_same_header_overlays(rest, last);
        law_overlay_is_encoding(rest, last);
        law_same_header_overlays(encodings[0], last);
        assert forall|i: int| 0 <= i < encodings.len() implies can_overlay(
            encodings[0],
            #[trigger] encodings[i],
        ) && encodings[i].len() == rest.len() by {
            if i < prefix.len() {
                assert(prefix[i] == encodings[i]);
            }
        }
        assert forall|p: int| 0 <= p < bit_count(encodings[0]) implies (#[trigger] has_bit(
            overlay_all(encodings),
            p,
        ) <==> exists|i: int| 0 <= i < encodings.len() && has_bit(encodings[i], p)) by {
            law_overlay_bits(rest, last, p);
            if has_bit(rest, p) {
                let i = choose|i: int| 0 <= i < prefix.len() && has_bit(prefix[i], p);
                assert(has_bit(encodings[i], p));
            }
            if has_bit(last, p) {
                assert(has_bit(encodings[encodings.len() - 1], p));
            }
            if exists|i: int| 0 <= i < encodings.len() && has_bit(encodings[i], p) {
                let i = choose|i: int| 0 <= i < encodings.len() && has_bit(encodings[i], p);
                if i < prefix.len() {
                    assert(has_bit(prefix[i], p));
                }
            }
        }
    }
}

/// An encoding is determined by its header and the bits of its bitmap.
pub proof fn law_bits_determine_encoding(a: Seq<u8>, b: Seq<u8>)
    requires
        a.len() == b.len(),
        a.len() >= HEADER_LEN,
        header(a) == header(b),
        forall|p: int| 0 <= p < bit_count(a) ==> (#[trigger] has_bit(a, p) <==> has_bit(b, p)),
    ensures
        a == b,
{
    assert forall|i: int| 0 <= i < a.len() implies a[i] == b[i] by {
        if i < HEADER_LEN {
            assert(a.take(HEADER_LEN as int)[i] == a[i]);
            assert(b.take(HEADER_LEN as int)[i] == b[i]);
        } else {
            let (x, y) = (a[i], b[i]);
            let first = 8 * (i - HEADER_LEN);
            assert forall|s: u8| s < 8 implies ((x >> s) & 1 == 1 <==> (y >> s) & 1 == 1) by {
                assert(has_bit(a, first + s) <==> has_bit(b, first + s));
            }
            assert(forall|s: u8| s < 8 ==> ((x >> s) & 1 == 1 <==> (y >> s) & 1 == 1));
            assert(x == y) by (bit_vector)
                requires
                    (x >> 0u8) & 1 == 1 <==> (y >> 0u8) & 1 == 1,
                    (x >> 1u8) & 1 == 1 <==> (y >> 1u8) & 1 == 1,
                    (x >> 2u8) & 1 == 1 <==> (y >> 2u8) & 1 == 1,
                    (x >> 3u8) & 1 == 1 <==> (y >> 3u8) & 1 == 1,
                    (x >> 4u8) & 1 == 1 <==> (y >> 4u8) & 1 == 1,
                    (x >> 5u8) & 1 == 1 <==> (y >> 5u8) & 1 == 1,
                    (x >> 6u8) & 1 == 1 <==> (y >> 6u8) & 1 == 1,
                    (x >> 7u8) & 1 == 1 <==> (y >> 7u8) & 1 == 1,
            ;
        }
    }
    assert(a =~= b);
}

/// A byte of a bitmap that has no bit set is zero.
pub proof fn law_no_bit_no_byte(bytes: Seq<u8>, i: int)
    requires
        HEADER_LEN <= i < bytes.len(),
        forall|p: int| 0 <= p < bit_count(bytes) ==> !#[trigger] has_bit(bytes, p),
    ensures
        bytes[i] == 0,
{
    let x = bytes[i];
    let first = 8 * (i - HEADER_LEN);
    assert forall|s: u8| s < 8 implies (x >> s) & 1 != 1 by {
        assert(!has_bit(bytes, first + s));
    }
    assert(forall|s: u8| s < 8 ==> (x >> s) & 1 != 1);
    assert(x == 0) by (bit_vector)
        requires
            (x >> 0u8) & 1 != 1,
            (x >> 1u8) & 1 != 1,
            (x >> 2u8) & 1 != 1,
            (x >> 3u8) & 1 != 1,
            (x >> 4u8) & 1 != 1,
            (x >> 5u8) & 1 != 1,
            (x >> 6u8) & 1 != 1,
            (x >> 7u8) & 1 != 1,
    ;
}

/// Neither the order of encodings with the same header nor how often one of them
/// occurs makes a difference to their overlay.
pub proof fn law_overlay_all_as_set(a: Seq<Seq<u8>>, b: Seq<Seq<u8>>)
    requires
        a.len() > 0,
        forall|i: int|
            0 <= i < a.len() ==> is_encoding(#[trigger] a[i]) && header(a[i]) == header(a[0]),
        a.to_set() == b.to_set(),
    ensures
        overlay_all(a) == overlay_all(b),
{
    assert(a.to_set().contains(a[0]));
    assert(b.to_set().contains(a[0]));
    assert(b.contains(a[0]));
    assert forall|i: int| 0 <= i < b.len() implies is_encoding(#[trigger] b[i]) && header(b[i])
        == header(a[0]) by {
        assert(b.to_set().contains(b[i]));
        assert(a.contains(b[i]));
    }
    law_overlay_all_bits(a);
    law_overlay_all_bits(b);
    law_same_header_overlays(a[0], b[0]);
    let (x, y) = (overlay_all(a), overlay_all(b));
    assert forall|p: int| 0 <= p < bit_count(x) implies (#[trigger] has_bit(x, p) <==> has_bit(
        y,
        p,
    )) by {
        if has_bit(x, p) {
            let i = choose|i: int| 0 <= i < a.len() && has_bit(a[i], p);
            assert(a.to_set().contains(a[i]));
            assert(b.contains(a[i]));
            let j = choose|j: int| 0 <= j < b.len() && b[j] == a[i];
            assert(has_bit(b[j], p));
        }
        if has_bit(y, p) {
            let i = choose|i: int| 0 <= i < b.len() && has_bit(b[i], p);
            assert(b.to_set().contains(b[i]));
            assert(a.contains(b[i]));
            let j = choose|j: int| 0 <= j < a.len() && a[j] == b[i];
            assert(has_bit(a[j], p));
        }
    }
    law_bits_determine_encoding(x, y);
}

/// Overlaying one encoding more on an overlay is overlaying all of them.
pub proof fn law_overlay_all_extends(encodings: Seq<Seq<u8>>, next: Seq<u8>)
    requires
        encodings.len() > 0,
    ensures
        overlay_all(encodings.push(next)) == overlay(overlay_all(encodings), next),
{
    assert(encodings.push(next).drop_last() =~= encodings);
}

/// What is kept of candidates is what filtering them by whether they are encodings
/// keeps, in order.
pub proof fn law_only_encodings_filters(candidates: Seq<Seq<u8>>)
    ensures
        only_encodings(candidates) == candidates.filter(|bytes: Seq<u8>| is_encoding(bytes)),
    decreases candidates.len(),
{
    reveal(Seq::filter);
    if candidates.len() > 0 {
        law_only_encodings_filters(candidates.drop_last());
    }
}

/// A candidate is kept exactly if it is an encoding, whatever stands next to it.
pub proof fn law_kept_iff_encoding(candidates: Seq<Seq<u8>>, bytes: Seq<u8>)
    ensures
        only_encodings(candidates).contains(bytes) <==> candidates.contains(bytes) && is_encoding(
            bytes,
        ),
    decreases candidates.len(),
{
    if candidates.len() > 0 {
        let shorter = candidates.drop_last();
        let (kept, kept_before) = (only_encodings(candidates), only_encodings(shorter));
        law_kept_iff_encoding(shorter, bytes);
        if kept_before.contains(bytes) {
            let i = choose|i: int| 0 <= i < kept_before.len() && kept_before[i] == bytes;
            assert(kept[i] == bytes);
            let j = choose|j: int| 0 <= j < shorter.len() && shorter[j] == bytes;
            assert(candidates[j] == bytes);
        }
        if candidates.contains(bytes) && is_encoding(bytes) {
            let i = choose|i: int| 0 <= i < candidates.len() && candidates[i] == bytes;
            if i < shorter.len() {
                assert(shorter[i] == bytes);
            } else {
                assert(kept.last() == bytes);
                assert(kept[kept.len() - 1] == bytes);
            }
        }
        if kept.contains(bytes) && !kept_before.contains(bytes) {
            let i = choose|i: int| 0 <= i < kept.len() && kept[i] == bytes;
            if i < kept_before.len() {
                assert(kept_before[i] == bytes);
            }
            assert(candidates[candidates.len() - 1] == bytes);
        }
    }
}

/// The first of the encodings that are kept is the first candidate that is one.
pub proof fn law_first_kept(candidates: Seq<Seq<u8>>)
    requires
        only_encodings(candidates).len() > 0,
    ensures
        exists|first: int|
            0 <= first < candidates.len() && is_encoding(#[trigger] candidates[first])
                && only_encodings(candidates)[0] == candidates[first] && forall|j: int|
                0 <= j < first ==> !is_encoding(#[trigger] candidates[j]),
    decreases candidates.len(),
{
    let shorter = candidates.drop_last();
    if only_encodings(shorter).len() > 0 {
        law_first_kept(shorter);
        let first = choose|first: int|
            0 <= first < shorter.len() && is_encoding(#[trigger] shorter[first]) && only_encodings(
                shorter,
            )[0] == shorter[first] && forall|j: int|
                0 <= j < first ==> !is_encoding(#[trigger] shorter[j]);
        assert(candidates[first] == shorter[first]);
        assert forall|j: int| 0 <= j < first implies !is_encoding(#[trigger] candidates[j]) by {
            assert(shorter[j] == candidates[j]);
        }
    } else {
        let first = candidates.len() - 1;
        assert forall|j: int| 0 <= j < first implies !is_encoding(#[trigger] candidates[j]) by {
            assert(shorter[j] == candidates[j]);
            law_kept_iff_encoding(shorter, candidates[j]);
        }
        assert(is_encoding(candidates[first]));
    }
}

/// An overlay has the length of the first encoding, and a bit of it is set exactly if
/// it is set in one of the encodings that reach so far. This holds of all bytes, so
/// that the bits of the header are counted too, as negative ones.
pub proof fn law_overlay_all_is_or(encodings: Seq<Seq<u8>>, p: int)
    requires
        encodings.len() > 0,
        -8 * HEADER_LEN <= p < bit_count(encodings[0]),
    ensures
        overlay_all(encodings).len() == encodings[0].len(),
        has_bit(overlay_all(encodings), p) <==> exists|i: int|
            0 <= i < encodings.len() && HEADER_LEN + p / 8 < encodings[i].len()
                && #[trigger] has_bit(encodings[i], p),
    decreases encodings.len(),
{
    lemma_overlay_all_len(encodings);
    let at = HEADER_LEN + p / 8;
    if encodings.len() == 1 {
        assert(has_bit(overlay_all(encodings), p) <==> has_bit(encodings[0], p));
    } else {
        let prefix = encodings.drop_last();
        let (rest, last) = (overlay_all(prefix), encodings.last());
        law_overlay_all_is_or(prefix, p);
        if at < last.len() {
            let (x, y) = (rest[at], last[at]);
            let s = (p % 8) as u8;
            assert(((x | y) >> s) & 1 == 1 <==> ((x >> s) & 1 == 1 || (y >> s) & 1 == 1))
                by (bit_vector)
                requires
                    s < 8,
            ;
            assert(encodings[encodings.len() - 1] == last);
            assert(has_bit(last, p) <==> has_bit(encodings[encodings.len() - 1], p));
        }
        assert forall|i: int| 0 <= i < prefix.len() implies has_bit(prefix[i], p) == #[trigger] has_bit(
            encodings[i],
            p,
        ) by {
            assert(prefix[i] == encodings[i]);
        }
        if has_bit(rest, p) {
            let i = choose|i: int|
                0 <= i < prefix.len() && HEADER_LEN + p / 8 < prefix[i].len() && #[trigger] has_bit(
                    prefix[i],
                    p,
                );
            assert(has_bit(encodings[i], p));
        }
    }
}

proof fn lemma_overlay_all_bitmap_len(encodings: Seq<Seq<u8>>, i: int)
    requires
        0 <= i < encodings.len(),
        forall|j: int| 0 <= j < encodings.len() ==> (#[trigger] encodings[j]).len() >= HEADER_LEN,
    ensures
        bitmap_len(overlay_all(encodings)) | bitmap_len(encodings[i]) == bitmap_len(
            overlay_all(encodings),
        ),
    decreases encodings.len(),
{
    lemma_overlay_all_len(encodings);
    if encodings.len() == 1 {
        let l = bitmap_len(encodings[0]);
        assert(l | l == l) by (bit_vector);
    } else {
        let prefix = encodings.drop_last();
        assert forall|j: int| 0 <= j < prefix.len() implies (#[trigger] prefix[j]).len()
            >= HEADER_LEN by {
            assert(prefix[j] == encodings[j]);
        }
        assert(encodings[encodings.len() - 1].len() >= HEADER_LEN);
        assert(encodings[0].len() >= HEADER_LEN);
        lemma_overlay_all_len(prefix);
        lemma_or_le(overlay_all(prefix), encodings.last());
        let (x, y) = (bitmap_len(overlay_all(prefix)), bitmap_len(encodings.last()));
        assert((x | y) | y == x | y) by (bit_vector);
        if i < prefix.len() {
            lemma_overlay_all_bitmap_len(prefix, i);
            let z = bitmap_len(prefix[i]);
            assert(x | z == x ==> (x | y) | z == x | y) by (bit_vector);
        }
    }
}

/// Encodings can all be overlaid on the first of them exactly if an encoding comes out.
pub proof fn law_can_overlay_all_exactly(encodings: Seq<Seq<u8>>)
    requires
        encodings.len() > 0,
        forall|i: int| 0 <= i < encodings.len() ==> is_encoding(#[trigger] encodings[i]),
    ensures
        can_overlay_all(encodings) <==> is_encoding(overlay_all(encodings)),
{
    lemma_overlay_all_len(encodings);
    if can_overlay_all(encodings) {
        law_overlay_all_is_encoding(encodings);
    }
    if is_encoding(overlay_all(encodings)) {
        assert(is_encoding(encodings[0]));
        assert forall|i: int| 0 <= i < encodings.len() implies can_overlay(
            encodings[0],
            #[trigger] encodings[i],
        ) by {
            lemma_overlay_all_bitmap_len(encodings, i);
        }
    }
}

/// Where all candidates are encodings, none is skipped.
pub proof fn law_only_encodings_keeps_encodings(candidates: Seq<Seq<u8>>)
    requires
        forall|i: int| 0 <= i < candidates.len() ==> is_encoding(#[trigger] candidates[i]),
    ensures
        only_encodings(candidates) == candidates,
    decreases candidates.len(),
{
    if candidates.len() > 0 {
        let shorter = candidates.drop_last();
        assert forall|i: int| 0 <= i < shorter.len() implies is_encoding(#[trigger] shorter[i]) by {
            assert(shorter[i] == candidates[i]);
        }
        law_only_encodings_keeps_encodings(shorter);
        assert(is_encoding(candidates[candidates.len() - 1]));
        assert(shorter.push(candidates.last()) =~= candidates);
    }
}

} // verus!
