//! Collecting the terms of a field into one Bloom filter per segment, and merging
//! filters.
use std::collections::HashSet;

use vstd::prelude::*;

use bloomfilter::Bloom;

use vstd::std_specs::iter::IteratorSpec;

use crate::bloom_filter;
use crate::bloom_filter::{
    filter_bytes, hashes_by_header, is_best_hash_count, item_bits, might_contain,
};
use crate::encoding::{
    bit_count, bitmap_len, can_overlay, can_overlay_all, has_bit, hash_count, header, is_countable,
    is_encoding, law_first_kept, law_kept_iff_encoding, law_no_bit_no_byte, law_overlay_all_bits,
    law_overlay_all_is_encoding, law_overlay_all_is_or, law_overlay_all_keeps_bits,
    law_overlay_associative, law_overlay_commutative, law_overlay_idempotent, law_overlay_identity,
    law_overlay_is_encoding, law_same_header_overlays, law_same_header_same_len,
    law_same_len_overlays, lemma_only_encodings, lemma_overlay_all_len, only_encodings, overlay,
    overlay_all, HEADER_LEN,
};

verus! {

/// Builds Bloom filters over the terms of one field.
#[derive(Debug, Clone)]
pub struct BloomFilterCollector {
    /// The field whose terms are collected.
    pub field_name: String,
    /// How many items a filter is made for.
    pub expected_items: usize,
    /// How many bytes the bitmap of a filter takes, which follows from the number
    /// of expected items and the wanted rate of false positives.
    pub bitmap_size: usize,
}

/// Why the filters of a search could not be collected.
#[derive(Debug, Clone)]
pub enum CollectorError {
    /// The search failed, for the reason given.
    InternalError(String),
    /// No filter could be created, for the reason given.
    FilterCreation(&'static str),
}

/// Collects the terms of one segment into a filter. `C` is the column that the
/// terms are read from.
pub struct BloomFilterSegmentCollector<C> {
    /// The column of the collected field.
    pub column: C,
    /// The filter with the terms collected so far.
    pub bloom: Bloom<Vec<u8>>,
}

/// What a search reports that finds no column of the given name.
pub open spec fn column_not_found(field_name: Seq<char>) -> Seq<char> {
    "failed to find column `"@ + field_name + "`"@
}

/// Every item that a filter with the given encoding might contain, `filter` might
/// contain too.
pub open spec fn absorbs(filter: Bloom<Vec<u8>>, encoding: Seq<u8>) -> bool {
    forall|other: Bloom<Vec<u8>>, item: Seq<u8>|
        filter_bytes(other) == encoding && #[trigger] might_contain(other, item) ==> might_contain(
            filter,
            item,
        )
}

/// The encodings of a sequence of filters.
pub open spec fn encodings_of(filters: Seq<Bloom<Vec<u8>>>) -> Seq<Seq<u8>> {
    filters.map_values(|filter: Bloom<Vec<u8>>| filter_bytes(filter))
}

/// The contents of a sequence of slices.
pub open spec fn views_of(slices: Seq<&[u8]>) -> Seq<Seq<u8>> {
    slices.map_values(|slice: &[u8]| slice@)
}

/// `merged` is the merge of the filters with the given encodings.
pub open spec fn merge_of(merged: Option<Bloom<Vec<u8>>>, encodings: Seq<Seq<u8>>) -> bool {
    match merged {
        None => encodings.len() == 0,
        Some(filter) => {
            &&& encodings.len() > 0
            &&& filter_bytes(filter) == overlay_all(encodings)
            &&& forall|i: int|
                0 <= i < encodings.len() && header(#[trigger] encodings[i]) == header(
                    filter_bytes(filter),
                ) ==> absorbs(filter, encodings[i])
        },
    }
}

/// A filter whose encoding is the overlay of several encodings absorbs those that
/// have its header.
pub proof fn law_overlay_absorbs(filter: Bloom<Vec<u8>>, encodings: Seq<Seq<u8>>)
    requires
        encodings.len() > 0,
        forall|i: int| 0 <= i < encodings.len() ==> is_encoding(#[trigger] encodings[i]),
        is_encoding(filter_bytes(filter)),
        hashes_by_header(filter),
        filter_bytes(filter) == overlay_all(encodings),
    ensures
        merge_of(Some(filter), encodings),
{
    lemma_overlay_all_len(encodings);
    assert forall|i: int|
        0 <= i < encodings.len() && header(#[trigger] encodings[i]) == header(
            filter_bytes(filter),
        ) implies absorbs(filter, encodings[i]) by {
        law_same_header_same_len(encodings[i], filter_bytes(filter));
        assert forall|other: Bloom<Vec<u8>>, item: Seq<u8>|
            filter_bytes(other) == encodings[i] && #[trigger] might_contain(
                other,
                item,
            ) implies might_contain(filter, item) by {
            assert(item_bits(other) == item_bits(filter));
            assert forall|p: int| item_bits(filter)[item].contains(p) implies has_bit(
                filter_bytes(filter),
                p,
            ) by {
                assert(item_bits(other)[item].contains(p));
                law_overlay_all_keeps_bits(encodings, i, p);
            }
        }
    }
}

/// An item that one of the merged filters might contain, the merge might contain
/// too, where the merge has the header of that filter: the merge of filters with
/// different headers may have other hash functions than they.
pub proof fn law_merge_loses_nothing(
    filters: Seq<Bloom<Vec<u8>>>,
    merged: Bloom<Vec<u8>>,
    i: int,
    item: Seq<u8>,
)
    requires
        merge_of(Some(merged), encodings_of(filters)),
        0 <= i < filters.len(),
        header(filter_bytes(filters[i])) == header(filter_bytes(merged)),
        might_contain(filters[i], item),
    ensures
        might_contain(merged, item),
{
    assert(absorbs(merged, encodings_of(filters)[i]));
}

/// The merge of filters has the size of the first. Bit by bit it is the or of all of
/// them, as far as they reach; the bits of the header are counted as negative ones.
/// There is no merge exactly if there are no filters.
pub proof fn law_merge_is_or(filters: Seq<Bloom<Vec<u8>>>, merged: Option<Bloom<Vec<u8>>>)
    requires
        merge_of(merged, encodings_of(filters)),
    ensures
        merged is None <==> filters.len() == 0,
        merged matches Some(filter) ==> {
            &&& filter_bytes(filter).len() == filter_bytes(filters[0]).len()
            &&& forall|p: int|
                -8 * HEADER_LEN <= p < bit_count(filter_bytes(filter)) ==> (#[trigger] has_bit(
                    filter_bytes(filter),
                    p,
                ) <==> exists|i: int|
                    0 <= i < filters.len() && HEADER_LEN + p / 8 < filter_bytes(filters[i]).len()
                        && #[trigger] has_bit(filter_bytes(filters[i]), p))
        },
{
    let encodings = encodings_of(filters);
    assert(encodings.len() == filters.len());
    if let Some(filter) = merged {
        assert(encodings[0] == filter_bytes(filters[0]));
        lemma_overlay_all_len(encodings);
        assert forall|p: int|
            -8 * HEADER_LEN <= p < bit_count(filter_bytes(filter)) implies (#[trigger] has_bit(
            filter_bytes(filter),
            p,
        ) <==> exists|i: int|
            0 <= i < filters.len() && HEADER_LEN + p / 8 < filter_bytes(filters[i]).len()
                && #[trigger] has_bit(filter_bytes(filters[i]), p)) by {
            law_overlay_all_is_or(encodings, p);
            if has_bit(filter_bytes(filter), p) {
                let i = choose|i: int|
                    0 <= i < encodings.len() && HEADER_LEN + p / 8 < encodings[i].len()
                        && #[trigger] has_bit(encodings[i], p);
                assert(has_bit(filter_bytes(filters[i]), p));
            }
            if exists|i: int|
                0 <= i < filters.len() && HEADER_LEN + p / 8 < filter_bytes(filters[i]).len()
                    && #[trigger] has_bit(filter_bytes(filters[i]), p) {
                let i = choose|i: int|
                    0 <= i < filters.len() && HEADER_LEN + p / 8 < filter_bytes(filters[i]).len()
                        && #[trigger] has_bit(filter_bytes(filters[i]), p);
                assert(has_bit(encodings[i], p));
            }
        }
    }
}

/// Of slices that are merged, all those that are encodings count, and no other: the merge
/// has the size of the first encoding among them, and bit by bit it is the or of all
/// encodings among them, as far as they reach, whatever stands between them. The bits of
/// the header are counted as negative ones. There is no merge exactly if no slice is an
/// encoding.
pub proof fn law_merge_skips_only_non_encodings(
    slices: Seq<Seq<u8>>,
    merged: Option<Bloom<Vec<u8>>>,
)
    requires
        merge_of(merged, only_encodings(slices)),
    ensures
        merged is None <==> forall|i: int|
            0 <= i < slices.len() ==> !is_encoding(#[trigger] slices[i]),
        merged matches Some(filter) ==> {
            &&& exists|first: int|
                0 <= first < slices.len() && is_encoding(#[trigger] slices[first]) && filter_bytes(
                    filter,
                ).len() == slices[first].len() && forall|j: int|
                    0 <= j < first ==> !is_encoding(#[trigger] slices[j])
            &&& forall|p: int|
                -8 * HEADER_LEN <= p < bit_count(filter_bytes(filter)) ==> (#[trigger] has_bit(
                    filter_bytes(filter),
                    p,
                ) <==> exists|i: int|
                    0 <= i < slices.len() && is_encoding(slices[i]) && HEADER_LEN + p / 8
                        < slices[i].len() && #[trigger] has_bit(slices[i], p))
        },
{
    let kept = only_encodings(slices);
    if let Some(filter) = merged {
        law_first_kept(slices);
        lemma_overlay_all_len(kept);
        assert forall|p: int|
            -8 * HEADER_LEN <= p < bit_count(filter_bytes(filter)) implies (#[trigger] has_bit(
            filter_bytes(filter),
            p,
        ) <==> exists|i: int|
            0 <= i < slices.len() && is_encoding(slices[i]) && HEADER_LEN + p / 8 < slices[i].len()
                && #[trigger] has_bit(slices[i], p)) by {
            law_overlay_all_is_or(kept, p);
            if has_bit(filter_bytes(filter), p) {
                let k = choose|k: int|
                    0 <= k < kept.len() && HEADER_LEN + p / 8 < kept[k].len()
                        && #[trigger] has_bit(kept[k], p);
                law_kept_iff_encoding(slices, kept[k]);
                assert(kept.contains(kept[k]));
                let i = choose|i: int| 0 <= i < slices.len() && slices[i] == kept[k];
                assert(has_bit(slices[i], p));
            }
            if exists|i: int|
                0 <= i < slices.len() && is_encoding(slices[i]) && HEADER_LEN + p / 8
                    < slices[i].len() && #[trigger] has_bit(slices[i], p) {
                let i = choose|i: int|
                    0 <= i < slices.len() && is_encoding(slices[i]) && HEADER_LEN + p / 8
                        < slices[i].len() && #[trigger] has_bit(slices[i], p);
                law_kept_iff_encoding(slices, slices[i]);
                assert(slices.contains(slices[i]));
                let k = choose|k: int| 0 <= k < kept.len() && kept[k] == slices[i];
                assert(has_bit(kept[k], p));
            }
        }
    } else {
        assert forall|i: int| 0 <= i < slices.len() implies !is_encoding(#[trigger] slices[i]) by {
            law_kept_iff_encoding(slices, slices[i]);
            assert(slices.contains(slices[i]));
        }
    }
}

proof fn lemma_merge_of_slices(slices: Seq<&[u8]>, merged: Option<Bloom<Vec<u8>>>)
    requires
        merge_of(merged, only_encodings(views_of(slices))),
    ensures
        merged is None <==> forall|i: int|
            0 <= i < slices.len() ==> !is_encoding((#[trigger] slices[i])@),
        merged matches Some(filter) ==> {
            &&& exists|first: int|
                0 <= first < slices.len() && is_encoding((#[trigger] slices[first])@)
                    && filter_bytes(filter).len() == slices[first]@.len() && forall|j: int|
                    0 <= j < first ==> !is_encoding((#[trigger] slices[j])@)
            &&& forall|p: int|
                -8 * HEADER_LEN <= p < bit_count(filter_bytes(filter)) ==> (#[trigger] has_bit(
                    filter_bytes(filter),
                    p,
                ) <==> exists|i: int|
                    0 <= i < slices.len() && is_encoding(slices[i]@) && HEADER_LEN + p / 8
                        < slices[i]@.len() && #[trigger] has_bit(slices[i]@, p))
        },
{
    let views = views_of(slices);
    law_merge_skips_only_non_encodings(views, merged);
    assert(views.len() == slices.len());
    assert forall|i: int| 0 <= i < slices.len() implies #[trigger] views[i] == slices[i]@ by {}
    if let Some(filter) = merged {
        let first = choose|first: int|
            0 <= first < views.len() && is_encoding(#[trigger] views[first]) && filter_bytes(
                filter,
            ).len() == views[first].len() && forall|j: int|
                0 <= j < first ==> !is_encoding(#[trigger] views[j]);
        assert(is_encoding(slices[first]@));
        assert forall|j: int| 0 <= j < first implies !is_encoding((#[trigger] slices[j])@) by {
            assert(!is_encoding(views[j]));
        }
        assert forall|p: int|
            -8 * HEADER_LEN <= p < bit_count(filter_bytes(filter)) implies (#[trigger] has_bit(
            filter_bytes(filter),
            p,
        ) <==> exists|i: int|
            0 <= i < slices.len() && is_encoding(slices[i]@) && HEADER_LEN + p / 8
                < slices[i]@.len() && #[trigger] has_bit(slices[i]@, p)) by {
            if has_bit(filter_bytes(filter), p) {
                let i = choose|i: int|
                    0 <= i < views.len() && is_encoding(views[i]) && HEADER_LEN + p / 8
                        < views[i].len() && #[trigger] has_bit(views[i], p);
                assert(has_bit(slices[i]@, p));
            }
            if exists|i: int|
                0 <= i < slices.len() && is_encoding(slices[i]@) && HEADER_LEN + p / 8
                    < slices[i]@.len() && #[trigger] has_bit(slices[i]@, p) {
                let i = choose|i: int|
                    0 <= i < slices.len() && is_encoding(slices[i]@) && HEADER_LEN + p / 8
                        < slices[i]@.len() && #[trigger] has_bit(slices[i]@, p);
                assert(has_bit(views[i], p));
            }
        }
    } else {
        assert forall|i: int| 0 <= i < slices.len() implies !is_encoding(
            (#[trigger] slices[i])@,
        ) by {
            assert(!is_encoding(views[i]));
        }
    }
}

/// An item that a filter might contain whose encoding is one of the slices, their merge
/// might contain too, where it has the header of that filter. This is so whatever the
/// other slices are.
pub proof fn law_merge_of_slices_loses_nothing(
    slices: Seq<Seq<u8>>,
    merged: Bloom<Vec<u8>>,
    i: int,
    filter: Bloom<Vec<u8>>,
    item: Seq<u8>,
)
    requires
        merge_of(Some(merged), only_encodings(slices)),
        is_encoding(filter_bytes(merged)),
        0 <= i < slices.len(),
        is_encoding(slices[i]),
        filter_bytes(filter) == slices[i],
        header(slices[i]) == header(filter_bytes(merged)),
    ensures
        forall|p: int|
            0 <= p < bit_count(slices[i]) && #[trigger] has_bit(slices[i], p) ==> has_bit(
                filter_bytes(merged),
                p,
            ),
        might_contain(filter, item) ==> might_contain(merged, item),
{
    let kept = only_encodings(slices);
    law_kept_iff_encoding(slices, slices[i]);
    assert(slices.contains(slices[i]));
    let k = choose|k: int| 0 <= k < kept.len() && kept[k] == slices[i];
    if might_contain(filter, item) {
        assert(absorbs(merged, kept[k]));
    }
    law_merge_skips_only_non_encodings(slices, Some(merged));
    law_same_header_same_len(slices[i], filter_bytes(merged));
}

/// The merge of filters with the same header has this header, so that it loses
/// nothing of them.
pub proof fn law_same_header_merge(filters: Seq<Bloom<Vec<u8>>>, merged: Bloom<Vec<u8>>)
    requires
        merge_of(Some(merged), encodings_of(filters)),
        forall|i: int|
            0 <= i < filters.len() ==> is_encoding(filter_bytes(#[trigger] filters[i])) && header(
                filter_bytes(filters[i]),
            ) == header(filter_bytes(filters[0])),
    ensures
        header(filter_bytes(merged)) == header(filter_bytes(filters[0])),
        forall|i: int, item: Seq<u8>|
            0 <= i < filters.len() && #[trigger] might_contain(filters[i], item) ==> might_contain(
                merged,
                item,
            ),
{
    let encodings = encodings_of(filters);
    assert forall|i: int| 0 <= i < encodings.len() implies is_encoding(#[trigger] encodings[i])
        && header(encodings[i]) == header(encodings[0]) by {
        assert(encodings[i] == filter_bytes(filters[i]));
    }
    law_overlay_all_bits(encodings);
    assert forall|i: int, item: Seq<u8>|
        0 <= i < filters.len() && #[trigger] might_contain(filters[i], item) implies might_contain(
        merged,
        item,
    ) by {
        law_merge_loses_nothing(filters, merged, i, item);
    }
}

/// Filters of the same size can always be merged.
pub proof fn law_same_size_merges(filters: Seq<Bloom<Vec<u8>>>, bitmap_size: u64)
    requires
        forall|i: int|
            0 <= i < filters.len() ==> bitmap_len(filter_bytes(#[trigger] filters[i]))
                == bitmap_size,
    ensures
        can_overlay_all(encodings_of(filters)),
{
    let encodings = encodings_of(filters);
    assert forall|i: int| 0 <= i < encodings.len() implies bitmap_len(#[trigger] encodings[i])
        == bitmap_len(encodings[0]) by {
        assert(encodings[i] == filter_bytes(filters[i]));
        assert(encodings[0] == filter_bytes(filters[0]));
    }
    law_same_len_overlays(encodings);
}

/// `merged` is the merge of `b` into `a`: it has the size of `a` and the bits of both.
pub open spec fn is_merge(merged: Bloom<Vec<u8>>, a: Bloom<Vec<u8>>, b: Bloom<Vec<u8>>) -> bool {
    filter_bytes(merged) == overlay(filter_bytes(a), filter_bytes(b))
}

/// Filters with the same header: each can be merged into the other.
pub open spec fn same_header(a: Bloom<Vec<u8>>, b: Bloom<Vec<u8>>) -> bool {
    &&& is_encoding(filter_bytes(a))
    &&& is_encoding(filter_bytes(b))
    &&& header(filter_bytes(a)) == header(filter_bytes(b))
}

/// Which of two filters with the same header is merged into the other makes no
/// difference, and the merge has their header.
pub proof fn law_merge_commutative(
    a: Bloom<Vec<u8>>,
    b: Bloom<Vec<u8>>,
    ab: Bloom<Vec<u8>>,
    ba: Bloom<Vec<u8>>,
)
    requires
        same_header(a, b),
        is_merge(ab, a, b),
        is_merge(ba, b, a),
    ensures
        filter_bytes(ab) == filter_bytes(ba),
        same_header(ab, a),
        can_overlay(filter_bytes(a), filter_bytes(b)),
        can_overlay(filter_bytes(b), filter_bytes(a)),
{
    law_same_header_overlays(filter_bytes(a), filter_bytes(b));
    law_same_header_overlays(filter_bytes(b), filter_bytes(a));
    law_overlay_is_encoding(filter_bytes(a), filter_bytes(b));
    law_overlay_commutative(filter_bytes(a), filter_bytes(b));
}

/// Merging two filters, and a third into the result, gives what merging the last two
/// into the first gives, where all have the same header.
pub proof fn law_merge_associative(
    a: Bloom<Vec<u8>>,
    b: Bloom<Vec<u8>>,
    c: Bloom<Vec<u8>>,
    ab: Bloom<Vec<u8>>,
    bc: Bloom<Vec<u8>>,
    ab_c: Bloom<Vec<u8>>,
    a_bc: Bloom<Vec<u8>>,
)
    requires
        same_header(a, b),
        same_header(b, c),
        is_merge(ab, a, b),
        is_merge(bc, b, c),
        is_merge(ab_c, ab, c),
        is_merge(a_bc, a, bc),
    ensures
        filter_bytes(ab_c) == filter_bytes(a_bc),
{
    law_same_header_same_len(filter_bytes(b), filter_bytes(c));
    law_overlay_associative(filter_bytes(a), filter_bytes(b), filter_bytes(c));
}

/// Merging a filter into itself changes nothing.
pub proof fn law_merge_idempotent(a: Bloom<Vec<u8>>, merged: Bloom<Vec<u8>>)
    requires
        is_merge(merged, a, a),
    ensures
        filter_bytes(merged) == filter_bytes(a),
{
    law_overlay_idempotent(filter_bytes(a));
}

/// Merging a filter with one of the same header that has no bit set, in either order,
/// gives the filter.
pub proof fn law_merge_identity(
    a: Bloom<Vec<u8>>,
    blank: Bloom<Vec<u8>>,
    left: Bloom<Vec<u8>>,
    right: Bloom<Vec<u8>>,
)
    requires
        same_header(a, blank),
        forall|p: int|
            0 <= p < bit_count(filter_bytes(blank)) ==> !#[trigger] has_bit(
                filter_bytes(blank),
                p,
            ),
        is_merge(left, a, blank),
        is_merge(right, blank, a),
    ensures
        filter_bytes(left) == filter_bytes(a),
        filter_bytes(right) == filter_bytes(a),
{
    law_overlay_identity(filter_bytes(a), filter_bytes(blank));
}

/// Where all of the encodings and one more can be overlaid on the first, the one
/// more can be overlaid on the overlay of the others.
proof fn lemma_can_overlay_next(encodings: Seq<Seq<u8>>, next: Seq<u8>)
    requires
        encodings.len() > 0,
        forall|i: int| 0 <= i < encodings.len() ==> is_encoding(#[trigger] encodings[i]),
        can_overlay_all(encodings.push(next)),
    ensures
        can_overlay(overlay_all(encodings), next),
{
    let all = encodings.push(next);
    assert forall|i: int| 0 <= i < encodings.len() implies can_overlay(
        encodings[0],
        #[trigger] encodings[i],
    ) by {
        assert(all[i] == encodings[i]);
    }
    assert(all[encodings.len() as int] == next);
    law_overlay_all_is_encoding(encodings);
}

/// `HashSet::from_iter` on one name: the set that holds this name and nothing else.
#[verifier::external_body]
fn singleton(name: String) -> (names: HashSet<String>)
    ensures
        names@ == set![name],
{
    HashSet::from_iter([name])
}

/// The number of bitmap bytes that the header of an encoding announces.
fn announced_len(bytes: &[u8]) -> (len: u64)
    requires
        bytes@.len() >= HEADER_LEN,
    ensures
        len == bitmap_len(bytes@),
{
    (bytes[1] as u64) | (bytes[2] as u64) << 8 | (bytes[3] as u64) << 16 | (bytes[4] as u64) << 24
        | (bytes[5] as u64) << 32 | (bytes[6] as u64) << 40 | (bytes[7] as u64) << 48 | (
    bytes[8] as u64) << 56
}

/// Whether the bits of the bitmap in `bytes` can be counted in a `u64`.
fn countable(bytes: &[u8]) -> (answer: bool)
    ensures
        answer == is_countable(bytes@),
{
    bytes.len() < HEADER_LEN || (bytes.len() - HEADER_LEN) as u64 <= u64::MAX / 8
}

/// Or-s the bytes of `other` into `acc`, as far as both reach.
fn overlay_onto(acc: &mut Vec<u8>, other: &[u8])
    ensures
        final(acc)@ == overlay(old(acc)@, other@),
{
    let mut i: usize = 0;
    while i < acc.len() && i < other.len()
        invariant
            i <= acc.len(),
            i <= other.len(),
            acc.len() == old(acc).len(),
            forall|j: int| 0 <= j < i ==> acc[j] == old(acc)[j] | other[j],
            forall|j: int| i <= j < acc.len() ==> acc[j] == old(acc)[j],
        decreases acc.len() - i,
    {
        acc[i] = acc[i] | other[i];
        i = i + 1;
    }
}

/// A blank filter of a collector has exactly as many bitmap bytes as the collector asks for,
/// all of them zero, and the best number of hash functions for these bytes and the items
/// that the collector expects. It contains nothing.
pub proof fn law_blank_filter(collector: BloomFilterCollector, filter: Bloom<Vec<u8>>)
    requires
        collector.is_blank(filter),
    ensures
        filter_bytes(filter).len() == HEADER_LEN + collector.bitmap_size,
        forall|i: int|
            HEADER_LEN <= i < filter_bytes(filter).len() ==> #[trigger] filter_bytes(filter)[i]
                == 0,
        8 * collector.bitmap_size <= 0x1_0000_0000 * collector.expected_items
            ==> is_best_hash_count(
            8 * collector.bitmap_size,
            collector.expected_items as int,
            hash_count(filter_bytes(filter)) as int,
        ),
        forall|item: Seq<u8>| !#[trigger] might_contain(filter, item),
{
    let bytes = filter_bytes(filter);
    assert forall|i: int| HEADER_LEN <= i < bytes.len() implies #[trigger] bytes[i] == 0 by {
        law_no_bit_no_byte(bytes, i);
    }
}

/// A collector that expects items and has a bitmap, the bits of which can be counted and
/// the bytes of which can be allocated, can make filters. No other can.
pub proof fn law_valid_collector(collector: BloomFilterCollector)
    ensures
        collector.is_valid() <==> collector.expected_items > 0 && collector.bitmap_size > 0
            && collector.bitmap_size * 8 <= u64::MAX && collector.bitmap_size + HEADER_LEN
            <= isize::MAX,
{
}

impl BloomFilterCollector {
    /// Filters can be made for this collector: there are items to expect, there is
    /// a bitmap, and its size is within the limits of the machine.
    pub open spec fn is_valid(&self) -> bool {
        &&& self.expected_items > 0
        &&& self.bitmap_size > 0
        &&& self.bitmap_size * 8 <= u64::MAX
        &&& self.bitmap_size + HEADER_LEN <= isize::MAX
    }

    /// `filter` is a filter of this collector's size with no bit set.
    pub open spec fn is_blank(&self, filter: Bloom<Vec<u8>>) -> bool {
        let bytes = filter_bytes(filter);
        &&& is_encoding(bytes)
        &&& bitmap_len(bytes) == self.bitmap_size
        &&& 8 * self.bitmap_size <= 0x1_0000_0000 * self.expected_items ==> is_best_hash_count(
            8 * self.bitmap_size,
            self.expected_items as int,
            hash_count(bytes) as int,
        )
        &&& forall|p: int| 0 <= p < bit_count(bytes) ==> !has_bit(bytes, p)
        &&& forall|item: Seq<u8>| !#[trigger] might_contain(filter, item)
    }

    /// The fields that have to be readable by document: the collected one.
    pub fn fast_field_names(&self) -> (names: HashSet<String>)
        ensures
            exists|name: String| name@ == self.field_name@ && names@ == set![name],
    {
        let name = self.field_name.clone();
        let names = singleton(name);
        assert(name@ == self.field_name@ && names@ == set![name]);
        names
    }

    /// A blank filter of the collector's size. Creating one fails only where no
    /// random seed can be drawn for its hash functions.
    pub fn create_bloom_filter(&self) -> (result: Result<Bloom<Vec<u8>>, CollectorError>)
        requires
            self.is_valid(),
        ensures
            match result {
                Ok(filter) => {
                    &&& self.is_blank(filter)
                    &&& filter_bytes(filter).len() == HEADER_LEN + self.bitmap_size
                    &&& forall|i: int|
                        HEADER_LEN <= i < filter_bytes(filter).len() ==> #[trigger] filter_bytes(
                            filter,
                        )[i] == 0
                    &&& 8 * self.bitmap_size <= 0x1_0000_0000 * self.expected_items
                        ==> is_best_hash_count(
                        8 * self.bitmap_size,
                        self.expected_items as int,
                        hash_count(filter_bytes(filter)) as int,
                    )
                    &&& hashes_by_header(filter)
                },
                Err(error) => error matches CollectorError::FilterCreation(message) && message@
                    == "Could not generate random seed"@,
            },
    {
        match bloom_filter::new(self.bitmap_size, self.expected_items) {
            Ok(filter) => {
                proof {
                    assert forall|item: Seq<u8>| !#[trigger] might_contain(filter, item) by {
                        let bits = item_bits(filter)[item];
                        let p = choose|p: int| bits.contains(p);
                        assert(item_bits(filter)[item].contains(p));
                        assert(!has_bit(filter_bytes(filter), p));
                    }
                    law_blank_filter(*self, filter);
                }
                Ok(filter)
            },
            Err(message) => Err(CollectorError::FilterCreation(message)),
        }
    }

    /// A collector for the segment whose column of the collected field is `column`,
    /// if the segment has one.
    pub fn for_segment<C>(&self, column: Option<C>) -> (result: Result<
        BloomFilterSegmentCollector<C>,
        CollectorError,
    >)
        requires
            column is Some ==> self.is_valid(),
        ensures
            match column {
                None => result matches Err(CollectorError::InternalError(message)) && message@
                    == column_not_found(self.field_name@) && message@ == "failed to find column `"@
                    + self.field_name@ + "`"@,
                Some(found) => match result {
                    Ok(collector) => {
                        &&& collector.column == found
                        &&& self.is_blank(collector.bloom)
                        &&& filter_bytes(collector.bloom).len() == HEADER_LEN + self.bitmap_size
                        &&& forall|i: int|
                            HEADER_LEN <= i < filter_bytes(collector.bloom).len() ==> #[trigger] filter_bytes(
                                collector.bloom,
                            )[i] == 0
                        &&& 8 * self.bitmap_size <= 0x1_0000_0000 * self.expected_items
                            ==> is_best_hash_count(
                            8 * self.bitmap_size,
                            self.expected_items as int,
                            hash_count(filter_bytes(collector.bloom)) as int,
                        )
                        &&& hashes_by_header(collector.bloom)
                        &&& collector.is_valid()
                    },
                    Err(error) => error matches CollectorError::FilterCreation(message)
                        && message@ == "Could not generate random seed"@,
                },
            },
    {
        match column {
            None => {
                let message = "failed to find column `".to_owned().concat(
                    self.field_name.as_str(),
                ).concat("`");
                Err(CollectorError::InternalError(message))
            },
            Some(column) => Self::segment_collector(column, self.create_bloom_filter()),
        }
    }

    /// A segment collector with the given column that starts from the given filter.
    pub fn segment_collector<C>(
        column: C,
        filter: Result<Bloom<Vec<u8>>, CollectorError>,
    ) -> (result: Result<BloomFilterSegmentCollector<C>, CollectorError>)
        ensures
            match filter {
                Ok(bloom) => result == Ok::<_, CollectorError>(
                    (BloomFilterSegmentCollector { column, bloom }),
                ),
                Err(error) => result == Err::<BloomFilterSegmentCollector<C>, _>(error),
            },
    {
        match filter {
            Ok(bloom) => Ok(BloomFilterSegmentCollector { column, bloom }),
            Err(error) => Err(error),
        }
    }

    /// Collecting does not need the scores of documents.
    pub fn requires_scoring(&self) -> (needed: bool)
        ensures
            !needed,
    {
        false
    }

    /// Merges the filters of all segments.
    pub fn merge_fruits(&self, segment_fruits: Vec<Bloom<Vec<u8>>>) -> (result: Result<
        Bloom<Vec<u8>>,
        CollectorError,
    >)
        requires
            can_overlay_all(encodings_of(segment_fruits@)),
        ensures
            is_merge_of_segments(result, segment_fruits@),
            segment_fruits@.len() == 0 ==> (result matches Err(
                CollectorError::InternalError(message),
            ) && message@ == "segment_fruits is empty"@),
            segment_fruits@.len() > 0 ==> result is Ok,
            result matches Ok(filter) ==> {
                &&& filter_bytes(filter).len() == filter_bytes(segment_fruits@[0]).len()
                &&& forall|p: int|
                    -8 * HEADER_LEN <= p < bit_count(filter_bytes(filter)) ==> (#[trigger] has_bit(
                        filter_bytes(filter),
                        p,
                    ) <==> exists|i: int|
                        0 <= i < segment_fruits@.len() && HEADER_LEN + p / 8 < filter_bytes(segment_fruits@[i]).len()
                            && #[trigger] has_bit(filter_bytes(segment_fruits@[i]), p))
                &&& forall|i: int, item: Seq<u8>|
                    0 <= i < segment_fruits@.len() && header(filter_bytes(segment_fruits@[i])) == header(
                        filter_bytes(filter),
                    ) && #[trigger] might_contain(segment_fruits@[i], item) ==> might_contain(filter, item)
                &&& is_encoding(filter_bytes(filter))
                &&& hashes_by_header(filter)
            },
    {
        merge_segment_fruits(segment_fruits)
    }

    /// A filter with the bits of both `a` and `b`, and the size of `a`.
    pub fn merge_blooms(a: &Bloom<Vec<u8>>, b: &Bloom<Vec<u8>>) -> (merged: Bloom<Vec<u8>>)
        requires
            can_overlay(filter_bytes(*a), filter_bytes(*b)),
        ensures
            is_merge(merged, *a, *b),
            filter_bytes(merged).len() == filter_bytes(*a).len(),
            forall|i: int|
                0 <= i < filter_bytes(*a).len() ==> #[trigger] filter_bytes(merged)[i] == if i
                    < filter_bytes(*b).len() {
                    filter_bytes(*a)[i] | filter_bytes(*b)[i]
                } else {
                    filter_bytes(*a)[i]
                },
            is_encoding(filter_bytes(*a)),
            is_encoding(filter_bytes(*b)),
            is_encoding(filter_bytes(merged)),
            hashes_by_header(merged),
            header(filter_bytes(merged)) == header(filter_bytes(*a)) ==> absorbs(
                merged,
                filter_bytes(*a),
            ),
            header(filter_bytes(merged)) == header(filter_bytes(*b)) ==> absorbs(
                merged,
                filter_bytes(*b),
            ),
    {
        let mut merged_bytes = bloom_filter::to_bytes(a);
        let other_bytes = bloom_filter::as_slice(b);
        overlay_onto(&mut merged_bytes, other_bytes);
        proof {
            law_overlay_is_encoding(filter_bytes(*a), filter_bytes(*b));
        }
        match bloom_filter::from_bytes(merged_bytes) {
            Ok(merged) => {
                proof {
                    let both = seq![filter_bytes(*a), filter_bytes(*b)];
                    assert(both.drop_last() =~= seq![filter_bytes(*a)]);
                    assert(overlay_all(both.drop_last()) == filter_bytes(*a));
                    assert(overlay_all(both) == filter_bytes(merged));
                    law_overlay_absorbs(merged, both);
                    assert(header(both[0]) == header(filter_bytes(*a)));
                    assert(header(both[1]) == header(filter_bytes(*b)));
                }
                merged
            },
            Err(_) => vstd::pervasive::unreached(),
        }
    }

    /// Whether `b` can be merged into `a`.
    pub fn can_merge(a: &Bloom<Vec<u8>>, b: &Bloom<Vec<u8>>) -> (mergeable: bool)
        ensures
            mergeable == can_overlay(filter_bytes(*a), filter_bytes(*b)),
    {
        let len = announced_len(bloom_filter::as_slice(a));
        len | announced_len(bloom_filter::as_slice(b)) == len
    }

    /// Merges `b` into `a`.
    pub fn merge_assign(a: &mut Bloom<Vec<u8>>, b: &Bloom<Vec<u8>>)
        requires
            can_overlay(filter_bytes(*old(a)), filter_bytes(*b)),
        ensures
            is_merge(*final(a), *old(a), *b),
            filter_bytes(*final(a)).len() == filter_bytes(*old(a)).len(),
            forall|i: int|
                0 <= i < filter_bytes(*old(a)).len() ==> #[trigger] filter_bytes(*final(a))[i] == if i
                    < filter_bytes(*b).len() {
                    filter_bytes(*old(a))[i] | filter_bytes(*b)[i]
                } else {
                    filter_bytes(*old(a))[i]
                },
            hashes_by_header(*final(a)),
            header(filter_bytes(*final(a))) == header(filter_bytes(*old(a))) ==> absorbs(
                *final(a),
                filter_bytes(*old(a)),
            ),
            header(filter_bytes(*final(a))) == header(filter_bytes(*b)) ==> absorbs(
                *final(a),
                filter_bytes(*b),
            ),
    {
        let merged = Self::merge_blooms(a, b);
        *a = merged;
    }

    /// Whether `bytes` is empty or encodes a filter that can be merged into `a`.
    pub fn can_merge_with_bytes(a: &Bloom<Vec<u8>>, bytes: &[u8]) -> (mergeable: bool)
        ensures
            mergeable == (bytes@.len() > 0 ==> is_encoding(bytes@) && is_countable(bytes@)
                && can_overlay(filter_bytes(*a), bytes@)),
    {
        if bytes.len() == 0 {
            return true;
        }
        if !countable(bytes) {
            return false;
        }
        match bloom_filter::from_slice(bytes) {
            Ok(b) => Self::can_merge(a, &b),
            Err(_) => false,
        }
    }

    /// Merges the filter encoded in `bytes` into `a`. An empty `bytes` stands for
    /// no filter.
    pub fn merge_with_bytes(a: &mut Bloom<Vec<u8>>, bytes: Vec<u8>)
        requires
            bytes.len() > 0 ==> is_encoding(bytes@) && is_countable(bytes@) && can_overlay(
                filter_bytes(*old(a)),
                bytes@,
            ),
        ensures
            bytes.len() == 0 ==> *final(a) == *old(a),
            bytes.len() > 0 ==> filter_bytes(*final(a)) == overlay(filter_bytes(*old(a)), bytes@),
            bytes.len() > 0 ==> filter_bytes(*final(a)).len() == filter_bytes(*old(a)).len(),
            forall|i: int|
                bytes.len() > 0 && 0 <= i < filter_bytes(*old(a)).len() ==> #[trigger] filter_bytes(
                    *final(a),
                )[i] == if i < bytes.len() {
                    filter_bytes(*old(a))[i] | bytes@[i]
                } else {
                    filter_bytes(*old(a))[i]
                },
            bytes.len() > 0 ==> hashes_by_header(*final(a)),
            bytes.len() > 0 && header(filter_bytes(*final(a))) == header(filter_bytes(*old(a)))
                ==> absorbs(*final(a), filter_bytes(*old(a))),
            bytes.len() > 0 && header(filter_bytes(*final(a))) == header(bytes@) ==> absorbs(
                *final(a),
                bytes@,
            ),
    {
        if bytes.len() > 0 {
            match bloom_filter::from_bytes(bytes) {
                Ok(b) => Self::merge_assign(a, &b),
                Err(_) => vstd::pervasive::unreached(),
            }
        }
    }

    /// Whether those of `slices` that encode filters can be merged into one of the
    /// size of the first, and none is too long to be read.
    pub fn can_merge_many_bytes(slices: &[&[u8]]) -> (mergeable: bool)
        ensures
            mergeable == ((forall|i: int|
                0 <= i < slices@.len() ==> is_countable((#[trigger] slices@[i])@))
                && can_overlay_all(only_encodings(views_of(slices@)))),
    {
        let ghost all = views_of(slices@);
        let mut first: Option<Bloom<Vec<u8>>> = None;
        let mut i: usize = 0;
        assert(all.take(0) =~= Seq::empty());
        while i < slices.len()
            invariant
                i <= slices.len(),
                all == views_of(slices@),
                forall|j: int| 0 <= j < i ==> is_countable((#[trigger] slices@[j])@),
                can_overlay_all(only_encodings(all.take(i as int))),
                match first {
                    None => only_encodings(all.take(i as int)).len() == 0,
                    Some(filter) => only_encodings(all.take(i as int)).len() > 0 && filter_bytes(
                        filter,
                    ) == only_encodings(all.take(i as int))[0],
                },
            decreases slices.len() - i,
        {
            if !countable(slices[i]) {
                return false;
            }
            let ghost kept = only_encodings(all.take(i as int));
            let ghost kept_next = only_encodings(all.take(i + 1));
            proof {
                assert(all.take(i + 1).drop_last() =~= all.take(i as int));
                assert(all[i as int] == slices@[i as int]@);
                lemma_only_encodings(all, i + 1);
            }
            match bloom_filter::from_slice(slices[i]) {
                Ok(filter) => {
                    assert(kept_next == kept.push(slices@[i as int]@));
                    assert(kept_next[kept.len() as int] == slices@[i as int]@);
                    first = match first {
                        None => {
                            proof {
                                law_same_len_overlays(kept_next);
                            }
                            Some(filter)
                        },
                        Some(first_filter) => {
                            if !Self::can_merge(&first_filter, &filter) {
                                assert(only_encodings(all)[kept.len() as int]
                                    == kept_next[kept.len() as int]);
                                assert(only_encodings(all)[0] == kept_next[0]);
                                assert(!can_overlay_all(only_encodings(all)));
                                return false;
                            }
                            Some(first_filter)
                        },
                    };
                },
                Err(_) => {},
            }
            i = i + 1;
        }
        assert(all.take(i as int) =~= all);
        true
    }

    /// Merges the filters encoded in `bytes` into one of the size of the first,
    /// skipping what is not an encoding; `None` if no encoding is there.
    pub fn merge_many_bytes<'a>(bytes: impl Iterator<Item = &'a [u8]>) -> (merged: Option<
        Bloom<Vec<u8>>,
    >)
        requires
            bytes.obeys_prophetic_iter_laws(),
            bytes.decrease() is Some,
            forall|i: int|
                0 <= i < bytes.remaining().len() ==> is_countable(
                    (#[trigger] bytes.remaining()[i])@,
                ),
            can_overlay_all(only_encodings(views_of(bytes.remaining()))),
        ensures
            merge_of(merged, only_encodings(views_of(bytes.remaining()))),
            merged is None <==> forall|i: int|
                0 <= i < bytes.remaining().len() ==> !is_encoding(
                    (#[trigger] bytes.remaining()[i])@,
                ),
            merged matches Some(filter) ==> {
                &&& exists|first: int|
                    0 <= first < bytes.remaining().len() && is_encoding(
                        (#[trigger] bytes.remaining()[first])@,
                    ) && filter_bytes(filter).len() == bytes.remaining()[first]@.len() && forall|
                        j: int,
                    |
                        0 <= j < first ==> !is_encoding((#[trigger] bytes.remaining()[j])@)
                &&& forall|p: int|
                    -8 * HEADER_LEN <= p < bit_count(filter_bytes(filter)) ==> (#[trigger] has_bit(
                        filter_bytes(filter),
                        p,
                    ) <==> exists|i: int|
                        0 <= i < bytes.remaining().len() && is_encoding(bytes.remaining()[i]@)
                            && HEADER_LEN + p / 8 < bytes.remaining()[i]@.len()
                            && #[trigger] has_bit(bytes.remaining()[i]@, p))
                &&& is_encoding(filter_bytes(filter))
                &&& hashes_by_header(filter)
            },
    {
        let mut rest = bytes;
        let ghost all = views_of(bytes.remaining());
        let mut merged: Option<Bloom<Vec<u8>>> = None;
        let ghost mut done: int = 0;
        assert(all.take(0) =~= Seq::empty());
        loop
            invariant
                rest.obeys_prophetic_iter_laws(),
                rest.decrease() is Some,
                0 <= done <= all.len(),
                views_of(rest.remaining()) == all.skip(done),
                forall|i: int|
                    0 <= i < rest.remaining().len() ==> is_countable(
                        (#[trigger] rest.remaining()[i])@,
                    ),
                merge_of(merged, only_encodings(all.take(done))),
                merged matches Some(filter) ==> is_encoding(filter_bytes(filter))
                    && hashes_by_header(filter),
                can_overlay_all(only_encodings(all)),
            ensures
                merge_of(merged, only_encodings(all)),
                merged matches Some(filter) ==> is_encoding(filter_bytes(filter))
                    && hashes_by_header(filter),
            decreases rest.decrease()->0,
        {
            let ghost before = rest.remaining();
            assert(views_of(before).len() == all.len() - done);
            match rest.next() {
                None => {
                    assert(all.take(done) =~= all);
                    break;
                },
                Some(encoding) => {
                    let ghost kept = only_encodings(all.take(done));
                    let ghost kept_next = only_encodings(all.take(done + 1));
                    proof {
                        assert(before.len() > 0);
                        assert(encoding@ == all[done]) by {
                            assert(views_of(before)[0] == all.skip(done)[0]);
                        }
                        assert forall|i: int| 0 <= i < rest.remaining().len() implies (
                        #[trigger] rest.remaining()[i])@ == all.skip(done + 1)[i] by {
                            assert(views_of(before)[i + 1] == all.skip(done)[i + 1]);
                        }
                        assert(views_of(rest.remaining()) =~= all.skip(done + 1));
                        assert(all.take(done + 1).drop_last() =~= all.take(done));
                        lemma_only_encodings(all, done + 1);
                        lemma_only_encodings(all.take(done + 1), done);
                        lemma_only_encodings(all.take(done), done);
                    }
                    match bloom_filter::from_slice(encoding) {
                        Ok(filter) => {
                            assert(kept_next == kept.push(encoding@));
                            assert(kept_next.drop_last() =~= kept);
                            let next = match merged {
                                None => filter,
                                Some(so_far) => {
                                    proof {
                                        lemma_can_overlay_next(kept, encoding@);
                                    }
                                    Self::merge_blooms(&so_far, &filter)
                                },
                            };
                            proof {
                                law_overlay_absorbs(next, kept_next);
                            }
                            merged = Some(next);
                        },
                        Err(_) => {},
                    }
                    proof {
                        done = done + 1;
                    }
                },
            }
        }
        proof {
            lemma_merge_of_slices(bytes.remaining(), merged);
        }
        merged
    }

    /// Whether filters can be merged into one of the size of the first.
    pub fn can_merge_many(filters: &[Bloom<Vec<u8>>]) -> (mergeable: bool)
        ensures
            mergeable == can_overlay_all(encodings_of(filters@)),
    {
        let ghost encodings = encodings_of(filters@);
        if filters.len() == 0 {
            return true;
        }
        let mut i: usize = 0;
        while i < filters.len()
            invariant
                i <= filters.len(),
                encodings == encodings_of(filters@),
                forall|j: int| 0 <= j < i ==> can_overlay(encodings[0], #[trigger] encodings[j]),
            decreases filters.len() - i,
        {
            if !Self::can_merge(&filters[0], &filters[i]) {
                assert(!can_overlay(encodings[0], encodings[i as int]));
                return false;
            }
            i = i + 1;
        }
        true
    }

    /// Merges filters into one of the size of the first; `None` if there are none.
    pub fn merge_many(filters: &[Bloom<Vec<u8>>]) -> (merged: Option<Bloom<Vec<u8>>>)
        requires
            can_overlay_all(encodings_of(filters@)),
        ensures
            merge_of(merged, encodings_of(filters@)),
            merged is None <==> filters@.len() == 0,
            merged matches Some(filter) ==> {
                &&& filter_bytes(filter).len() == filter_bytes(filters@[0]).len()
                &&& forall|p: int|
                    -8 * HEADER_LEN <= p < bit_count(filter_bytes(filter)) ==> (#[trigger] has_bit(
                        filter_bytes(filter),
                        p,
                    ) <==> exists|i: int|
                        0 <= i < filters@.len() && HEADER_LEN + p / 8 < filter_bytes(filters@[i]).len()
                            && #[trigger] has_bit(filter_bytes(filters@[i]), p))
                &&& forall|i: int, item: Seq<u8>|
                    0 <= i < filters@.len() && header(filter_bytes(filters@[i])) == header(
                        filter_bytes(filter),
                    ) && #[trigger] might_contain(filters@[i], item) ==> might_contain(filter, item)
                &&& is_encoding(filter_bytes(filter))
                &&& hashes_by_header(filter)
            },
    {
        if filters.len() == 0 {
            return None;
        }
        let ghost encodings = encodings_of(filters@);
        let mut acc = bloom_filter::to_bytes(&filters[0]);
        let mut i: usize = 1;
        assert(encodings.take(1) =~= seq![encodings[0]]);
        while i < filters.len()
            invariant
                1 <= i <= filters.len(),
                encodings == encodings_of(filters@),
                acc@ == overlay_all(encodings.take(i as int)),
                acc.len() == encodings[0].len(),
                is_countable(acc@),
                forall|j: int| 0 <= j < i ==> is_encoding(#[trigger] encodings[j]),
            decreases filters.len() - i,
        {
            overlay_onto(&mut acc, bloom_filter::as_slice(&filters[i]));
            assert(encodings.take(i + 1).drop_last() =~= encodings.take(i as int));
            i = i + 1;
        }
        assert(encodings.take(i as int) =~= encodings);
        proof {
            law_overlay_all_is_encoding(encodings);
        }
        match bloom_filter::from_bytes(acc) {
            Ok(filter) => {
                proof {
                    law_overlay_absorbs(filter, encodings);
                    law_merge_is_or(filters@, Some(filter));
                    assert forall|i: int, item: Seq<u8>|
                        0 <= i < filters@.len() && header(filter_bytes(filters@[i])) == header(
                            filter_bytes(filter),
                        ) && #[trigger] might_contain(filters@[i], item) implies might_contain(
                        filter,
                        item,
                    ) by {
                        law_merge_loses_nothing(filters@, filter, i, item);
                    }
                }
                Some(filter)
            },
            Err(_) => vstd::pervasive::unreached(),
        }
    }
}

/// `result` is the merge of the filters of all segments, or the report that there
/// is no segment.
pub open spec fn is_merge_of_segments(
    result: Result<Bloom<Vec<u8>>, CollectorError>,
    segment_fruits: Seq<Bloom<Vec<u8>>>,
) -> bool {
    match result {
        Ok(merged) => merge_of(Some(merged), encodings_of(segment_fruits)),
        Err(CollectorError::InternalError(message)) => segment_fruits.len() == 0 && message@
            == "segment_fruits is empty"@,
        Err(CollectorError::FilterCreation(_)) => false,
    }
}

fn merge_segment_fruits(segment_fruits: Vec<Bloom<Vec<u8>>>) -> (result: Result<
    Bloom<Vec<u8>>,
    CollectorError,
>)
    requires
        can_overlay_all(encodings_of(segment_fruits@)),
    ensures
        is_merge_of_segments(result, segment_fruits@),
        segment_fruits@.len() == 0 ==> (result matches Err(
            CollectorError::InternalError(message),
        ) && message@ == "segment_fruits is empty"@),
        segment_fruits@.len() > 0 ==> result is Ok,
        result matches Ok(filter) ==> {
            &&& filter_bytes(filter).len() == filter_bytes(segment_fruits@[0]).len()
            &&& forall|p: int|
                -8 * HEADER_LEN <= p < bit_count(filter_bytes(filter)) ==> (#[trigger] has_bit(
                    filter_bytes(filter),
                    p,
                ) <==> exists|i: int|
                    0 <= i < segment_fruits@.len() && HEADER_LEN + p / 8 < filter_bytes(segment_fruits@[i]).len()
                        && #[trigger] has_bit(filter_bytes(segment_fruits@[i]), p))
            &&& forall|i: int, item: Seq<u8>|
                0 <= i < segment_fruits@.len() && header(filter_bytes(segment_fruits@[i])) == header(
                    filter_bytes(filter),
                ) && #[trigger] might_contain(segment_fruits@[i], item) ==> might_contain(filter, item)
            &&& is_encoding(filter_bytes(filter))
            &&& hashes_by_header(filter)
        },
{
    match BloomFilterCollector::merge_many(segment_fruits.as_slice()) {
        Some(merged) => Ok(merged),
        None => Err(CollectorError::InternalError("segment_fruits is empty".to_owned())),
    }
}

impl<C> BloomFilterSegmentCollector<C> {
    /// The filter has room for terms.
    pub open spec fn is_valid(&self) -> bool {
        bit_count(filter_bytes(self.bloom)) > 0
    }

    /// The ordinal of the term to collect for a document whose first term has the
    /// ordinal `first`; a document without a term counts as one with the first
    /// term of the dictionary.
    pub fn term_ord(first: Option<u64>) -> (ord: u64)
        ensures
            ord == match first {
                Some(first_ord) => first_ord,
                None => 0,
            },
    {
        match first {
            Some(first_ord) => first_ord,
            None => 0,
        }
    }

    /// Records a term of the segment in the filter.
    pub fn collect(&mut self, term: &Vec<u8>)
        requires
            old(self).is_valid(),
        ensures
            final(self).is_valid(),
            final(self).column == old(self).column,
            header(filter_bytes(final(self).bloom)) == header(filter_bytes(old(self).bloom)),
            filter_bytes(final(self).bloom).len() == filter_bytes(old(self).bloom).len(),
            bitmap_len(filter_bytes(final(self).bloom)) == bitmap_len(
                filter_bytes(old(self).bloom),
            ),
            forall|p: int|
                0 <= p < bit_count(filter_bytes(old(self).bloom)) ==> (#[trigger] has_bit(
                    filter_bytes(final(self).bloom),
                    p,
                ) <==> has_bit(filter_bytes(old(self).bloom), p) || item_bits(
                    old(self).bloom,
                )[term@].contains(p)),
            item_bits(final(self).bloom) == item_bits(old(self).bloom),
            hashes_by_header(final(self).bloom),
            might_contain(final(self).bloom, term@),
            forall|item: Seq<u8>| #[trigger]
                might_contain(old(self).bloom, item) ==> might_contain(final(self).bloom, item),
    {
        bloom_filter::set(&mut self.bloom, term);
        proof {
            let (before, after) = (filter_bytes(old(self).bloom), filter_bytes(self.bloom));
            assert forall|i: int| 0 <= i < HEADER_LEN implies before[i] == after[i] by {
                assert(header(before)[i] == before[i]);
                assert(header(after)[i] == after[i]);
            }
            assert forall|item: Seq<u8>| #[trigger]
                might_contain(old(self).bloom, item) implies might_contain(self.bloom, item) by {
                assert forall|p: int| item_bits(self.bloom)[item].contains(p) implies has_bit(
                    filter_bytes(self.bloom),
                    p,
                ) by {
                    assert(item_bits(old(self).bloom)[item].contains(p));
                }
            }
        }
    }

    /// The filter with the terms of the segment.
    pub fn harvest(self) -> (fruit: Bloom<Vec<u8>>)
        ensures
            fruit == self.bloom,
    {
        self.bloom
    }
}

} // verus!
