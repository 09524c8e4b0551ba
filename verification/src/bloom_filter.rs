//! The Bloom filters of the `bloomfilter` crate, as the rest of the library uses
//! them.
use vstd::prelude::*;

use bloomfilter::Bloom;

use crate::encoding::{
    bit_count, bitmap_len, encoding_error, has_bit, hash_count, header, is_countable, is_encoding,
    HEADER_LEN,
};

verus! {

/// `bloomfilter::Bloom`, a Bloom filter over items of type `T`.
#[verifier::external_type_specification]
#[verifier::external_body]
#[verifier::reject_recursive_types(T)]
pub struct ExBloom<T: ?Sized>(Bloom<T>);

/// The bytes that a filter consists of: its encoding.
pub uninterp spec fn filter_bytes(filter: Bloom<Vec<u8>>) -> Seq<u8>;

/// For each item, the bits of the bitmap that the hash functions of a filter
/// assign to it.
pub uninterp spec fn item_bits(filter: Bloom<Vec<u8>>) -> Map<Seq<u8>, Set<int>>;

/// The filter answers that `item` might have been recorded in it: all the bits
/// assigned to the item are set.
pub open spec fn might_contain(filter: Bloom<Vec<u8>>, item: Seq<u8>) -> bool {
    forall|p: int| item_bits(filter)[item].contains(p) ==> has_bit(filter_bytes(filter), p)
}

/// A filter assigns bits to every item. They are bits of its bitmap, at least one
/// for each item unless the bitmap is empty, and depend on nothing but its header:
/// two filters with the same header assign the same bits.
pub open spec fn hashes_by_header(filter: Bloom<Vec<u8>>) -> bool {
    &&& item_bits(filter).dom() == Set::<Seq<u8>>::full()
    &&& bit_count(filter_bytes(filter)) > 0 ==> forall|item: Seq<u8>|
        exists|p: int| (#[trigger] item_bits(filter)[item]).contains(p)
    &&& forall|item: Seq<u8>, p: int| #[trigger]
        item_bits(filter)[item].contains(p) ==> 0 <= p < bit_count(filter_bytes(filter))
    &&& forall|other: Bloom<Vec<u8>>|
        header(filter_bytes(other)) == header(filter_bytes(filter)) ==> #[trigger] item_bits(other)
            == item_bits(filter)
}

/// `count` is `bits / items * ln 2`, rounded to the nearest integer, and at least 1:
/// the number of hash functions for which a bitmap of that many bits holds that many
/// items best. The logarithm is taken to six digits.
pub open spec fn is_best_hash_count(bits: int, items: int, count: int) -> bool {
    &&& count >= 1
    &&& count == 1 || 2_000_000 * count * items <= 2 * 693_148 * bits + 1_000_000 * items
    &&& 2 * 693_147 * bits <= 2_000_000 * count * items + 1_000_000 * items
}

/// The best number of hash functions is one, or is not more than half a function away from
/// as many as there are bits for an item, times the logarithm of two. If there are not very
/// many bits for an item, no count but the next ones can be best too.
pub proof fn law_best_hash_count(bits: int, items: int, count: int)
    requires
        bits > 0,
        items > 0,
        is_best_hash_count(bits, items, count),
    ensures
        count >= 1,
        count > 1 ==> (2 * count - 1) * items * 1_000_000 <= 2 * 693_148 * bits,
        2 * 693_147 * bits <= (2 * count + 1) * items * 1_000_000,
        bits <= 1_000 * items ==> forall|other: int| #[trigger]
            is_best_hash_count(bits, items, other) ==> -1 <= other - count <= 1,
{
    assert((2 * count - 1) * items * 1_000_000 == 2_000_000 * count * items - 1_000_000 * items)
        by (nonlinear_arith);
    assert((2 * count + 1) * items * 1_000_000 == 2_000_000 * count * items + 1_000_000 * items)
        by (nonlinear_arith);
    if bits <= 1_000 * items {
        assert forall|other: int| #[trigger] is_best_hash_count(bits, items, other) implies -1
            <= other - count <= 1 by {
            assert(other - count <= 1) by (nonlinear_arith)
                requires
                    items > 0,
                    bits <= 1_000 * items,
                    count >= 1,
                    other == 1 || 2_000_000 * other * items <= 2 * 693_148 * bits + 1_000_000
                        * items,
                    2 * 693_147 * bits <= 2_000_000 * count * items + 1_000_000 * items,
            ;
            assert(count - other <= 1) by (nonlinear_arith)
                requires
                    items > 0,
                    bits <= 1_000 * items,
                    other >= 1,
                    count == 1 || 2_000_000 * count * items <= 2 * 693_148 * bits + 1_000_000
                        * items,
                    2 * 693_147 * bits <= 2_000_000 * other * items + 1_000_000 * items,
            ;
        }
    }
}

/// `Bloom::from_bytes`: reads a filter from its encoding.
///
/// It succeeds exactly on encodings and keeps all the bytes. The limit on the
/// length is where counting the bits of the bitmap would overflow.
#[verifier::external_body]
pub(crate) fn from_bytes(bytes: Vec<u8>) -> (result: Result<Bloom<Vec<u8>>, &'static str>)
    requires
        is_countable(bytes@),
    ensures
        match result {
            Ok(filter) => is_encoding(bytes@) && filter_bytes(filter) == bytes@ && hashes_by_header(
                filter,
            ),
            Err(message) => encoding_error(bytes@) == Some(message@),
        },
{
    Bloom::from_bytes(bytes)
}

/// `Bloom::from_slice`: reads a filter from a copy of its encoding.
///
/// It succeeds exactly on encodings and keeps all the bytes. The limit on the
/// length is where counting the bits of the bitmap would overflow.
#[verifier::external_body]
pub(crate) fn from_slice(bytes: &[u8]) -> (result: Result<Bloom<Vec<u8>>, &'static str>)
    requires
        is_countable(bytes@),
    ensures
        match result {
            Ok(filter) => is_encoding(bytes@) && filter_bytes(filter) == bytes@ && hashes_by_header(
                filter,
            ),
            Err(message) => encoding_error(bytes@) == Some(message@),
        },
{
    Bloom::from_slice(bytes)
}

/// `Bloom::to_bytes`: a copy of the encoding of a filter, which is a valid one.
#[verifier::external_body]
pub(crate) fn to_bytes(filter: &Bloom<Vec<u8>>) -> (bytes: Vec<u8>)
    ensures
        bytes@ == filter_bytes(*filter),
        is_encoding(bytes@),
        is_countable(bytes@),
{
    filter.to_bytes()
}

/// `Bloom::as_slice`: the encoding of a filter, which is a valid one.
#[verifier::external_body]
pub(crate) fn as_slice(filter: &Bloom<Vec<u8>>) -> (bytes: &[u8])
    ensures
        bytes@ == filter_bytes(*filter),
        is_encoding(bytes@),
        is_countable(bytes@),
{
    filter.as_slice()
}

/// `Bloom::set`: records an item.
///
/// The bits assigned to the item are set; nothing else changes, in particular
/// not the header. With an empty bitmap there would be no bit to choose.
#[verifier::external_body]
pub(crate) fn set(filter: &mut Bloom<Vec<u8>>, item: &Vec<u8>)
    requires
        bit_count(filter_bytes(*old(filter))) > 0,
    ensures
        filter_bytes(*final(filter)).len() == filter_bytes(*old(filter)).len(),
        header(filter_bytes(*final(filter))) == header(filter_bytes(*old(filter))),
        forall|p: int|
            0 <= p < bit_count(filter_bytes(*old(filter))) ==> (#[trigger] has_bit(
                filter_bytes(*final(filter)),
                p,
            ) <==> has_bit(filter_bytes(*old(filter)), p) || item_bits(
                *old(filter),
            )[item@].contains(p)),
        item_bits(*final(filter)) == item_bits(*old(filter)),
        hashes_by_header(*final(filter)),
{
    filter.set(item)
}

/// `Bloom::new`: an empty filter with a random seed.
///
/// The seed is drawn at random: nothing is said of it. The number of hash functions
/// is computed in floating point; it is given to six digits of the logarithm, as long
/// as it does not reach the end of its type. `Bloom::new` fails only where no random
/// seed can be drawn. The limits on the sizes are where the bits of the bitmap could
/// not be counted or its bytes not be allocated.
#[verifier::external_body]
pub(crate) fn new(bitmap_size: usize, items_count: usize) -> (result: Result<
    Bloom<Vec<u8>>,
    &'static str,
>)
    requires
        bitmap_size > 0,
        items_count > 0,
        bitmap_size * 8 <= u64::MAX,
        bitmap_size + HEADER_LEN <= isize::MAX,
    ensures
        match result {
            Ok(filter) => {
                &&& is_encoding(filter_bytes(filter))
                &&& bitmap_len(filter_bytes(filter)) == bitmap_size
                &&& forall|p: int|
                    0 <= p < 8 * bitmap_size ==> !has_bit(filter_bytes(filter), p)
                &&& 8 * bitmap_size <= 0x1_0000_0000 * items_count ==> is_best_hash_count(
                    8 * bitmap_size,
                    items_count as int,
                    hash_count(filter_bytes(filter)) as int,
                )
                &&& hashes_by_header(filter)
            },
            Err(message) => message@ == "Could not generate random seed"@,
        },
{
    Bloom::new(bitmap_size, items_count)
}

} // verus!
