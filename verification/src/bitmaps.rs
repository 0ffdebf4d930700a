use crate::IsoMessageMap;
use vstd::prelude::*;

verus! {

broadcast use vstd::std_specs::hash::group_hash_axioms;

/// The most significant bit of a bitmap word. Bit positions are counted from
/// it, so position `p` of the word at index `i` stands for data element
/// `1 + p + 64 * i`.
pub const STARTING_BIT: u64 = 0x8000_0000_0000_0000u64;

/// Whether bit `position` (0 is the most significant bit) of `map` is set.
pub open spec fn bit_is_set(map: u64, position: int) -> bool {
    map & (STARTING_BIT >> (position as u64)) != 0
}

/// The value of a big-endian byte string.
pub open spec fn be_value(bytes: Seq<u8>) -> nat
    decreases bytes.len(),
{
    if bytes.len() == 0 {
        0
    } else {
        (be_value(bytes.drop_last()) * 256 + bytes.last()) as nat
    }
}

/// The `n`-byte big-endian encoding of `v` (of `v` modulo `256^n`).
pub open spec fn be_bytes(v: nat, n: nat) -> Seq<u8>
    decreases n,
{
    if n == 0 {
        Seq::empty()
    } else {
        seq![((v / pow256((n - 1) as nat)) % 256) as u8] + be_bytes(
            v % pow256((n - 1) as nat),
            (n - 1) as nat,
        )
    }
}

/// The eight big-endian bytes of a bitmap word.
pub open spec fn word_bytes(v: u64) -> Seq<u8> {
    be_bytes(v as nat, 8)
}

/// The bitmap word held big-endian in `bytes[start..start + 8]`.
pub open spec fn word_at(bytes: Seq<u8>, start: int) -> u64 {
    be_value(bytes.subrange(start, start + 8)) as u64
}

/// The bitmap words that a buffer starts with: the primary one, and each
/// further one that the word before it announces, at most three in all.
pub open spec fn words_in_buffer(bytes: Seq<u8>) -> Seq<u64> {
    let primary = word_at(bytes, 0);
    if !bit_is_set(primary, 0) {
        seq![primary]
    } else {
        let secondary = word_at(bytes, 8);
        if !bit_is_set(secondary, 0) {
            seq![primary, secondary]
        } else {
            seq![primary, secondary, word_at(bytes, 16)]
        }
    }
}

/// The number of bytes that the bitmaps at the start of `bytes` take.
pub open spec fn words_length_in_buffer(bytes: Seq<u8>) -> int {
    if !bit_is_set(word_at(bytes, 0), 0) {
        8
    } else if !bit_is_set(word_at(bytes, 8), 0) {
        16
    } else {
        24
    }
}

/// The buffer is long enough for every bitmap that it announces.
pub open spec fn holds_announced_words(bytes: Seq<u8>) -> bool {
    &&& bytes.len() >= 8
    &&& bytes.len() >= words_length_in_buffer(bytes)
}

/// The bytes of a sequence of bitmap words, each big-endian, in order.
pub open spec fn words_bytes(maps: Seq<u64>) -> Seq<u8>
    decreases maps.len(),
{
    if maps.len() == 0 {
        Seq::empty()
    } else {
        words_bytes(maps.drop_last()) + word_bytes(maps.last())
    }
}

/// The data element number that bit `position` of word `index` stands for,
/// as the 8-bit arithmetic of `items` computes it.
pub open spec fn key_of(index: int, position: int) -> int {
    1 + position + 64 * (index % 256)
}

/// Every set bit stands for a data element number that fits in a `u8`.
pub open spec fn all_items_fit(maps: Seq<u64>) -> bool {
    forall|i: int, p: int|
        0 <= i < maps.len() && 0 <= p < 64 && #[trigger] bit_is_set(maps[i], p) ==> key_of(i, p)
            <= 255
}

/// The data elements that the first `n` bits (word by word, most
/// significant bit first) announce, in that order.
pub open spec fn items_upto(maps: Seq<u64>, n: nat) -> Seq<u8>
    decreases n,
{
    if n == 0 {
        Seq::empty()
    } else {
        let g = n - 1;
        items_upto(maps, (n - 1) as nat) + if bit_is_set(maps[g / 64], g % 64) {
            seq![key_of(g / 64, g % 64) as u8]
        } else {
            Seq::empty()
        }
    }
}

/// The data elements that the bitmaps announce, in increasing order.
pub open spec fn items_of(maps: Seq<u64>) -> Seq<u8> {
    items_upto(maps, (64 * maps.len()) as nat)
}

/// The keys of a message map that fall in word `group` (0, 1 or 2).
pub open spec fn has_group_key(keys: Set<u8>, group: int) -> bool {
    exists|k: u8| #[trigger] keys.contains(k) && 64 * group < k <= 64 * group + 64
}

/// Whether bit `position` of word `group` is set in the bitmaps built from
/// `keys`: the data element is present, or the bit is the first of a word
/// whose next word holds a data element.
pub open spec fn group_bit(keys: Set<u8>, group: int, position: int) -> bool {
    ||| keys.contains((64 * group + position + 1) as u8)
    ||| (position == 0 && group < 2 && has_group_key(keys, group + 1))
}

/// Whether word `group` is kept (is not zero) in the bitmaps built from `keys`.
pub open spec fn group_kept(keys: Set<u8>, group: int) -> bool {
    has_group_key(keys, group) || (group < 2 && has_group_key(keys, group + 1))
}

/// The word groups kept in the bitmaps built from `keys`, in order.
pub open spec fn kept_groups(keys: Set<u8>) -> Seq<int> {
    (if group_kept(keys, 0) { seq![0int] } else { Seq::empty() }) + (if group_kept(keys, 1) {
        seq![1int]
    } else {
        Seq::empty()
    }) + (if group_kept(keys, 2) { seq![2int] } else { Seq::empty() })
}

/// The word whose bit `p` is set for `p < n` exactly where `group_bit` says.
pub open spec fn or_word(keys: Set<u8>, group: int, n: nat) -> u64
    decreases n,
{
    if n == 0 {
        0
    } else {
        let w = or_word(keys, group, (n - 1) as nat);
        if group_bit(keys, group, n - 1) {
            w | (STARTING_BIT >> ((n - 1) as u64))
        } else {
            w
        }
    }
}

/// Word `group` of the bitmaps built from `keys`: the bits that
/// `group_bit` sets, or-ed together.
pub open spec fn group_word(keys: Set<u8>, group: int) -> u64 {
    or_word(keys, group, 64)
}

/// The bitmaps built from the data elements `keys`: the words of the kept
/// groups, in order.
pub open spec fn built_words(keys: Set<u8>) -> Seq<u64> {
    kept_groups(keys).map_values(|g: int| group_word(keys, g))
}

proof fn lemma_or_word_bits(keys: Set<u8>, group: int, n: nat, p: int)
    requires
        n <= 64,
        0 <= p < 64,
    ensures
        bit_is_set(or_word(keys, group, n), p) == (p < n && group_bit(keys, group, p)),
    decreases n,
{
    if n == 0 {
        lemma_zero_has_no_bits(p as u64);
    } else {
        lemma_or_word_bits(keys, group, (n - 1) as nat, p);
        if group_bit(keys, group, n - 1) {
            lemma_set_bit(or_word(keys, group, (n - 1) as nat), (n - 1) as u64, p as u64);
        }
    }
}

/// The bits of word `group` of the bitmaps built from `keys`.
pub proof fn lemma_group_word_bits(keys: Set<u8>, group: int)
    ensures
        forall|p: int| 0 <= p < 64 ==> #[trigger] bit_is_set(group_word(keys, group), p) == group_bit(keys, group, p),
{
    assert forall|p: int| 0 <= p < 64 implies #[trigger] bit_is_set(group_word(keys, group), p) == group_bit(
        keys,
        group,
        p,
    ) by {
        lemma_or_word_bits(keys, group, 64, p);
    };
}

/// Two words with the same bits are equal.
pub proof fn lemma_same_bits(a: u64, b: u64)
    requires
        forall|p: int| 0 <= p < 64 ==> #[trigger] bit_is_set(a, p) == bit_is_set(b, p),
    ensures
        a == b,
{
    assert(bit_is_set(a, 0) == bit_is_set(b, 0));
    assert(bit_is_set(a, 1) == bit_is_set(b, 1));
    assert(bit_is_set(a, 2) == bit_is_set(b, 2));
    assert(bit_is_set(a, 3) == bit_is_set(b, 3));
    assert(bit_is_set(a, 4) == bit_is_set(b, 4));
    assert(bit_is_set(a, 5) == bit_is_set(b, 5));
    assert(bit_is_set(a, 6) == bit_is_set(b, 6));
    assert(bit_is_set(a, 7) == bit_is_set(b, 7));
    assert(bit_is_set(a, 8) == bit_is_set(b, 8));
    assert(bit_is_set(a, 9) == bit_is_set(b, 9));
    assert(bit_is_set(a, 10) == bit_is_set(b, 10));
    assert(bit_is_set(a, 11) == bit_is_set(b, 11));
    assert(bit_is_set(a, 12) == bit_is_set(b, 12));
    assert(bit_is_set(a, 13) == bit_is_set(b, 13));
    assert(bit_is_set(a, 14) == bit_is_set(b, 14));
    assert(bit_is_set(a, 15) == bit_is_set(b, 15));
    assert(bit_is_set(a, 16) == bit_is_set(b, 16));
    assert(bit_is_set(a, 17) == bit_is_set(b, 17));
    assert(bit_is_set(a, 18) == bit_is_set(b, 18));
    assert(bit_is_set(a, 19) == bit_is_set(b, 19));
    assert(bit_is_set(a, 20) == bit_is_set(b, 20));
    assert(bit_is_set(a, 21) == bit_is_set(b, 21));
    assert(bit_is_set(a, 22) == bit_is_set(b, 22));
    assert(bit_is_set(a, 23) == bit_is_set(b, 23));
    assert(bit_is_set(a, 24) == bit_is_set(b, 24));
    assert(bit_is_set(a, 25) == bit_is_set(b, 25));
    assert(bit_is_set(a, 26) == bit_is_set(b, 26));
    assert(bit_is_set(a, 27) == bit_is_set(b, 27));
    assert(bit_is_set(a, 28) == bit_is_set(b, 28));
    assert(bit_is_set(a, 29) == bit_is_set(b, 29));
    assert(bit_is_set(a, 30) == bit_is_set(b, 30));
    assert(bit_is_set(a, 31) == bit_is_set(b, 31));
    assert(bit_is_set(a, 32) == bit_is_set(b, 32));
    assert(bit_is_set(a, 33) == bit_is_set(b, 33));
    assert(bit_is_set(a, 34) == bit_is_set(b, 34));
    assert(bit_is_set(a, 35) == bit_is_set(b, 35));
    assert(bit_is_set(a, 36) == bit_is_set(b, 36));
    assert(bit_is_set(a, 37) == bit_is_set(b, 37));
    assert(bit_is_set(a, 38) == bit_is_set(b, 38));
    assert(bit_is_set(a, 39) == bit_is_set(b, 39));
    assert(bit_is_set(a, 40) == bit_is_set(b, 40));
    assert(bit_is_set(a, 41) == bit_is_set(b, 41));
    assert(bit_is_set(a, 42) == bit_is_set(b, 42));
    assert(bit_is_set(a, 43) == bit_is_set(b, 43));
    assert(bit_is_set(a, 44) == bit_is_set(b, 44));
    assert(bit_is_set(a, 45) == bit_is_set(b, 45));
    assert(bit_is_set(a, 46) == bit_is_set(b, 46));
    assert(bit_is_set(a, 47) == bit_is_set(b, 47));
    assert(bit_is_set(a, 48) == bit_is_set(b, 48));
    assert(bit_is_set(a, 49) == bit_is_set(b, 49));
    assert(bit_is_set(a, 50) == bit_is_set(b, 50));
    assert(bit_is_set(a, 51) == bit_is_set(b, 51));
    assert(bit_is_set(a, 52) == bit_is_set(b, 52));
    assert(bit_is_set(a, 53) == bit_is_set(b, 53));
    assert(bit_is_set(a, 54) == bit_is_set(b, 54));
    assert(bit_is_set(a, 55) == bit_is_set(b, 55));
    assert(bit_is_set(a, 56) == bit_is_set(b, 56));
    assert(bit_is_set(a, 57) == bit_is_set(b, 57));
    assert(bit_is_set(a, 58) == bit_is_set(b, 58));
    assert(bit_is_set(a, 59) == bit_is_set(b, 59));
    assert(bit_is_set(a, 60) == bit_is_set(b, 60));
    assert(bit_is_set(a, 61) == bit_is_set(b, 61));
    assert(bit_is_set(a, 62) == bit_is_set(b, 62));
    assert(bit_is_set(a, 63) == bit_is_set(b, 63));
    assert(a == b) by (bit_vector)
        requires
            (a & (0x8000_0000_0000_0000u64 >> 0u64) != 0) == (b & (0x8000_0000_0000_0000u64 >> 0u64) != 0),
            (a & (0x8000_0000_0000_0000u64 >> 1u64) != 0) == (b & (0x8000_0000_0000_0000u64 >> 1u64) != 0),
            (a & (0x8000_0000_0000_0000u64 >> 2u64) != 0) == (b & (0x8000_0000_0000_0000u64 >> 2u64) != 0),
            (a & (0x8000_0000_0000_0000u64 >> 3u64) != 0) == (b & (0x8000_0000_0000_0000u64 >> 3u64) != 0),
            (a & (0x8000_0000_0000_0000u64 >> 4u64) != 0) == (b & (0x8000_0000_0000_0000u64 >> 4u64) != 0),
            (a & (0x8000_0000_0000_0000u64 >> 5u64) != 0) == (b & (0x8000_0000_0000_0000u64 >> 5u64) != 0),
            (a & (0x8000_0000_0000_0000u64 >> 6u64) != 0) == (b & (0x8000_0000_0000_0000u64 >> 6u64) != 0),
            (a & (0x8000_0000_0000_0000u64 >> 7u64) != 0) == (b & (0x8000_0000_0000_0000u64 >> 7u64) != 0),
            (a & (0x8000_0000_0000_0000u64 >> 8u64) != 0) == (b & (0x8000_0000_0000_0000u64 >> 8u64) != 0),
            (a & (0x8000_0000_0000_0000u64 >> 9u64) != 0) == (b & (0x8000_0000_0000_0000u64 >> 9u64) != 0),
            (a & (0x8000_0000_0000_0000u64 >> 10u64) != 0) == (b & (0x8000_0000_0000_0000u64 >> 10u64) != 0),
            (a & (0x8000_0000_0000_0000u64 >> 11u64) != 0) == (b & (0x8000_0000_0000_0000u64 >> 11u64) != 0),
            (a & (0x8000_0000_0000_0000u64 >> 12u64) != 0) == (b & (0x8000_0000_0000_0000u64 >> 12u64) != 0),
            (a & (0x8000_0000_0000_0000u64 >> 13u64) != 0) == (b & (0x8000_0000_0000_0000u64 >> 13u64) != 0),
            (a & (0x8000_0000_0000_0000u64 >> 14u64) != 0) == (b & (0x8000_0000_0000_0000u64 >> 14u64) != 0),
            (a & (0x8000_0000_0000_0000u64 >> 15u64) != 0) == (b & (0x8000_0000_0000_0000u64 >> 15u64) != 0),
            (a & (0x8000_0000_0000_0000u64 >> 16u64) != 0) == (b & (0x8000_0000_0000_0000u64 >> 16u64) != 0),
            (a & (0x8000_0000_0000_0000u64 >> 17u64) != 0) == (b & (0x8000_0000_0000_0000u64 >> 17u64) != 0),
            (a & (0x8000_0000_0000_0000u64 >> 18u64) != 0) == (b & (0x8000_0000_0000_0000u64 >> 18u64) != 0),
            (a & (0x8000_0000_0000_0000u64 >> 19u64) != 0) == (b & (0x8000_0000_0000_0000u64 >> 19u64) != 0),
            (a & (0x8000_0000_0000_0000u64 >> 20u64) != 0) == (b & (0x8000_0000_0000_0000u64 >> 20u64) != 0),
            (a & (0x8000_0000_0000_0000u64 >> 21u64) != 0) == (b & (0x8000_0000_0000_0000u64 >> 21u64) != 0),
            (a & (0x8000_0000_0000_0000u64 >> 22u64) != 0) == (b & (0x8000_0000_0000_0000u64 >> 22u64) != 0),
            (a & (0x8000_0000_0000_0000u64 >> 23u64) != 0) == (b & (0x8000_0000_0000_0000u64 >> 23u64) != 0),
            (a & (0x8000_0000_0000_0000u64 >> 24u64) != 0) == (b & (0x8000_0000_0000_0000u64 >> 24u64) != 0),
            (a & (0x8000_0000_0000_0000u64 >> 25u64) != 0) == (b & (0x8000_0000_0000_0000u64 >> 25u64) != 0),
            (a & (0x8000_0000_0000_0000u64 >> 26u64) != 0) == (b & (0x8000_0000_0000_0000u64 >> 26u64) != 0),
            (a & (0x8000_0000_0000_0000u64 >> 27u64) != 0) == (b & (0x8000_0000_0000_0000u64 >> 27u64) != 0),
            (a & (0x8000_0000_0000_0000u64 >> 28u64) != 0) == (b & (0x8000_0000_0000_0000u64 >> 28u64) != 0),
            (a & (0x8000_0000_0000_0000u64 >> 29u64) != 0) == (b & (0x8000_0000_0000_0000u64 >> 29u64) != 0),
            (a & (0x8000_0000_0000_0000u64 >> 30u64) != 0) == (b & (0x8000_0000_0000_0000u64 >> 30u64) != 0),
            (a & (0x8000_0000_0000_0000u64 >> 31u64) != 0) == (b & (0x8000_0000_0000_0000u64 >> 31u64) != 0),
            (a & (0x8000_0000_0000_0000u64 >> 32u64) != 0) == (b & (0x8000_0000_0000_0000u64 >> 32u64) != 0),
            (a & (0x8000_0000_0000_0000u64 >> 33u64) != 0) == (b & (0x8000_0000_0000_0000u64 >> 33u64) != 0),
            (a & (0x8000_0000_0000_0000u64 >> 34u64) != 0) == (b & (0x8000_0000_0000_0000u64 >> 34u64) != 0),
            (a & (0x8000_0000_0000_0000u64 >> 35u64) != 0) == (b & (0x8000_0000_0000_0000u64 >> 35u64) != 0),
            (a & (0x8000_0000_0000_0000u64 >> 36u64) != 0) == (b & (0x8000_0000_0000_0000u64 >> 36u64) != 0),
            (a & (0x8000_0000_0000_0000u64 >> 37u64) != 0) == (b & (0x8000_0000_0000_0000u64 >> 37u64) != 0),
            (a & (0x8000_0000_0000_0000u64 >> 38u64) != 0) == (b & (0x8000_0000_0000_0000u64 >> 38u64) != 0),
            (a & (0x8000_0000_0000_0000u64 >> 39u64) != 0) == (b & (0x8000_0000_0000_0000u64 >> 39u64) != 0),
            (a & (0x8000_0000_0000_0000u64 >> 40u64) != 0) == (b & (0x8000_0000_0000_0000u64 >> 40u64) != 0),
            (a & (0x8000_0000_0000_0000u64 >> 41u64) != 0) == (b & (0x8000_0000_0000_0000u64 >> 41u64) != 0),
            (a & (0x8000_0000_0000_0000u64 >> 42u64) != 0) == (b & (0x8000_0000_0000_0000u64 >> 42u64) != 0),
            (a & (0x8000_0000_0000_0000u64 >> 43u64) != 0) == (b & (0x8000_0000_0000_0000u64 >> 43u64) != 0),
            (a & (0x8000_0000_0000_0000u64 >> 44u64) != 0) == (b & (0x8000_0000_0000_0000u64 >> 44u64) != 0),
            (a & (0x8000_0000_0000_0000u64 >> 45u64) != 0) == (b & (0x8000_0000_0000_0000u64 >> 45u64) != 0),
            (a & (0x8000_0000_0000_0000u64 >> 46u64) != 0) == (b & (0x8000_0000_0000_0000u64 >> 46u64) != 0),
            (a & (0x8000_0000_0000_0000u64 >> 47u64) != 0) == (b & (0x8000_0000_0000_0000u64 >> 47u64) != 0),
            (a & (0x8000_0000_0000_0000u64 >> 48u64) != 0) == (b & (0x8000_0000_0000_0000u64 >> 48u64) != 0),
            (a & (0x8000_0000_0000_0000u64 >> 49u64) != 0) == (b & (0x8000_0000_0000_0000u64 >> 49u64) != 0),
            (a & (0x8000_0000_0000_0000u64 >> 50u64) != 0) == (b & (0x8000_0000_0000_0000u64 >> 50u64) != 0),
            (a & (0x8000_0000_0000_0000u64 >> 51u64) != 0) == (b & (0x8000_0000_0000_0000u64 >> 51u64) != 0),
            (a & (0x8000_0000_0000_0000u64 >> 52u64) != 0) == (b & (0x8000_0000_0000_0000u64 >> 52u64) != 0),
            (a & (0x8000_0000_0000_0000u64 >> 53u64) != 0) == (b & (0x8000_0000_0000_0000u64 >> 53u64) != 0),
            (a & (0x8000_0000_0000_0000u64 >> 54u64) != 0) == (b & (0x8000_0000_0000_0000u64 >> 54u64) != 0),
            (a & (0x8000_0000_0000_0000u64 >> 55u64) != 0) == (b & (0x8000_0000_0000_0000u64 >> 55u64) != 0),
            (a & (0x8000_0000_0000_0000u64 >> 56u64) != 0) == (b & (0x8000_0000_0000_0000u64 >> 56u64) != 0),
            (a & (0x8000_0000_0000_0000u64 >> 57u64) != 0) == (b & (0x8000_0000_0000_0000u64 >> 57u64) != 0),
            (a & (0x8000_0000_0000_0000u64 >> 58u64) != 0) == (b & (0x8000_0000_0000_0000u64 >> 58u64) != 0),
            (a & (0x8000_0000_0000_0000u64 >> 59u64) != 0) == (b & (0x8000_0000_0000_0000u64 >> 59u64) != 0),
            (a & (0x8000_0000_0000_0000u64 >> 60u64) != 0) == (b & (0x8000_0000_0000_0000u64 >> 60u64) != 0),
            (a & (0x8000_0000_0000_0000u64 >> 61u64) != 0) == (b & (0x8000_0000_0000_0000u64 >> 61u64) != 0),
            (a & (0x8000_0000_0000_0000u64 >> 62u64) != 0) == (b & (0x8000_0000_0000_0000u64 >> 62u64) != 0),
            (a & (0x8000_0000_0000_0000u64 >> 63u64) != 0) == (b & (0x8000_0000_0000_0000u64 >> 63u64) != 0),
    ;
}

/// At most three words announce only data elements that fit in a `u8`.
pub proof fn lemma_short_words_fit(maps: Seq<u64>)
    requires
        maps.len() <= 3,
    ensures
        all_items_fit(maps),
{
    assert forall|i: int, p: int|
        0 <= i < maps.len() && 0 <= p < 64 && #[trigger] bit_is_set(maps[i], p) implies key_of(i, p)
        <= 255 by {
        assert(i % 256 == i);
    };
}

proof fn lemma_set_bit(m: u64, q: u64, p: u64)
    requires
        q < 64,
        p < 64,
    ensures
        ((m | (STARTING_BIT >> q)) & (STARTING_BIT >> p) != 0) == ((m & (STARTING_BIT >> p) != 0)
            || p == q),
        (m | (STARTING_BIT >> q)) != 0,
{
    assert(((m | (0x8000_0000_0000_0000u64 >> q)) & (0x8000_0000_0000_0000u64 >> p) != 0) == ((m
        & (0x8000_0000_0000_0000u64 >> p) != 0) || p == q)) by (bit_vector)
        requires
            q < 64,
            p < 64,
    ;
    assert((m | (0x8000_0000_0000_0000u64 >> q)) != 0) by (bit_vector)
        requires
            q < 64,
    ;
}

proof fn lemma_zero_has_no_bits(p: u64)
    requires
        p < 64,
    ensures
        0u64 & (STARTING_BIT >> p) == 0,
{
    assert(0u64 & (0x8000_0000_0000_0000u64 >> p) == 0) by (bit_vector);
}

proof fn lemma_div_mod_64(i: int, p: int)
    requires
        0 <= p < 64,
        0 <= i,
    ensures
        (64 * i + p) / 64 == i,
        (64 * i + p) % 64 == p,
{
    assert((64 * i + p) / 64 == i && (64 * i + p) % 64 == p) by (nonlinear_arith)
        requires
            0 <= p < 64,
            0 <= i,
    ;
}

impl View for Bitmaps {
    type V = Seq<u64>;

    open spec fn view(&self) -> Seq<u64> {
        self.maps@
    }
}

/// The bitmaps of a message: a primary word, then at most a secondary and a
/// tertiary one.
pub struct Bitmaps {
    pub maps: Vec<u64>,
}

impl Bitmaps {
    /// Reads the bitmaps at the start of `buffer`: the primary word, then the
    /// secondary one if the primary announces it, then the tertiary one if the
    /// secondary announces it.
    pub fn from_buffer(buffer: &[u8]) -> (r: Self)
        requires
            holds_announced_words(buffer@),
        ensures
            r@ == words_in_buffer(buffer@),
    {
        let mut bitmaps: Vec<u64> = Vec::new();
        let primary_bitmap = read_word(buffer, 0);
        bitmaps.push(primary_bitmap);
        if Self::has_next_bitmap(primary_bitmap) {
            let secondary_bitmap = read_word(buffer, 8);
            bitmaps.push(secondary_bitmap);
            if Self::has_next_bitmap(secondary_bitmap) {
                let tertiary_bitmap = read_word(buffer, 16);
                bitmaps.push(tertiary_bitmap);
            }
        }
        Bitmaps { maps: bitmaps }
    }

    /// Reads the bitmaps at the start of `buffer` as `from_buffer` does, or
    /// gives `None` where that panics (the buffer is too short for a bitmap
    /// that it announces).
    pub fn try_from_buffer(buffer: &[u8]) -> (r: Option<Self>)
        ensures
            r is Some <==> holds_announced_words(buffer@),
            r matches Some(b) ==> b@ == words_in_buffer(buffer@),
    {
        let len = buffer.len();
        if len < 8 {
            return None;
        }
        if Self::has_next_bitmap(read_word(buffer, 0)) {
            if len < 16 {
                return None;
            }
            if Self::has_next_bitmap(read_word(buffer, 8)) && len < 24 {
                return None;
            }
        }
        Some(Self::from_buffer(buffer))
    }

    /// The bytes of the bitmaps: each word big-endian, in order.
    pub fn to_buffer(&self) -> (r: Vec<u8>)
        ensures
            r@ == words_bytes(self@),
    {
        let mut out: Vec<u8> = Vec::new();
        let mut i: usize = 0;
        while i < self.maps.len()
            invariant
                i <= self.maps@.len(),
                out@ == words_bytes(self.maps@.subrange(0, i as int)),
            decreases self.maps@.len() - i,
        {
            let bytes = write_word(self.maps[i]);
            proof {
                let s = self.maps@.subrange(0, i + 1);
                assert(s.drop_last() == self.maps@.subrange(0, i as int));
            }
            let mut j: usize = 0;
            let ghost before = out@;
            while j < 8
                invariant
                    j <= 8,
                    bytes@.len() == 8,
                    out@ == before + bytes@.subrange(0, j as int),
                decreases 8 - j,
            {
                out.push(bytes[j]);
                j = j + 1;
                assert(out@ == before + bytes@.subrange(0, j as int));
            }
            assert(bytes@.subrange(0, 8) == bytes@);
            i = i + 1;
        }
        assert(self.maps@.subrange(0, self.maps@.len() as int) == self.maps@);
        out
    }

    /// The data elements that the bitmaps announce, in increasing order: for
    /// each set bit, at position `p` (0 is the most significant bit) of the
    /// word at index `i`, the number `1 + p + 64 * i`.
    pub fn items(&self) -> (r: Vec<u8>)
        requires
            all_items_fit(self@),
        ensures
            r@ == items_of(self@),
    {
        let mut out: Vec<u8> = Vec::new();
        let mut index: usize = 0;
        while index < self.maps.len()
            invariant
                index <= self@.len(),
                all_items_fit(self@),
                out@ == items_upto(self@, (64 * index) as nat),
            decreases self@.len() - index,
        {
            let map = self.maps[index];
            let mut position: u8 = 0;
            while position < 64
                invariant
                    position <= 64,
                    index < self@.len(),
                    map == self@[index as int],
                    all_items_fit(self@),
                    out@ == items_upto(self@, (64 * index + position) as nat),
                decreases 64 - position,
            {
                proof {
                    lemma_div_mod_64(index as int, position as int);
                }
                if map & (STARTING_BIT >> position) != 0 {
                    assert(bit_is_set(self@[index as int], position as int));
                    let word: u8 = (index % 256) as u8;
                    out.push(1 + position + 64u8 * word);
                }
                position = position + 1;
            }
            index = index + 1;
        }
        out
    }

    /// The data elements that the bitmaps announce, as `items` lists them, or
    /// `None` where `items` overflows a data element number (a set bit of the
    /// fourth or a later word, counted modulo 256, stands for a number above
    /// 255).
    pub fn try_items(&self) -> (r: Option<Vec<u8>>)
        ensures
            r is Some <==> all_items_fit(self@),
            r matches Some(v) ==> v@ == items_of(self@),
    {
        let mut i: usize = 0;
        while i < self.maps.len()
            invariant
                i <= self@.len(),
                forall|j: int, p: int|
                    0 <= j < i && 0 <= p < 64 && #[trigger] bit_is_set(self@[j], p) ==> key_of(j, p)
                        <= 255,
            decreases self@.len() - i,
        {
            let q = i % 256;
            let w = self.maps[i];
            if q >= 4 && w != 0 {
                proof {
                    if forall|p: int| 0 <= p < 64 ==> !#[trigger] bit_is_set(w, p) {
                        assert forall|p: int| 0 <= p < 64 implies #[trigger] bit_is_set(w, p)
                            == bit_is_set(0u64, p) by {
                            lemma_zero_has_no_bits(p as u64);
                        };
                        lemma_same_bits(w, 0u64);
                    }
                    let p = choose|p: int| 0 <= p < 64 && #[trigger] bit_is_set(w, p);
                    assert(key_of(i as int, p) > 255);
                }
                return None;
            }
            assert(STARTING_BIT >> 63u64 == 1u64) by (bit_vector);
            if q == 3 && w & 1 != 0 {
                proof {
                    assert(bit_is_set(w, 63));
                    assert(key_of(i as int, 63) > 255);
                }
                return None;
            }
            proof {
                assert forall|p: int| 0 <= p < 64 && #[trigger] bit_is_set(self@[i as int], p) implies key_of(
                    i as int,
                    p,
                ) <= 255 by {
                    if q >= 4 {
                        lemma_zero_has_no_bits(p as u64);
                    }
                };
            }
            i = i + 1;
        }
        Some(self.items())
    }

    /// Whether a bitmap announces a further bitmap (its first bit is set).
    pub fn has_next_bitmap(bitmap: u64) -> (r: bool)
        ensures
            r == bit_is_set(bitmap, 0),
    {
        assert(STARTING_BIT >> 0u64 == 1u64 << 63u64) by (bit_vector);
        bitmap & (1u64 << 63u64) != 0
    }

    /// The number of bytes the bitmaps take in a buffer, or `None` where
    /// that number overflows a `usize` (where `byte_length` panics).
    pub fn checked_byte_length(&self) -> (r: Option<usize>)
        ensures
            r is Some <==> self@.len() * 8 <= usize::MAX,
            r matches Some(n) ==> n == self@.len() * 8,
    {
        self.maps.len().checked_mul(8)
    }

    /// The number of bytes the bitmaps take in a buffer.
    pub fn byte_length(&self) -> (r: usize)
        requires
            self@.len() * 8 <= usize::MAX,
        ensures
            r == self@.len() * 8,
    {
        self.maps.len() * 8
    }
}

impl Bitmaps {
    /// Builds the bitmaps of a message map: a bit for each data element from
    /// 1 to 192 that the map holds (key 0, the MTI, has none), the first bit
    /// of a word set when the next word is not zero, and the words that stay
    /// zero left out.
    pub fn from_iso_message_map(map: &IsoMessageMap) -> (r: Self)
        ensures
            r@.len() == kept_groups(map@.dom()).len(),
            forall|j: int, p: int|
                0 <= j < r@.len() && 0 <= p < 64 ==> #[trigger] bit_is_set(r@[j], p) == group_bit(
                    map@.dom(),
                    kept_groups(map@.dom())[j],
                    p,
                ),
            r@ == built_words(map@.dom()),
            r@.len() <= 3,
    {
        let ghost keys = map@.dom();
        let mut bitmaps: Vec<u64> = vec![0u64, 0u64, 0u64];
        let ghost mut found: Seq<bool> = seq![false, false, false];
        let mut key: u8 = 1;
        assert forall|i: int, p: int| 0 <= i < 3 && 0 <= p < 64 implies !#[trigger] bit_is_set(
            bitmaps@[i],
            p,
        ) by {
            lemma_zero_has_no_bits(p as u64);
        };
        while key <= 192
            invariant
                1 <= key <= 193,
                keys == map@.dom(),
                bitmaps@.len() == 3,
                found.len() == 3,
                forall|i: int, p: int|
                    0 <= i < 3 && 0 <= p < 64 ==> #[trigger] bit_is_set(bitmaps@[i], p) == (64 * i
                        + p + 1 < key && keys.contains((64 * i + p + 1) as u8)),
                forall|i: int|
                    0 <= i < 3 ==> #[trigger] found[i] == (exists|k: u8|
                        #[trigger] keys.contains(k) && 64 * i < k <= 64 * i + 64 && k < key),
                forall|i: int| 0 <= i < 3 ==> (#[trigger] bitmaps@[i] == 0) == !found[i],
            decreases 193 - key,
        {
            let index: usize = ((key - 1) / 64) as usize;
            let position: u8 = (key - 1) % 64;
            let ghost prev = bitmaps@;
            let ghost prev_found = found;
            proof {
                lemma_div_mod_64(index as int, position as int);
            }
            if map.contains_key(&key) {
                let old = bitmaps[index];
                bitmaps.set(index, old | (STARTING_BIT >> position));
                proof {
                    found = found.update(index as int, true);
                    lemma_set_bit(old, position as u64, 0);
                }
            }
            proof {
                let k = key;
                assert forall|i: int, p: int| 0 <= i < 3 && 0 <= p < 64 implies #[trigger] bit_is_set(
                    bitmaps@[i],
                    p,
                ) == (64 * i + p + 1 < k + 1 && keys.contains((64 * i + p + 1) as u8)) by {
                    lemma_div_mod_64(i, p);
                    assert(bit_is_set(prev[i], p) == (64 * i + p + 1 < k && keys.contains(
                        (64 * i + p + 1) as u8,
                    )));
                    if keys.contains(k) && i == index {
                        lemma_set_bit(prev[i], position as u64, p as u64);
                    }
                };
                assert forall|i: int| 0 <= i < 3 implies #[trigger] found[i] == (exists|kk: u8|
                    #[trigger] keys.contains(kk) && 64 * i < kk <= 64 * i + 64 && kk < k + 1) by {
                    assert(prev_found[i] == (exists|kk: u8|
                        #[trigger] keys.contains(kk) && 64 * i < kk <= 64 * i + 64 && kk < k));
                    if keys.contains(k) && i == index {
                        assert(keys.contains(k) && 64 * i < k <= 64 * i + 64 && k < k + 1);
                    }
                };
            }
            key = key + 1;
        }
        let ghost raw = bitmaps@;
        proof {
            assert forall|i: int| 0 <= i < 3 implies #[trigger] found[i] == has_group_key(keys, i) by {
                if found[i] {
                    let kk = choose|kk: u8|
                        #[trigger] keys.contains(kk) && 64 * i < kk <= 64 * i + 64 && kk < 193;
                    assert(keys.contains(kk) && 64 * i < kk <= 64 * i + 64);
                }
                if has_group_key(keys, i) {
                    let kk = choose|kk: u8| #[trigger] keys.contains(kk) && 64 * i < kk <= 64 * i + 64;
                    assert(keys.contains(kk) && 64 * i < kk <= 64 * i + 64 && kk < 193);
                }
            };
        }
        // A word whose next word is not zero announces it with its first bit.
        let secondary = bitmaps[1];
        let tertiary = bitmaps[2];
        if secondary != 0 {
            let primary = bitmaps[0];
            bitmaps.set(0, primary | STARTING_BIT);
        }
        if tertiary != 0 {
            let secondary = bitmaps[1];
            bitmaps.set(1, secondary | STARTING_BIT);
        }
        proof {
            assert forall|i: int, p: int| 0 <= i < 3 && 0 <= p < 64 implies #[trigger] bit_is_set(
                bitmaps@[i],
                p,
            ) == group_bit(keys, i, p) by {
                lemma_div_mod_64(i, p);
                assert(bit_is_set(raw[i], p) == keys.contains((64 * i + p + 1) as u8));
                assert(STARTING_BIT >> 0u64 == STARTING_BIT) by (bit_vector);
                if i < 2 && raw[i + 1] != 0 {
                    lemma_set_bit(raw[i], 0, p as u64);
                }
            };
            assert forall|i: int| 0 <= i < 3 implies (#[trigger] bitmaps@[i] != 0) == group_kept(
                keys,
                i,
            ) by {
                assert(STARTING_BIT >> 0u64 == STARTING_BIT) by (bit_vector);
                if i < 2 && raw[i + 1] != 0 {
                    lemma_set_bit(raw[i], 0, 0);
                }
            };
        }
        // Only the words that are not zero are kept.
        let mut maps: Vec<u64> = Vec::new();
        let mut i: usize = 0;
        while i < 3
            invariant
                i <= 3,
                bitmaps@.len() == 3,
                forall|g: int| 0 <= g < 3 ==> (#[trigger] bitmaps@[g] != 0) == group_kept(keys, g),
                maps@ == bitmaps@.subrange(0, i as int).filter(|w: u64| w != 0),
            decreases 3 - i,
        {
            let w = bitmaps[i];
            proof {
                reveal_with_fuel(Seq::filter, 1);
                assert(bitmaps@.subrange(0, i + 1).drop_last() == bitmaps@.subrange(0, i as int));
            }
            if w != 0 {
                maps.push(w);
            }
            i = i + 1;
        }
        proof {
            reveal_with_fuel(Seq::filter, 4);
            assert(bitmaps@.subrange(0, 3) == bitmaps@);
            let b = bitmaps@;
            assert(b == seq![b[0], b[1], b[2]]);
            assert(seq![b[0], b[1], b[2]].drop_last() == seq![b[0], b[1]]);
            assert(seq![b[0], b[1]].drop_last() == seq![b[0]]);
            assert(seq![b[0]].drop_last() == Seq::<u64>::empty());
            let kg = kept_groups(keys);
            assert(maps@.len() == kg.len());
            assert forall|j: int, p: int| 0 <= j < maps@.len() && 0 <= p < 64 implies #[trigger] bit_is_set(
                maps@[j],
                p,
            ) == group_bit(keys, kg[j], p) by {
                assert(maps@[j] == b[kg[j]]);
            };
            assert forall|j: int| 0 <= j < maps@.len() implies #[trigger] maps@[j] == built_words(keys)[j] by {
                lemma_group_word_bits(keys, kg[j]);
                assert forall|p: int| 0 <= p < 64 implies #[trigger] bit_is_set(maps@[j], p) == bit_is_set(
                    built_words(keys)[j],
                    p,
                ) by {
                    assert(bit_is_set(maps@[j], p) == group_bit(keys, kg[j], p));
                };
                lemma_same_bits(maps@[j], built_words(keys)[j]);
            };
            assert(maps@ =~= built_words(keys));
        }
        Bitmaps { maps }
    }
}

/// The big-endian bytes of `v`.
fn write_word(v: u64) -> (r: Vec<u8>)
    ensures
        r@ == word_bytes(v),
        r@.len() == 8,
{
    let mut out: Vec<u8> = Vec::new();
    let mut x: u64 = v;
    let mut d: u64 = 0x0100_0000_0000_0000u64;
    let mut j: usize = 0;
    proof {
        reveal_with_fuel(pow256, 9);
    }
    while j < 8
        invariant
            j <= 8,
            out@.len() == j,
            out@ + be_bytes(x as nat, (8 - j) as nat) == be_bytes(v as nat, 8),
            j < 8 ==> d as nat == pow256((7 - j) as nat),
            j < 8 ==> x < pow256((8 - j) as nat),
        decreases 8 - j,
    {
        proof {
            lemma_pow256_step((7 - j) as nat);
            assert(x / d < 256) by (nonlinear_arith)
                requires
                    x < d * 256,
                    d > 0,
            ;
            lemma_pow256_positive((7 - j) as nat);
        }
        let byte = (x / d) as u8;
        let ghost old_x = x;
        let ghost n = (8 - j) as nat;
        assert(be_bytes(old_x as nat, n) == seq![((old_x as nat / pow256((n - 1) as nat)) % 256) as u8]
            + be_bytes(old_x as nat % pow256((n - 1) as nat), (n - 1) as nat));
        out.push(byte);
        x = x % d;
        if j < 7 {
            d = d / 256;
            proof {
                lemma_pow256_step((6 - j) as nat);
                assert(d as nat == pow256((6 - j) as nat)) by (nonlinear_arith)
                    requires
                        pow256((7 - j) as nat) == pow256((6 - j) as nat) * 256,
                        d == pow256((7 - j) as nat) / 256,
                ;
            }
        }
        proof {
            assert((old_x as nat / pow256((n - 1) as nat)) % 256 == old_x as nat / pow256(
                (n - 1) as nat,
            ));
            assert(out@ + be_bytes(x as nat, (n - 1) as nat) =~= (out@.drop_last() + be_bytes(
                old_x as nat,
                n,
            )));
        }
        j = j + 1;
    }
    out
}

proof fn lemma_pow256_positive(n: nat)
    ensures
        pow256(n) > 0,
    decreases n,
{
    if n > 0 {
        lemma_pow256_positive((n - 1) as nat);
    }
}

/// Reads the big-endian word in `buffer[start..start + 8]`.
pub(crate) fn read_word(buffer: &[u8], start: usize) -> (r: u64)
    requires
        start + 8 <= buffer@.len(),
    ensures
        r == word_at(buffer@, start as int),
{
    let ghost bytes = buffer@.subrange(start as int, start + 8);
    let len = buffer.len();
    let mut value: u64 = 0;
    let mut i: usize = 0;
    while i < 8
        invariant
            i <= 8,
            start + 8 <= buffer@.len(),
            len == buffer@.len(),
            bytes == buffer@.subrange(start as int, start + 8),
            value as nat == be_value(bytes.subrange(0, i as int)),
            value < pow256(i as nat),
        decreases 8 - i,
    {
        let b = buffer[start + i];
        proof {
            let s = bytes.subrange(0, i + 1);
            assert(s.drop_last() == bytes.subrange(0, i as int));
            assert(s.last() == b);
            lemma_pow256_step(i as nat);
            assert(value * 256 + b < pow256((i + 1) as nat)) by (nonlinear_arith)
                requires
                    value < pow256(i as nat),
                    pow256((i + 1) as nat) == pow256(i as nat) * 256,
                    b < 256,
            ;
            lemma_pow256_bound((i + 1) as nat);
        }
        value = value * 256 + b as u64;
        i = i + 1;
    }
    assert(bytes.subrange(0, 8) == bytes);
    value
}

/// Bitmaps as a buffer must hold them to be read back: one to three words,
/// each but the last announcing the next with its first bit, and a last word
/// that announces none unless it is the third.
pub open spec fn chained_words(words: Seq<u64>) -> bool {
    &&& 1 <= words.len() <= 3
    &&& forall|i: int| 0 <= i < words.len() - 1 ==> bit_is_set(#[trigger] words[i], 0)
    &&& words.len() < 3 ==> !bit_is_set(words.last(), 0)
}

#[verifier::spinoff_prover]
proof fn lemma_be_value_prepend(b: u8, s: Seq<u8>)
    ensures
        be_value(seq![b] + s) == b * pow256(s.len()) + be_value(s),
    decreases s.len(),
{
    if s.len() == 0 {
        assert((seq![b] + s).drop_last() == Seq::<u8>::empty());
        assert(be_value(Seq::<u8>::empty()) == 0);
        assert((seq![b] + s).last() == b);
        assert(be_value(seq![b] + s) == be_value((seq![b] + s).drop_last()) * 256 + b);
        assert(pow256(0) == 1);
    } else {
        let t = seq![b] + s;
        assert(t.drop_last() == seq![b] + s.drop_last());
        assert(t.last() == s.last());
        lemma_be_value_prepend(b, s.drop_last());
        lemma_pow256_step((s.len() - 1) as nat);
        let x = b * pow256((s.len() - 1) as nat);
        assert(x * 256 == b * pow256(s.len())) by (nonlinear_arith)
            requires
                x == b * pow256((s.len() - 1) as nat),
                pow256(s.len()) == pow256((s.len() - 1) as nat) * 256,
        ;
        let y = be_value(s.drop_last());
        assert(be_value(t) == be_value(t.drop_last()) * 256 + s.last());
        assert(be_value(t.drop_last()) == x + y);
        assert(be_value(s) == y * 256 + s.last());
        assert((x + y) * 256 == x * 256 + y * 256);
    }
}

proof fn lemma_be_round_trip(v: nat, n: nat)
    requires
        v < pow256(n),
    ensures
        be_value(be_bytes(v, n)) == v,
        be_bytes(v, n).len() == n,
    decreases n,
{
    if n > 0 {
        let p = pow256((n - 1) as nat);
        lemma_pow256_positive((n - 1) as nat);
        lemma_pow256_step((n - 1) as nat);
        assert(v % p < p) by (nonlinear_arith)
            requires
                p > 0,
        ;
        lemma_be_round_trip(v % p, (n - 1) as nat);
        assert(v / p < 256) by (nonlinear_arith)
            requires
                v < p * 256,
                p > 0,
        ;
        let b = ((v / p) % 256) as u8;
        assert(b == v / p);
        lemma_be_value_prepend(b, be_bytes(v % p, (n - 1) as nat));
        assert(b * p + v % p == v) by (nonlinear_arith)
            requires
                b == v / p,
                p > 0,
        ;
    }
}

proof fn lemma_words_bytes_at(words: Seq<u64>, rest: Seq<u8>, i: int)
    requires
        0 <= i < words.len(),
    ensures
        words_bytes(words).len() == 8 * words.len(),
        word_at(words_bytes(words) + rest, 8 * i) == words[i],
    decreases words.len(),
{
    reveal_with_fuel(pow256, 9);
    lemma_be_round_trip(words.last() as nat, 8);
    let front = words_bytes(words.drop_last());
    if words.len() > 1 {
        if i < words.len() - 1 {
            lemma_words_bytes_at(words.drop_last(), word_bytes(words.last()) + rest, i);
            assert(words_bytes(words) + rest == front + (word_bytes(words.last()) + rest));
        } else {
            lemma_words_bytes_at(words.drop_last(), rest, 0);
        }
    }
    assert(front.len() == 8 * (words.len() - 1));
    if i == words.len() - 1 {
        assert((words_bytes(words) + rest).subrange(8 * i, 8 * i + 8) == word_bytes(words.last()));
    }
}

/// Reading the bytes of chained bitmaps, whatever follows them, gives the
/// bitmaps back: `Bitmaps::from_buffer` undoes `Bitmaps::to_buffer`, and
/// the bitmaps take `byte_length` bytes.
pub proof fn lemma_bitmaps_read_back(words: Seq<u64>, rest: Seq<u8>)
    requires
        chained_words(words),
    ensures
        holds_announced_words(words_bytes(words) + rest),
        words_in_buffer(words_bytes(words) + rest) == words,
        words_length_in_buffer(words_bytes(words) + rest) == 8 * words.len(),
        words_bytes(words).len() == 8 * words.len(),
{
    let b = words_bytes(words) + rest;
    lemma_words_bytes_at(words, rest, 0);
    if words.len() > 1 {
        lemma_words_bytes_at(words, rest, 1);
        assert(bit_is_set(words[0], 0));
    }
    if words.len() > 2 {
        lemma_words_bytes_at(words, rest, 2);
        assert(bit_is_set(words[1], 0));
    }
    if words.len() == 1 {
        assert(words_in_buffer(b) =~= words);
    } else if words.len() == 2 {
        assert(words_in_buffer(b) =~= words);
    } else {
        assert(words_in_buffer(b) =~= words);
    }
}

proof fn lemma_be_value_bound(s: Seq<u8>)
    ensures
        be_value(s) < pow256(s.len()),
    decreases s.len(),
{
    if s.len() > 0 {
        lemma_be_value_bound(s.drop_last());
        lemma_pow256_step((s.len() - 1) as nat);
    }
}

proof fn lemma_be_value_injective(s: Seq<u8>, t: Seq<u8>)
    requires
        s.len() == t.len(),
        be_value(s) == be_value(t),
    ensures
        s == t,
    decreases s.len(),
{
    if s.len() > 0 {
        lemma_be_value_injective(s.drop_last(), t.drop_last());
        assert(s.drop_last() == t.drop_last());
        assert(s =~= s.drop_last().push(s.last()));
        assert(t =~= t.drop_last().push(t.last()));
    }
}

proof fn lemma_word_bytes_of_word_at(bytes: Seq<u8>, start: int)
    requires
        0 <= start,
        start + 8 <= bytes.len(),
    ensures
        word_bytes(word_at(bytes, start)) == bytes.subrange(start, start + 8),
{
    let seg = bytes.subrange(start, start + 8);
    reveal_with_fuel(pow256, 9);
    lemma_be_value_bound(seg);
    let v = be_value(seg);
    assert(v < 0x1_0000_0000_0000_0000);
    assert(word_at(bytes, start) as nat == v);
    lemma_be_round_trip(v, 8);
    lemma_be_value_injective(be_bytes(v, 8), seg);
}

/// Writing the bitmaps read from a buffer gives back the bytes they were
/// read from: `Bitmaps::to_buffer` of `Bitmaps::from_buffer(b)` is the first
/// `byte_length` bytes of `b`.
pub proof fn lemma_bitmaps_written_back(bytes: Seq<u8>)
    requires
        holds_announced_words(bytes),
    ensures
        8 * words_in_buffer(bytes).len() == words_length_in_buffer(bytes),
        words_bytes(words_in_buffer(bytes)) == bytes.subrange(0, words_length_in_buffer(bytes)),
{
    let w = words_in_buffer(bytes);
    lemma_word_bytes_of_word_at(bytes, 0);
    let b0 = bytes.subrange(0, 8);
    assert(w[0] == word_at(bytes, 0));
    assert(words_bytes(seq![w[0]]) =~= b0) by {
        assert(seq![w[0]].drop_last() == Seq::<u64>::empty());
        assert(words_bytes(Seq::<u64>::empty()) == Seq::<u8>::empty());
        assert(words_bytes(seq![w[0]]) == Seq::<u8>::empty() + word_bytes(w[0]));
    };
    if w.len() >= 2 {
        lemma_word_bytes_of_word_at(bytes, 8);
        assert(w.subrange(0, 1) == seq![w[0]]);
        assert(w.subrange(0, 2).drop_last() == seq![w[0]]);
        assert(words_bytes(w.subrange(0, 2)) =~= bytes.subrange(0, 16));
    }
    if w.len() == 3 {
        lemma_word_bytes_of_word_at(bytes, 16);
        assert(w.drop_last() == w.subrange(0, 2));
        assert(words_bytes(w) =~= bytes.subrange(0, 24));
    }
    if w.len() == 2 {
        assert(w.subrange(0, 2) == w);
    }
    if w.len() == 1 {
        assert(w == seq![w[0]]);
    }
}

/// Whether a word has a bit set for a data element: any bit but the first.
pub open spec fn has_element_bit(w: u64) -> bool {
    exists|p: int| 1 <= p < 64 && #[trigger] bit_is_set(w, p)
}

/// Bitmaps that writing builds again from the data elements they announce:
/// chained, every word after the first announcing a data element, the first
/// announcing one when it is alone, and a third word not setting its first
/// bit.
pub open spec fn needed_words(words: Seq<u64>) -> bool {
    &&& chained_words(words)
    &&& words.len() == 1 ==> has_element_bit(words[0])
    &&& words.len() >= 2 ==> has_element_bit(words[1])
    &&& words.len() == 3 ==> has_element_bit(words[2]) && !bit_is_set(words[2], 0)
}

/// The MTI and the data elements that the bitmaps announce with a value.
pub open spec fn announced_keys(words: Seq<u64>) -> Set<u8> {
    Set::new(
        |k: u8| k == 0 || (items_of(words).contains(k) && k != 1 && k != 65 && k != 129),
    )
}

/// No bitmap announces data element 0.
pub proof fn lemma_items_upto_contains_zero(words: Seq<u64>)
    requires
        words.len() <= 3,
    ensures
        !items_of(words).contains(0),
{
    lemma_items_upto_contains(words, (64 * words.len()) as nat, 0);
}

/// Bitmaps that writing builds again are built again from the data elements
/// they announce: `Bitmaps::from_iso_message_map` of a message read with them
/// gives them back.
pub proof fn lemma_needed_words_rebuilt(words: Seq<u64>)
    requires
        needed_words(words),
    ensures
        built_words(announced_keys(words)) == words,
{
    let keys = announced_keys(words);
    let len = words.len();
    assert forall|g: int| 0 <= g < 3 implies #[trigger] has_group_key(keys, g) == (g < len
        && has_element_bit(words[g])) by {
        if has_group_key(keys, g) {
            let k = choose|k: u8| #[trigger] keys.contains(k) && 64 * g < k <= 64 * g + 64;
            lemma_items_upto_contains(words, (64 * len) as nat, k);
            let p = (k - 1) % 64;
            assert((k - 1) / 64 == g);
            assert(p != 0);
            assert(bit_is_set(words[g], p));
        }
        if g < len && has_element_bit(words[g]) {
            let p = choose|p: int| 1 <= p < 64 && #[trigger] bit_is_set(words[g], p);
            let k = (64 * g + p + 1) as u8;
            assert(k as int == 64 * g + p + 1);
            lemma_items_upto_contains(words, (64 * len) as nat, k);
            assert((k - 1) / 64 == g && (k - 1) % 64 == p);
            assert(keys.contains(k));
        }
    };
    let h0 = has_group_key(keys, 0);
    let h1 = has_group_key(keys, 1);
    let h2 = has_group_key(keys, 2);
    let kg = kept_groups(keys);
    if len == 3 {
        assert(kg =~= seq![0int, 1int, 2int]);
    } else if len == 2 {
        assert(kg =~= seq![0int, 1int]);
    } else {
        assert(kg =~= seq![0int]);
    }
    let w = built_words(keys);
    assert(w.len() == len);
    lemma_group_word_bits(keys, 0);
    lemma_group_word_bits(keys, 1);
    lemma_group_word_bits(keys, 2);
    assert forall|j: int| 0 <= j < len implies #[trigger] w[j] == words[j] by {
        assert(kg[j] == j);
        assert(w[j] == group_word(keys, j));
        assert forall|p: int| 0 <= p < 64 implies #[trigger] bit_is_set(w[j], p) == bit_is_set(
            words[j],
            p,
        ) by {
            assert(bit_is_set(w[j], p) == group_bit(keys, j, p));
            let k = (64 * j + p + 1) as u8;
            assert(k as int == 64 * j + p + 1);
            lemma_items_upto_contains(words, (64 * len) as nat, k);
            assert((k - 1) / 64 == j && (k - 1) % 64 == p);
            if p == 0 {
                assert(!keys.contains(k));
                if j < len - 1 {
                    assert(bit_is_set(words[j], 0));
                }
            }
        };
        lemma_same_bits(w[j], words[j]);
    };
    assert(w =~= words);
}

/// Keys of a message map whose bitmaps read back as they were built: the
/// MTI (0) and data elements 2 to 192 but 65 and 129 (bits 1, 65 and 129
/// announce the next bitmap), one of them at most 128, and one from 66 to 128
/// wherever one from 130 to 192 is held.
pub open spec fn announceable(keys: Set<u8>) -> bool {
    &&& forall|k: u8| #[trigger] keys.contains(k) ==> k == 0 || (2 <= k <= 192 && k != 65 && k != 129)
    &&& has_group_key(keys, 0) || has_group_key(keys, 1)
    &&& has_group_key(keys, 2) ==> has_group_key(keys, 1)
}

proof fn lemma_items_upto_contains(maps: Seq<u64>, n: nat, x: u8)
    requires
        maps.len() <= 3,
        n <= 64 * maps.len(),
    ensures
        items_upto(maps, n).contains(x) == (1 <= x <= n && bit_is_set(
            maps[(x - 1) / 64],
            (x - 1) % 64,
        )),
    decreases n,
{
    if n > 0 {
        let g = n - 1;
        lemma_items_upto_contains(maps, (n - 1) as nat, x);
        let q = g / 64;
        let p = g % 64;
        assert(0 <= q < 3 && 64 * q + p == g && 0 <= p < 64);
        assert(q % 256 == q);
        assert(key_of(q, p) == n);
        let front = items_upto(maps, (n - 1) as nat);
        if x == n {
            assert((x - 1) / 64 == q && (x - 1) % 64 == p);
            assert(!front.contains(x));
        }
        if bit_is_set(maps[q], p) {
            let t = front + seq![n as u8];
            assert(items_upto(maps, n) == t);
            if x == n {
                assert(t[front.len() as int] == x);
            }
            if t.contains(x) && x != n {
                let j = choose|j: int| 0 <= j < t.len() && t[j] == x;
                assert(front[j] == x);
            }
            if front.contains(x) {
                let j = choose|j: int| 0 <= j < front.len() && front[j] == x;
                assert(t[j] == x);
            }
            assert(items_upto(maps, n).contains(x) == (front.contains(x) || x == n));
        } else {
            assert(items_upto(maps, n) == front + Seq::<u8>::empty());
            assert(front + Seq::<u8>::empty() == front);
        }
    } else {
        assert(items_upto(maps, n) == Seq::<u8>::empty());
        assert(!Seq::<u8>::empty().contains(x));
    }
}

proof fn lemma_items_upto_sorted(maps: Seq<u64>, n: nat)
    requires
        maps.len() <= 3,
        n <= 64 * maps.len(),
    ensures
        forall|i: int| 0 <= i < items_upto(maps, n).len() ==> 1 <= #[trigger] items_upto(maps, n)[i] <= n,
        forall|i: int, j: int|
            0 <= i < j < items_upto(maps, n).len() ==> #[trigger] items_upto(maps, n)[i] < #[trigger] items_upto(maps, n)[j],
    decreases n,
{
    if n > 0 {
        let g = n - 1;
        lemma_items_upto_sorted(maps, (n - 1) as nat);
        let q = g / 64;
        let p = g % 64;
        assert(0 <= q < 3 && 64 * q + p == g && 0 <= p < 64);
        assert(q % 256 == q);
        assert(key_of(q, p) == n);
        let front = items_upto(maps, (n - 1) as nat);
        if bit_is_set(maps[q], p) {
            assert(items_upto(maps, n) == front + seq![n as u8]);
        } else {
            assert(items_upto(maps, n) == front + Seq::<u8>::empty());
            assert(front + Seq::<u8>::empty() == front);
        }
    }
}

/// The data elements that at most three bitmaps announce are listed in
/// strictly increasing order: `Bitmaps::items` lists each once, smallest
/// first.
pub proof fn lemma_items_increasing(maps: Seq<u64>)
    requires
        maps.len() <= 3,
    ensures
        forall|i: int, j: int|
            0 <= i < j < items_of(maps).len() ==> #[trigger] items_of(maps)[i] < #[trigger] items_of(maps)[j],
{
    lemma_items_upto_sorted(maps, (64 * maps.len()) as nat);
}

/// The bitmaps built from announceable keys are chained, and announce
/// exactly the keys other than the MTI, besides bits 1, 65 and 129, which
/// announce the next bitmap.
pub proof fn lemma_built_words_announce(keys: Set<u8>)
    requires
        announceable(keys),
    ensures
        chained_words(built_words(keys)),
        forall|x: u8|
            (#[trigger] items_of(built_words(keys)).contains(x) && x != 1 && x != 65 && x != 129) == (
            keys.contains(x) && x != 0),
{
    let w = built_words(keys);
    let kg = kept_groups(keys);
    let h1 = has_group_key(keys, 1);
    let h2 = has_group_key(keys, 2);
    assert(group_kept(keys, 0));
    assert(group_kept(keys, 1) == h1);
    assert(group_kept(keys, 2) == h2);
    if h2 {
        assert(kg =~= seq![0int, 1int, 2int]);
    } else if h1 {
        assert(kg =~= seq![0int, 1int]);
    } else {
        assert(kg =~= seq![0int]);
    }
    assert(w.len() == kg.len());
    assert forall|j: int| 0 <= j < w.len() implies kg[j] == j by {};
    lemma_group_word_bits(keys, 0);
    lemma_group_word_bits(keys, 1);
    lemma_group_word_bits(keys, 2);
    assert forall|j: int, p: int| 0 <= j < w.len() && 0 <= p < 64 implies #[trigger] bit_is_set(w[j], p)
        == group_bit(keys, j, p) by {
        assert(w[j] == group_word(keys, kg[j]));
    };
    if h1 {
        assert(bit_is_set(w[0], 0));
    }
    if h2 {
        assert(bit_is_set(w[1], 0));
    }
    if w.len() == 2 {
        assert(!keys.contains(65u8));
        assert(!bit_is_set(w[1], 0));
    }
    if w.len() == 1 {
        assert(!keys.contains(1u8));
        assert(!bit_is_set(w[0], 0));
    }
    assert forall|x: u8|
        (#[trigger] items_of(w).contains(x) && x != 1 && x != 65 && x != 129) == (keys.contains(x) && x != 0) by {
        lemma_items_upto_contains(w, (64 * w.len()) as nat, x);
        if keys.contains(x) && x != 0 {
            assert(2 <= x <= 192 && x != 65 && x != 129);
            let g = (x - 1) / 64;
            assert(64 * g < x <= 64 * g + 64);
            assert(has_group_key(keys, g));
            assert(x <= 64 * w.len());
            assert(((64 * g + (x - 1) % 64 + 1) as u8) == x);
            assert(group_bit(keys, g, (x - 1) % 64));
        }
        if items_of(w).contains(x) && x != 1 && x != 65 && x != 129 {
            let g = (x - 1) / 64;
            let p = (x - 1) % 64;
            assert(group_bit(keys, g, p));
            assert(((64 * g + p + 1) as u8) == x);
            if p == 0 {
                assert(x == 129);
            }
        }
    };
}

/// `256^n`.
pub open spec fn pow256(n: nat) -> nat
    decreases n,
{
    if n == 0 {
        1
    } else {
        pow256((n - 1) as nat) * 256
    }
}

proof fn lemma_pow256_step(n: nat)
    ensures
        pow256(n + 1) == pow256(n) * 256,
{
}

proof fn lemma_pow256_bound(n: nat)
    requires
        n <= 8,
    ensures
        pow256(n) <= 0x1_0000_0000_0000_0000,
{
    reveal_with_fuel(pow256, 9);
    assert(pow256(8) == 0x1_0000_0000_0000_0000);
    assert(pow256(7) == 0x1_0000_0000_0000_00);
}

} // verus!
