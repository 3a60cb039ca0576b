//! Properties that relate the operations of `hex` to one another.
use vstd::prelude::*;

use crate::hex::{
    all_hex, all_offsets, byte_text, char_byte, digit_char, fragment_error, fragment_value,
    is_hex_digit, lower_hex_digit, matches_at, nibble_value, offsets_before, oriented, pad_even,
    pad_left, reversed, text_bytes, text_of, Endianness, HexByte,
};

verus! {

proof fn lemma_digit_of_nibble(c: char)
    requires
        is_hex_digit(c),
    ensures
        nibble_value(c) < 16,
        digit_char(nibble_value(c)) == lower_hex_digit(c),
{
}

proof fn lemma_pair_text(a: char, b: char)
    requires
        is_hex_digit(a),
        is_hex_digit(b),
    ensures
        byte_text((nibble_value(a) * 16 + nibble_value(b)) as u8) == seq![
            lower_hex_digit(a),
            lower_hex_digit(b),
        ],
{
    lemma_digit_of_nibble(a);
    lemma_digit_of_nibble(b);
    let v = nibble_value(a) * 16 + nibble_value(b);
    assert(v / 16 == nibble_value(a) && v % 16 == nibble_value(b)) by (nonlinear_arith)
        requires
            v == nibble_value(a) * 16 + nibble_value(b),
            nibble_value(a) < 16,
            nibble_value(b) < 16,
    ;
}

/// A fragment of at most two hex digits is accepted, and the unit made of it
/// renders as the fragment padded on the left with `'0'` to two characters and
/// lowercased.
pub proof fn lemma_fragment_renders_padded_lowercase(s: Seq<char>)
    requires
        s.len() <= 2,
        all_hex(s),
    ensures
        fragment_error(s) is None,
        fragment_value(s) < 256,
        byte_text(fragment_value(s) as u8) == pad_left(s, 2).map_values(
            |c: char| lower_hex_digit(c),
        ),
        byte_text(fragment_value(s) as u8).len() == 2,
{
    let p = pad_left(s, 2);
    assert(is_hex_digit(p[0]) && is_hex_digit(p[1])) by {
        if s.len() == 0 {
            assert(p[0] == '0' && p[1] == '0');
        } else if s.len() == 1 {
            assert(p[0] == '0' && p[1] == s[0]);
        } else {
            assert(p[0] == s[0] && p[1] == s[1]);
        }
    }
    lemma_digit_of_nibble(p[0]);
    lemma_digit_of_nibble(p[1]);
    lemma_pair_text(p[0], p[1]);
    assert(p.map_values(|c: char| lower_hex_digit(c)) =~= seq![
        lower_hex_digit(p[0]),
        lower_hex_digit(p[1]),
    ]);
}

/// A fragment longer than two characters, or holding a character that is not
/// a hex digit, is refused.
pub proof fn lemma_bad_fragment_refused(s: Seq<char>)
    requires
        s.len() > 2 || !all_hex(s),
    ensures
        fragment_error(s) is Some,
{
    if s.len() <= 2 {
        let k = choose|k: int| 0 <= k < s.len() && !is_hex_digit(s[k]);
        assert(k == 0 || k == 1);
    }
}

proof fn lemma_text_of_pairs(p: Seq<char>)
    requires
        p.len() % 2 == 0,
        all_hex(p),
    ensures
        text_of(text_bytes(p)) == p.map_values(|c: char| lower_hex_digit(c)),
    decreases p.len(),
{
    let lower = p.map_values(|c: char| lower_hex_digit(c));
    if p.len() == 0 {
        assert(text_bytes(p) =~= Seq::<u8>::empty());
        assert(lower =~= Seq::<char>::empty());
    } else {
        let q = p.take(p.len() - 2);
        assert(all_hex(q));
        lemma_text_of_pairs(q);
        assert(text_bytes(p).drop_last() =~= text_bytes(q));
        let a = p[p.len() - 2];
        let b = p[p.len() - 1];
        lemma_pair_text(a, b);
        assert(text_bytes(p).last() == (nibble_value(a) * 16 + nibble_value(b)) as u8);
        assert(lower =~= q.map_values(|c: char| lower_hex_digit(c)) + seq![
            lower_hex_digit(a),
            lower_hex_digit(b),
        ]);
    }
}

/// Hex text read without a change of byte order and rendered in that same
/// order gives the text back padded on the left to an even length and
/// lowercased; even-length lowercase text comes back unchanged.
pub proof fn lemma_hex_text_round_trip(s: Seq<char>, e: Endianness)
    requires
        all_hex(s),
    ensures
        text_of(oriented(oriented(text_bytes(pad_even(s)), e, e), e, e)) == pad_even(s).map_values(
            |c: char| lower_hex_digit(c),
        ),
        text_of(oriented(oriented(text_bytes(pad_even(s)), e, e), e, e)).len() % 2 == 0,
        s.len() % 2 == 0 && (forall|i: int| 0 <= i < s.len() ==> lower_hex_digit(#[trigger] s[i]) == s[i])
            ==> text_of(oriented(oriented(text_bytes(pad_even(s)), e, e), e, e)) == s,
{
    let p = pad_even(s);
    assert forall|j: int| 0 <= j < p.len() implies is_hex_digit(#[trigger] p[j]) by {
        if s.len() % 2 == 1 && j > 0 {
            assert(p[j] == s[j - 1]);
        }
    }
    lemma_text_of_pairs(p);
    if s.len() % 2 == 0 && (forall|i: int| 0 <= i < s.len() ==> lower_hex_digit(#[trigger] s[i]) == s[i]) {
        assert(p.map_values(|c: char| lower_hex_digit(c)) =~= s);
    }
}

/// Re-tagging to another byte order and back restores the original order.
pub proof fn lemma_retag_round_trip(s: Seq<HexByte>, e1: Endianness, e2: Endianness)
    ensures
        oriented(oriented(s, e1, e2), e2, e1) == s,
{
    assert(oriented(oriented(s, e1, e2), e2, e1) =~= s);
}

/// Encoding text with a change of byte order gives the units of encoding it
/// without one, reversed.
pub proof fn lemma_text_encoding_reversed(s: Seq<char>)
    ensures
        oriented(s.map_values(|c: char| char_byte(c)), Endianness::Big, Endianness::Little)
            == reversed(
            oriented(s.map_values(|c: char| char_byte(c)), Endianness::Little, Endianness::Little),
        ),
{
}

/// The offsets below `end` are exactly the positions below `end` where the
/// needle stands, in strictly ascending order.
pub proof fn lemma_offsets_before_exact(haystack: Seq<HexByte>, needle: Seq<HexByte>, end: int)
    requires
        end <= usize::MAX + 1,
    ensures
        forall|k: usize|
            (k < end && matches_at(haystack, needle, k as int)) <==> #[trigger] offsets_before(
                haystack,
                needle,
                end,
            ).contains(k),
        forall|a: int, b: int|
            0 <= a < b < offsets_before(haystack, needle, end).len() ==> offsets_before(
                haystack,
                needle,
                end,
            )[a] < offsets_before(haystack, needle, end)[b],
        forall|a: int|
            0 <= a < offsets_before(haystack, needle, end).len() ==> offsets_before(
                haystack,
                needle,
                end,
            )[a] < end,
    decreases end,
{
    if end > 0 {
        lemma_offsets_before_exact(haystack, needle, end - 1);
        let prev = offsets_before(haystack, needle, end - 1);
        let cur = offsets_before(haystack, needle, end);
        if matches_at(haystack, needle, end - 1) {
            assert(cur == prev.push((end - 1) as usize));
            assert forall|k: usize|
                (k < end && matches_at(haystack, needle, k as int)) <==> #[trigger] cur.contains(
                    k,
                ) by {
                if k == end - 1 {
                    assert(cur[prev.len() as int] == k);
                } else {
                    if cur.contains(k) {
                        let i = choose|i: int| 0 <= i < cur.len() && cur[i] == k;
                        assert(prev[i] == k);
                        assert(prev.contains(k));
                    }
                    if prev.contains(k) {
                        let i = choose|i: int| 0 <= i < prev.len() && prev[i] == k;
                        assert(cur[i] == k);
                    }
                }
            }
        } else {
            assert forall|k: usize|
                (k < end && matches_at(haystack, needle, k as int)) <==> #[trigger] cur.contains(
                    k,
                ) by {
                if k == end - 1 {
                    assert(!prev.contains(k));
                }
            }
        }
    }
}

/// The offsets that a search reports are exactly the positions where a
/// non-empty needle stands, in strictly ascending order, overlapping ones
/// included.
pub proof fn lemma_all_offsets_exact(haystack: Seq<HexByte>, needle: Seq<HexByte>)
    requires
        haystack.len() <= usize::MAX,
    ensures
        forall|k: usize|
            (needle.len() > 0 && matches_at(haystack, needle, k as int)) <==> #[trigger] all_offsets(
                haystack,
                needle,
            ).contains(k),
        forall|a: int, b: int|
            0 <= a < b < all_offsets(haystack, needle).len() ==> all_offsets(haystack, needle)[a]
                < all_offsets(haystack, needle)[b],
{
    if needle.len() > 0 && needle.len() <= haystack.len() {
        lemma_offsets_before_exact(haystack, needle, haystack.len() - needle.len() + 1);
    }
}

} // verus!
