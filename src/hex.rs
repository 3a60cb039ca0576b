//! Hex units (one byte as two lowercase hex digits) and endianness-tagged
//! sequences of them.
use vstd::prelude::*;

verus! {

/// True for the characters `0-9`, `A-F` and `a-f`, by code point range.
pub open spec fn is_hex_digit(c: char) -> bool {
    (48 <= c as u32 <= 57) || (65 <= c as u32 <= 70) || (97 <= c as u32 <= 102)
}

/// The value of a hex digit character.
pub open spec fn nibble_value(c: char) -> nat {
    if c as u32 <= 57 {
        (c as u32 - 48) as nat
    } else if c as u32 <= 70 {
        (c as u32 - 55) as nat
    } else {
        (c as u32 - 87) as nat
    }
}

/// Lowercase form of a hex digit; other characters are left alone.
pub open spec fn lower_hex_digit(c: char) -> char {
    if 65 <= c as u32 <= 70 {
        (c as u32 + 32) as char
    } else {
        c
    }
}

/// The lowercase hex digit for a value below 16.
pub open spec fn digit_char(n: nat) -> char {
    if n < 10 {
        (n + 48) as char
    } else {
        (n + 87) as char
    }
}

/// The canonical two-character text of a byte.
pub open spec fn byte_text(b: u8) -> Seq<char> {
    seq![digit_char(b as nat / 16), digit_char(b as nat % 16)]
}

/// `s` with `'0'` characters added on the left until it is `w` long.
pub open spec fn pad_left(s: Seq<char>, w: nat) -> Seq<char> {
    if s.len() >= w {
        s
    } else {
        Seq::new((w - s.len()) as nat, |_i: int| '0') + s
    }
}

/// Why a fragment cannot become a hex unit.
#[derive(Clone, Copy, Debug, PartialEq, Eq, Structural)]
pub enum InvalidHexFragment {
    /// The fragment has more than two characters (the count is given).
    TooLong(usize),
    /// The fragment holds a character that is not a hex digit.
    NonHexChar(char),
}

/// The error, if any, of turning fragment `s` into a hex unit: too long first,
/// else its first character that is not a hex digit.
pub open spec fn fragment_error(s: Seq<char>) -> Option<InvalidHexFragment> {
    if s.len() > 2 {
        Some(InvalidHexFragment::TooLong(s.len() as usize))
    } else if s.len() >= 1 && !is_hex_digit(s[0]) {
        Some(InvalidHexFragment::NonHexChar(s[0]))
    } else if s.len() == 2 && !is_hex_digit(s[1]) {
        Some(InvalidHexFragment::NonHexChar(s[1]))
    } else {
        None
    }
}

/// The byte that a valid fragment stands for, once padded to two digits.
pub open spec fn fragment_value(s: Seq<char>) -> nat {
    let p = pad_left(s, 2);
    nibble_value(p[0]) * 16 + nibble_value(p[1])
}

/// One byte, rendered as two lowercase hexadecimal characters.
#[derive(Clone, Copy, Debug, PartialEq, Eq, Structural)]
pub struct HexByte {
    value: u8,
}

impl View for HexByte {
    type V = u8;

    closed spec fn view(&self) -> u8 {
        self.value
    }
}

fn nibble(c: char) -> (r: u8)
    requires
        is_hex_digit(c),
    ensures
        r as nat == nibble_value(c),
        r < 16,
{
    let x = c as u32;
    if x <= 57 {
        (x - 48) as u8
    } else if x <= 70 {
        (x - 55) as u8
    } else {
        (x - 87) as u8
    }
}

fn is_hex_char(c: char) -> (r: bool)
    ensures
        r == is_hex_digit(c),
{
    let x = c as u32;
    (48 <= x && x <= 57) || (65 <= x && x <= 70) || (97 <= x && x <= 102)
}

/// The one-character string of the lowercase digit for `n`.
fn digit_str(n: u8) -> (r: &'static str)
    requires
        n < 16,
    ensures
        r@ == seq![digit_char(n as nat)],
{
    let digits = "0123456789abcdef";
    proof {
        reveal_strlit("0123456789abcdef");
    }
    let r = digits.substring_char(n as usize, n as usize + 1);
    assert(r@ =~= seq![digits@[n as int]]);
    r
}

impl HexByte {
    /// Validates a fragment of at most two hex digits, padded on the left
    /// with `'0'`.
    pub fn from_hex_str(hex_byte: &str) -> (r: Result<HexByte, InvalidHexFragment>)
        ensures
            match r {
                Ok(b) => fragment_error(hex_byte@) is None && b@ as nat == fragment_value(
                    hex_byte@,
                ),
                Err(e) => fragment_error(hex_byte@) == Some(e),
            },
    {
        let len = hex_byte.unicode_len();
        if len > 2 {
            return Err(InvalidHexFragment::TooLong(len));
        }
        let mut value: u8 = 0;
        let mut i: usize = 0;
        while i < len
            invariant
                len == hex_byte@.len(),
                len <= 2,
                i <= len,
                forall|j: int| 0 <= j < i ==> is_hex_digit(#[trigger] hex_byte@[j]),
                i <= 1 ==> value < 16,
                i == 0 ==> value == 0,
                i == 1 ==> value as nat == nibble_value(hex_byte@[0]),
                i == 2 ==> value as nat == nibble_value(hex_byte@[0]) * 16 + nibble_value(
                    hex_byte@[1],
                ),
            decreases len - i,
        {
            let c = hex_byte.get_char(i);
            if !is_hex_char(c) {
                return Err(InvalidHexFragment::NonHexChar(c));
            }
            value = value * 16 + nibble(c);
            i = i + 1;
        }
        let ghost p = pad_left(hex_byte@, 2);
        assert(len == 1 ==> p =~= seq!['0', hex_byte@[0]]);
        assert(len == 0 ==> p =~= seq!['0', '0']);
        Ok(HexByte { value })
    }

    /// The canonical two-character lowercase text.
    pub fn to_string(&self) -> (r: String)
        ensures
            r@ == byte_text(self@),
    {
        let mut r = String::new();
        r.append(digit_str(self.value / 16));
        r.append(digit_str(self.value % 16));
        assert(r@ =~= byte_text(self@));
        r
    }
}

/// The byte that a character becomes: the low eight bits of its code point.
pub open spec fn char_byte(c: char) -> u8 {
    (c as u32 % 256) as u8
}

impl From<char> for HexByte {
    /// Keeps the low byte of the code point, so `'é'` (U+00E9) gives `e9`
    /// and U+0141 gives `41`.
    fn from(c: char) -> (r: HexByte)
        ensures
            r@ == char_byte(c),
    {
        HexByte { value: (c as u32 % 256) as u8 }
    }
}

impl vstd::std_specs::convert::FromSpecImpl<char> for HexByte {
    open spec fn obeys_from_spec() -> bool {
        true
    }

    closed spec fn from_spec(c: char) -> HexByte {
        HexByte { value: char_byte(c) }
    }
}

/// Byte order: most significant byte first, or least significant first.
#[derive(Clone, Copy, Debug, PartialEq, Eq, Structural)]
pub enum Endianness {
    Big,
    Little,
}

/// `s` in the opposite order.
pub open spec fn reversed<T>(s: Seq<T>) -> Seq<T> {
    Seq::new(s.len(), |i: int| s[s.len() - 1 - i])
}

/// `s`, laid out in `source` order, re-laid in `target` order.
pub open spec fn oriented<T>(s: Seq<T>, source: Endianness, target: Endianness) -> Seq<T> {
    if source == target {
        s
    } else {
        reversed(s)
    }
}

/// A sequence of hex units tagged with the byte order of its layout.
#[derive(Debug, PartialEq, Eq)]
pub struct HexString {
    pub hex_bytes: Vec<HexByte>,
    pub endianness: Endianness,
}

/// The byte values of a run of units.
pub open spec fn unit_values(s: Seq<HexByte>) -> Seq<u8> {
    s.map_values(|b: HexByte| b@)
}

impl View for HexString {
    type V = Seq<u8>;

    open spec fn view(&self) -> Seq<u8> {
        unit_values(self.hex_bytes@)
    }
}

fn reverse_units(v: Vec<HexByte>) -> (r: Vec<HexByte>)
    ensures
        r@ == reversed(v@),
{
    let mut r: Vec<HexByte> = Vec::with_capacity(v.len());
    let mut i: usize = v.len();
    while i > 0
        invariant
            i <= v@.len(),
            r@.len() == v@.len() - i,
            forall|j: int| 0 <= j < r@.len() ==> r@[j] == v@[v@.len() - 1 - j],
        decreases i,
    {
        i = i - 1;
        r.push(v[i]);
    }
    assert(r@ =~= reversed(v@));
    r
}

impl HexString {
    /// Tags `hex_bytes`, laid out in `source_endianness` order, with
    /// `target_endianness`, reversing them when the two differ.
    pub fn from_hex_bytes(
        hex_bytes: Vec<HexByte>,
        source_endianness: Endianness,
        target_endianness: Endianness,
    ) -> (r: HexString)
        ensures
            r.endianness == target_endianness,
            r.hex_bytes@ == oriented(hex_bytes@, source_endianness, target_endianness),
    {
        let hex_bytes = if source_endianness != target_endianness {
            reverse_units(hex_bytes)
        } else {
            hex_bytes
        };
        HexString { hex_bytes, endianness: target_endianness }
    }

    /// The same bytes re-tagged with `endianness`, reversed when the tag
    /// changes.
    pub fn as_endianness(self, endianness: Endianness) -> (r: HexString)
        ensures
            r.endianness == endianness,
            r.hex_bytes@ == oriented(self.hex_bytes@, self.endianness, endianness),
    {
        let hex_bytes = if self.endianness != endianness {
            reverse_units(self.hex_bytes)
        } else {
            self.hex_bytes
        };
        HexString { hex_bytes, endianness }
    }
}

/// `s` with one `'0'` added on the left when its length is odd.
pub open spec fn pad_even(s: Seq<char>) -> Seq<char> {
    if s.len() % 2 == 1 {
        seq!['0'] + s
    } else {
        s
    }
}

/// The bytes of an even-length run of hex digits, two digits each, left to right.
pub open spec fn text_bytes(p: Seq<char>) -> Seq<u8> {
    Seq::new(
        p.len() / 2,
        |i: int| (nibble_value(p[2 * i]) * 16 + nibble_value(p[2 * i + 1])) as u8,
    )
}

/// Index `k` holds the first character of `s` that is not a hex digit.
pub open spec fn first_non_hex_at(s: Seq<char>, k: int) -> bool {
    0 <= k < s.len() && !is_hex_digit(s[k]) && forall|j: int| 0 <= j < k ==> is_hex_digit(s[j])
}

/// Every character of `s` is a hex digit.
pub open spec fn all_hex(s: Seq<char>) -> bool {
    forall|j: int| 0 <= j < s.len() ==> is_hex_digit(#[trigger] s[j])
}

impl HexString {
    /// Reads hex text (padded on the left to an even length) as units of two
    /// digits each, laid out in `source_endianness` order.
    pub fn from_hex_str(s: &str, source_endianness: Endianness, target_endianness: Endianness) -> (r:
        Result<HexString, InvalidHexFragment>)
        ensures
            r is Ok <==> all_hex(s@),
            match r {
                Ok(h) => h.endianness == target_endianness && h@ == oriented(
                    text_bytes(pad_even(s@)),
                    source_endianness,
                    target_endianness,
                ),
                Err(e) => exists|k: int|
                    first_non_hex_at(s@, k) && e == InvalidHexFragment::NonHexChar(s@[k]),
            },
    {
        let mut padded = String::new();
        let odd = s.unicode_len() % 2 != 0;
        if odd {
            padded.append("0");
        }
        padded.append(s);
        let ghost p = pad_even(s@);
        proof {
            reveal_strlit("0");
            assert(padded@ =~= p);
        }
        let text = padded.as_str();
        let text_len = text.unicode_len();
        let n = text_len / 2;
        let mut hex_bytes: Vec<HexByte> = Vec::with_capacity(n);
        let mut i: usize = 0;
        while i < n
            invariant
                text@ == p,
                p == pad_even(s@),
                n == p.len() / 2,
                text_len == p.len(),
                p.len() % 2 == 0,
                i <= n,
                hex_bytes@.len() == i,
                forall|j: int| 0 <= j < 2 * i ==> is_hex_digit(#[trigger] p[j]),
                forall|j: int| 0 <= j < i ==> (#[trigger] hex_bytes@[j])@ == text_bytes(p)[j],
            decreases n - i,
        {
            let frag = text.substring_char(2 * i, 2 * i + 2);
            assert(frag@ =~= seq![p[2 * i as int], p[2 * i + 1]]);
            match HexByte::from_hex_str(frag) {
                Ok(b) => {
                    hex_bytes.push(b);
                },
                Err(e) => {
                    proof {
                        let off: int = if s@.len() % 2 == 1 { 1 } else { 0 };
                        let k: int = if !is_hex_digit(p[2 * i as int]) { 2 * i } else { 2 * i + 1 };
                        assert(!is_hex_digit(p[k]));
                        assert(k >= off);
                        assert(p[k] == s@[k - off]);
                        assert forall|j: int| 0 <= j < k - off implies is_hex_digit(s@[j]) by {
                            assert(p[j + off] == s@[j]);
                        }
                        assert(first_non_hex_at(s@, k - off));
                    }
                    return Err(e);
                },
            }
            i = i + 1;
        }
        proof {
            let off: int = if s@.len() % 2 == 1 { 1 } else { 0 };
            assert forall|j: int| 0 <= j < s@.len() implies is_hex_digit(#[trigger] s@[j]) by {
                assert(p[j + off] == s@[j]);
            }
            assert(unit_values(hex_bytes@) =~= text_bytes(p));
        }
        let r = HexString::from_hex_bytes(hex_bytes, source_endianness, target_endianness);
        assert(r@ =~= oriented(text_bytes(p), source_endianness, target_endianness));
        Ok(r)
    }

    /// One unit per character of `s` (the low byte of its code point), laid
    /// out in `source_endianness` order.
    pub fn from_str(s: &str, source_endianness: Endianness, target_endianness: Endianness) -> (r:
        HexString)
        ensures
            r.endianness == target_endianness,
            r@ == oriented(s@.map_values(|c: char| char_byte(c)), source_endianness, target_endianness),
    {
        let n = s.unicode_len();
        let mut hex_bytes: Vec<HexByte> = Vec::with_capacity(n);
        let mut i: usize = 0;
        while i < n
            invariant
                n == s@.len(),
                i <= n,
                hex_bytes@.len() == i,
                forall|j: int| 0 <= j < i ==> (#[trigger] hex_bytes@[j])@ == char_byte(s@[j]),
            decreases n - i,
        {
            let c = s.get_char(i);
            hex_bytes.push(HexByte::from(c));
            i = i + 1;
        }
        assert(unit_values(hex_bytes@) =~= s@.map_values(|c: char| char_byte(c)));
        let r = HexString::from_hex_bytes(hex_bytes, source_endianness, target_endianness);
        assert(r@ =~= oriented(
            s@.map_values(|c: char| char_byte(c)),
            source_endianness,
            target_endianness,
        ));
        r
    }
}

/// The needle's units stand in the haystack from offset `i` on.
pub open spec fn matches_at(haystack: Seq<HexByte>, needle: Seq<HexByte>, i: int) -> bool {
    0 <= i && i + needle.len() <= haystack.len() && haystack.subrange(i, i + needle.len())
        == needle
}

/// The offsets below `end` at which the needle stands, ascending.
pub open spec fn offsets_before(haystack: Seq<HexByte>, needle: Seq<HexByte>, end: int) -> Seq<
    usize,
>
    decreases end,
{
    if end <= 0 {
        seq![]
    } else if matches_at(haystack, needle, end - 1) {
        offsets_before(haystack, needle, end - 1).push((end - 1) as usize)
    } else {
        offsets_before(haystack, needle, end - 1)
    }
}

/// Every offset at which a non-empty needle stands in the haystack, ascending;
/// none for an empty needle or one longer than the haystack.
pub open spec fn all_offsets(haystack: Seq<HexByte>, needle: Seq<HexByte>) -> Seq<usize> {
    if needle.len() == 0 || needle.len() > haystack.len() {
        seq![]
    } else {
        offsets_before(haystack, needle, haystack.len() - needle.len() + 1)
    }
}

/// The texts of the bytes of `s`, joined in order.
pub open spec fn text_of(s: Seq<u8>) -> Seq<char>
    decreases s.len(),
{
    if s.len() == 0 {
        seq![]
    } else {
        text_of(s.drop_last()) + byte_text(s.last())
    }
}

/// The number that bytes `s` stand for, most significant first.
pub open spec fn be_value(s: Seq<u8>) -> nat
    decreases s.len(),
{
    if s.len() == 0 {
        0
    } else {
        be_value(s.drop_last()) * 256 + s.last() as nat
    }
}

/// What `as_usize` gives for bytes `s`, most significant first: nothing for no
/// bytes or for a number above `usize::MAX`.
pub open spec fn usize_of(s: Seq<u8>) -> Option<usize> {
    if s.len() == 0 || be_value(s) > usize::MAX {
        None
    } else {
        Some(be_value(s) as usize)
    }
}

proof fn lemma_be_value_grows(s: Seq<u8>, i: int)
    requires
        0 <= i <= s.len(),
    ensures
        be_value(s.take(i)) <= be_value(s),
    decreases s.len() - i,
{
    if i < s.len() {
        lemma_be_value_grows(s, i + 1);
        assert(s.take(i + 1).drop_last() =~= s.take(i));
    } else {
        assert(s.take(i) =~= s);
    }
}

proof fn lemma_oriented_values(s: Seq<HexByte>, a: Endianness, b: Endianness)
    ensures
        unit_values(oriented(s, a, b)) == oriented(unit_values(s), a, b),
{
    assert(unit_values(oriented(s, a, b)) =~= oriented(unit_values(s), a, b));
}

impl HexString {
    /// Every offset, ascending, at which `needle` (first re-laid in this
    /// string's byte order) stands among this string's units.
    pub fn get_offsets(&self, needle: HexString) -> (r: Vec<usize>)
        ensures
            r@ == all_offsets(
                self.hex_bytes@,
                oriented(needle.hex_bytes@, needle.endianness, self.endianness),
            ),
            needle.hex_bytes@.len() == 0 || needle.hex_bytes@.len() > self.hex_bytes@.len()
                ==> r@.len() == 0,
    {
        let mut matches: Vec<usize> = Vec::new();
        let n = self.hex_bytes.len();
        let m = needle.hex_bytes.len();
        if m == 0 || n < m {
            return matches;
        }
        let needle = needle.as_endianness(self.endianness);
        let ghost hay = self.hex_bytes@;
        let ghost nd = needle.hex_bytes@;
        let mut i: usize = 0;
        while i <= n - m
            invariant
                hay == self.hex_bytes@,
                nd == needle.hex_bytes@,
                n == hay.len(),
                m == nd.len(),
                0 < m <= n,
                i <= n - m + 1,
                matches@ == offsets_before(hay, nd, i as int),
            decreases n - m + 1 - i,
        {
            let mut matched = true;
            let mut j: usize = 0;
            while j < m
                invariant
                    hay == self.hex_bytes@,
                    nd == needle.hex_bytes@,
                    n == hay.len(),
                    m == nd.len(),
                    i + m <= n,
                    j <= m,
                    matched ==> forall|k: int| 0 <= k < j ==> hay[i + k] == nd[k],
                    !matched ==> !matches_at(hay, nd, i as int),
                decreases m - j,
            {
                if self.hex_bytes[i + j] != needle.hex_bytes[j] {
                    matched = false;
                    assert(hay.subrange(i as int, i + m)[j as int] != nd[j as int]);
                }
                j = j + 1;
            }
            if matched {
                assert(hay.subrange(i as int, i + m) =~= nd);
                matches.push(i);
            }
            i = i + 1;
        }
        matches
    }

    /// The units' texts joined, in `endianness` order.
    pub fn as_hex_string(self, endianness: Endianness) -> (r: String)
        ensures
            r@ == text_of(oriented(self@, self.endianness, endianness)),
    {
        proof {
            lemma_oriented_values(self.hex_bytes@, self.endianness, endianness);
        }
        let hex_string = self.as_endianness(endianness);
        let ghost units = hex_string@;
        let mut result = String::new();
        let mut i: usize = 0;
        while i < hex_string.hex_bytes.len()
            invariant
                units == hex_string@,
                i <= units.len(),
                result@ == text_of(units.take(i as int)),
            decreases units.len() - i,
        {
            let text = hex_string.hex_bytes[i].to_string();
            result.append(text.as_str());
            assert(units.take(i + 1).drop_last() =~= units.take(i as int));
            i = i + 1;
        }
        assert(units.take(i as int) =~= units);
        result
    }

    /// The number that the units stand for, read most significant byte first;
    /// `None` when there are no units or the number exceeds `usize::MAX`.
    pub fn as_usize(self) -> (r: Option<usize>)
        ensures
            r == usize_of(oriented(self@, self.endianness, Endianness::Big)),
    {
        proof {
            lemma_oriented_values(self.hex_bytes@, self.endianness, Endianness::Big);
        }
        let ghost want = oriented(self@, self.endianness, Endianness::Big);
        let big = self.as_endianness(Endianness::Big);
        let ghost units = big@;
        assert(units == want);
        if big.hex_bytes.len() == 0 {
            return None;
        }
        let mut value: usize = 0;
        let mut i: usize = 0;
        while i < big.hex_bytes.len()
            invariant
                units == big@,
                units == want,
                want == oriented(self@, self.endianness, Endianness::Big),
                i <= units.len(),
                value as nat == be_value(units.take(i as int)),
            decreases units.len() - i,
        {
            let byte = big.hex_bytes[i].value as usize;
            assert(units.take(i + 1).drop_last() =~= units.take(i as int));
            assert(be_value(units.take(i + 1)) == value as nat * 256 + byte);
            match value.checked_mul(256) {
                Some(shifted) => match shifted.checked_add(byte) {
                    Some(next) => {
                        value = next;
                    },
                    None => {
                        proof {
                            lemma_be_value_grows(units, i + 1);
                        }
                        return None;
                    },
                },
                None => {
                    proof {
                        lemma_be_value_grows(units, i + 1);
                    }
                    return None;
                },
            }
            i = i + 1;
        }
        assert(units.take(i as int) =~= units);
        Some(value)
    }
}

} // verus!
