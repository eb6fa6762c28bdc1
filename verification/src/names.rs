//! Short (8.3) names: how a name is laid out in the 11 bytes of a directory
//! entry, how a stored name is shown, and the small text helpers that the
//! commands use.

use vstd::prelude::*;
use vstd::string::StringSliceAdditionalSpecFns;
use vstd::utf8::{decode_utf8, valid_utf8};
use crate::fat32::FAT32;

verus! {

/// The number of bytes of a stored name.
pub const NAME_SIZE: usize = 11;

/// The ASCII space that pads a stored name.
pub const SPACE: u8 = 0x20;

/// The ASCII full stop that parts base and extension.
pub const DOT: u8 = 0x2E;

/// The ASCII plus sign.
pub const PLUS: u8 = 0x2B;

/// The UTF-8 bytes of a string slice.
pub open spec fn str_bytes(s: &str) -> Seq<u8> {
    s.spec_bytes()
}

/// The upper-case form of an ASCII letter; any other byte as it is.
pub open spec fn upper(b: u8) -> u8 {
    if 0x61 <= b <= 0x7A {
        (b - 0x20) as u8
    } else {
        b
    }
}

/// The index of the first full stop at or after `from`, or the length where
/// there is none.
pub open spec fn first_dot_from(name: Seq<u8>, from: int) -> int
    decreases name.len() - from,
{
    if from >= name.len() {
        name.len() as int
    } else if name[from] == DOT {
        from
    } else {
        first_dot_from(name, from + 1)
    }
}

/// The index of the first full stop, or the length where there is none.
pub open spec fn first_dot(name: Seq<u8>) -> int {
    first_dot_from(name, 0)
}

/// The stored name of the entries `.` and `..` that every directory but the
/// root begins with: `dots` full stops, padded with spaces.
pub open spec fn dot_name(dots: int) -> Seq<u8> {
    Seq::new(NAME_SIZE as nat, |i: int| if i < dots { DOT } else { SPACE })
}

/// The 11 bytes under which a name is stored. The ASCII letters of the name
/// are put in upper case, every other byte stays as it is, and the name is
/// parted at its first full stop; the base fills the first eight bytes and
/// the extension the last three, each cut to its field and padded with
/// spaces. The rule holds for every name: `.` has an empty base and an empty
/// extension and is stored as eleven spaces.
pub open spec fn short_name(name: Seq<u8>) -> Seq<u8> {
    let d = first_dot(name);
    Seq::new(
        NAME_SIZE as nat,
        |i: int|
            if i < 8 {
                if i < d {
                    upper(name[i])
                } else {
                    SPACE
                }
            } else {
                if d + 1 + (i - 8) < name.len() {
                    upper(name[d + 1 + (i - 8)])
                } else {
                    SPACE
                }
            },
    )
}

/// The length of the first `n` bytes of a stored name once the spaces and
/// NUL bytes at their end are dropped.
pub open spec fn trimmed_len(raw: Seq<u8>, n: int) -> int
    decreases n,
{
    if n <= 0 {
        0
    } else if raw[n - 1] == SPACE || raw[n - 1] == 0 {
        trimmed_len(raw, n - 1)
    } else {
        n
    }
}

/// The bytes of a stored name as they are shown: without the spaces and NUL
/// bytes at the end. No full stop is put back.
pub open spec fn display_bytes(raw: Seq<u8>) -> Seq<u8> {
    raw.take(trimmed_len(raw, raw.len() as int))
}

/// The text that `String::from_utf8_lossy` makes of a byte sequence.
pub uninterp spec fn lossy_text(bytes: Seq<u8>) -> Seq<char>;

/// The text under which a stored name is shown and under which an open file
/// is keyed.
pub open spec fn display_text(raw: Seq<u8>) -> Seq<char> {
    lossy_text(display_bytes(raw))
}

/// ASCII decimal digit.
pub open spec fn is_digit(b: u8) -> bool {
    0x30 <= b <= 0x39
}

/// The number that a sequence of decimal digits writes.
pub open spec fn decimal_value(digits: Seq<u8>) -> nat
    decreases digits.len(),
{
    if digits.len() == 0 {
        0
    } else {
        (decimal_value(digits.drop_last()) * 10 + (digits.last() - 0x30)) as nat
    }
}

/// Every byte is a decimal digit.
pub open spec fn all_digits(digits: Seq<u8>) -> bool {
    forall|i: int| 0 <= i < digits.len() ==> is_digit(#[trigger] digits[i])
}

/// A text without the plus sign that may stand at its start.
pub open spec fn unsigned_part(text: Seq<u8>) -> Seq<u8> {
    if text.len() > 0 && text[0] == PLUS {
        text.skip(1)
    } else {
        text
    }
}

/// The 32-bit number that a text writes in decimal: an optional plus sign,
/// then one digit or more, with a value of at most `u32::MAX`.
pub open spec fn parse_decimal(text: Seq<u8>) -> Option<u32> {
    let digits = unsigned_part(text);
    if digits.len() > 0 && all_digits(digits) && decimal_value(digits) <= u32::MAX {
        Some(decimal_value(digits) as u32)
    } else {
        None
    }
}

/// Where the search for the first full stop stands once every byte before
/// `d` has been seen not to be one.
pub proof fn lemma_first_dot(name: Seq<u8>, from: int, d: int)
    requires
        0 <= from <= d <= name.len(),
        forall|i: int| from <= i < d ==> name[i] != DOT,
        d == name.len() || name[d] == DOT,
    ensures
        first_dot_from(name, from) == d,
    decreases d - from,
{
    if from < d {
        lemma_first_dot(name, from + 1, d);
    }
}

/// The first full stop lies inside the name or at its end, and no byte
/// before it is a full stop.
pub proof fn lemma_first_dot_is_first(name: Seq<u8>, from: int)
    requires
        0 <= from <= name.len(),
    ensures
        from <= first_dot_from(name, from) <= name.len(),
        forall|i: int| from <= i < first_dot_from(name, from) ==> name[i] != DOT,
        first_dot_from(name, from) < name.len() ==> name[first_dot_from(name, from)] == DOT,
    decreases name.len() - from,
{
    if from < name.len() && name[from] != DOT {
        lemma_first_dot_is_first(name, from + 1);
    }
}

/// The value of the digits read so far never exceeds the value of the whole.
pub proof fn lemma_decimal_prefix(digits: Seq<u8>, k: int)
    requires
        0 <= k <= digits.len(),
        all_digits(digits),
    ensures
        decimal_value(digits.take(k)) <= decimal_value(digits),
    decreases digits.len() - k,
{
    if k < digits.len() {
        lemma_decimal_prefix(digits, k + 1);
        let longer = digits.take(k + 1);
        assert(longer.drop_last() =~= digits.take(k));
        assert(is_digit(digits[k]));
        assert(longer.last() == digits[k]);
    } else {
        assert(digits.take(k) =~= digits);
    }
}

/// Puts an ASCII letter in upper case.
pub fn to_upper(b: u8) -> (r: u8)
    ensures
        r == upper(b),
{
    if 0x61 <= b && b <= 0x7A {
        b - 0x20
    } else {
        b
    }
}

/// Whether two string slices hold the same text.
pub fn str_eq(a: &str, b: &str) -> (r: bool)
    ensures
        r == (a@ == b@),
{
    let x = a.as_bytes();
    let y = b.as_bytes();
    proof {
        vstd::utf8::encode_utf8_decode_utf8(a@);
        vstd::utf8::encode_utf8_decode_utf8(b@);
    }
    if x.len() != y.len() {
        return false;
    }
    let n = x.len();
    let mut i: usize = 0;
    while i < n
        invariant
            i <= n,
            n == x@.len(),
            n == y@.len(),
            x@ == str_bytes(a),
            y@ == str_bytes(b),
            forall|j: int| 0 <= j < i ==> x@[j] == y@[j],
        decreases n - i,
    {
        if x[i] != y[i] {
            return false;
        }
        i += 1;
    }
    assert(x@ =~= y@);
    true
}

/// Turns bytes into text with `String::from_utf8_lossy`: valid UTF-8 is
/// decoded as it is, and each invalid sequence becomes U+FFFD. The contract
/// names the result and states that valid UTF-8 decodes to its characters.
#[verifier::external_body]
fn text_of_bytes(bytes: &[u8]) -> (s: String)
    ensures
        s@ == lossy_text(bytes@),
        valid_utf8(bytes@) ==> s@ == decode_utf8(bytes@),
{
    String::from_utf8_lossy(bytes).into_owned()
}

/// The text under which a stored name is shown: the name without the spaces
/// and NUL bytes at its end.
pub fn format_name(name: &[u8]) -> (s: String)
    ensures
        s@ == display_text(name@),
        valid_utf8(display_bytes(name@)) ==> s@ == decode_utf8(display_bytes(name@)),
{
    let mut n: usize = name.len();
    while n > 0 && (name[n - 1] == SPACE || name[n - 1] == 0)
        invariant
            n <= name@.len(),
            trimmed_len(name@, name@.len() as int) == trimmed_len(name@, n as int),
        decreases n,
    {
        n -= 1;
    }
    let shown = vstd::slice::slice_subrange(name, 0, n);
    assert(shown@ =~= display_bytes(name@));
    text_of_bytes(shown)
}

/// Reads a 32-bit number written in decimal, as `str::parse::<u32>` does.
pub fn parse_u32(text: &str) -> (r: Option<u32>)
    ensures
        r == parse_decimal(str_bytes(text)),
{
    let bytes = text.as_bytes();
    let n = bytes.len();
    let start: usize = if n > 0 && bytes[0] == PLUS {
        1
    } else {
        0
    };
    let ghost digits = unsigned_part(bytes@);
    if start >= n {
        return None;
    }
    let mut value: u64 = 0;
    let mut i: usize = start;
    while i < n
        invariant
            start <= i <= n,
            start <= 1,
            n == bytes@.len(),
            bytes@ == str_bytes(text),
            digits == unsigned_part(bytes@),
            digits.len() == n - start,
            forall|j: int| 0 <= j < digits.len() ==> #[trigger] digits[j] == bytes@[start + j],
            all_digits(digits.take(i - start)),
            value == decimal_value(digits.take(i - start)),
            value <= u32::MAX,
        decreases n - i,
    {
        let b = bytes[i];
        if b < 0x30 || b > 0x39 {
            assert(!is_digit(digits[i - start]));
            return None;
        }
        let ghost longer = digits.take(i - start + 1);
        proof {
            assert(longer.drop_last() =~= digits.take(i - start));
            assert(longer.last() == b);
            assert forall|j: int| 0 <= j < longer.len() implies is_digit(#[trigger] longer[j]) by {
                if j < i - start {
                    assert(longer[j] == digits.take(i - start)[j]);
                }
            }
        }
        value = value * 10 + (b - 0x30) as u64;
        i += 1;
        if value > u32::MAX as u64 {
            proof {
                if all_digits(digits) {
                    lemma_decimal_prefix(digits, i - start);
                }
            }
            return None;
        }
    }
    assert(digits.take(i - start) =~= digits);
    Some(value as u32)
}

impl FAT32 {
    /// Lays a name out in the 11 bytes of a directory entry. Only the ASCII
    /// letters of the name are put in upper case.
    pub fn format_filename(&self, name: &str) -> (r: [u8; 11])
        ensures
            r@ == short_name(str_bytes(name)),
    {
        stored_name(name)
    }
}

/// The stored form of `.` (one dot) or `..` (two dots).
pub fn dot_entry_name(dots: usize) -> (r: [u8; 11])
    requires
        dots <= 2,
    ensures
        r@ == dot_name(dots as int),
{
    let mut out = [SPACE; 11];
    if dots >= 1 {
        out[0] = DOT;
    }
    if dots >= 2 {
        out[1] = DOT;
    }
    assert(out@ =~= dot_name(dots as int));
    out
}

/// Lays a name out in the 11 bytes of a directory entry. Only the ASCII
/// letters of the name are put in upper case.
pub fn stored_name(name: &str) -> (r: [u8; 11])
    ensures
        r@ == short_name(str_bytes(name)),
{
    let bytes = name.as_bytes();
    let n = bytes.len();
    let mut out = [SPACE; 11];
    let mut d: usize = 0;
    while d < n && bytes[d] != DOT
        invariant
            d <= n,
            n == bytes@.len(),
            forall|i: int| 0 <= i < d ==> bytes@[i] != DOT,
            out@ =~= dot_name(0),
        decreases n - d,
    {
        d += 1;
    }
    proof {
        lemma_first_dot(bytes@, 0, d as int);
    }
    let mut i: usize = 0;
    while i < 8 && i < d
        invariant
            i <= 8,
            i <= d <= n,
            n == bytes@.len(),
            first_dot(bytes@) == d,
            forall|j: int| 0 <= j < i ==> out@[j] == upper(bytes@[j]),
            forall|j: int| i <= j < 11 ==> out@[j] == SPACE,
        decreases 8 - i,
    {
        out[i] = to_upper(bytes[i]);
        i += 1;
    }
    let mut k: usize = 0;
    while k < 3 && d < n && k < n - d - 1
        invariant
            k <= 3,
            d <= n,
            k == 0 || d + k < n,
            n == bytes@.len(),
            first_dot(bytes@) == d,
            i <= 8,
            i <= d,
            i == 8 || i == d,
            forall|j: int| 0 <= j < i ==> out@[j] == upper(bytes@[j]),
            forall|j: int| i <= j < 8 ==> out@[j] == SPACE,
            forall|j: int| 8 <= j < 8 + k ==> out@[j] == upper(bytes@[d + 1 + (j - 8)]),
            forall|j: int| 8 + k <= j < 11 ==> out@[j] == SPACE,
        decreases 3 - k,
    {
        out[8 + k] = to_upper(bytes[d + 1 + k]);
        k += 1;
    }
    assert forall|j: int| 0 <= j < 11 implies out@[j] == short_name(bytes@)[j] by {
        if j >= 8 && j - 8 >= k {
            assert(d + 1 + (j - 8) >= n);
        }
    }
    assert(out@ =~= short_name(bytes@));
    out
}

} // verus!
