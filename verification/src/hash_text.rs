//! Hash strings: `sha256:` followed by the lowercase hex digits of a digest.
use vstd::prelude::*;
use vstd::string::*;
use vstd::utf8::*;

verus! {

broadcast use vstd::utf8::is_ascii_chars_encode_utf8;

/// The text every hash string starts with.
pub open spec fn sha256_prefix() -> Seq<char> {
    seq!['s', 'h', 'a', '2', '5', '6', ':']
}

/// Lowercase hex digit of a value below 16.
pub open spec fn hex_digit(n: int) -> char {
    if n < 10 {
        (48 + n) as char
    } else {
        (87 + n) as char
    }
}

/// Whether a character is a hex digit, in either case.
pub open spec fn is_hex_digit(c: char) -> bool {
    ('0' <= c <= '9') || ('a' <= c <= 'f') || ('A' <= c <= 'F')
}

/// Whether a character is a lowercase hex digit.
pub open spec fn is_lower_hex_digit(c: char) -> bool {
    ('0' <= c <= '9') || ('a' <= c <= 'f')
}

/// The value of a lowercase hex digit.
pub open spec fn hex_value(c: char) -> int {
    if c <= '9' {
        c as int - 48
    } else {
        c as int - 87
    }
}

/// Lowercase hex text of a byte string: two digits per byte, high nibble
/// first.
pub open spec fn hex_text(bytes: Seq<u8>) -> Seq<char>
    decreases bytes.len(),
{
    if bytes.len() == 0 {
        seq![]
    } else {
        seq![hex_digit(bytes[0] as int / 16), hex_digit(bytes[0] as int % 16)] + hex_text(bytes.drop_first())
    }
}

/// The bytes that a lowercase hex text spells, two digits per byte.
pub open spec fn hex_bytes(text: Seq<char>) -> Seq<u8>
    decreases text.len(),
{
    if text.len() < 2 {
        seq![]
    } else {
        seq![(16 * hex_value(text[0]) + hex_value(text[1])) as u8] + hex_bytes(text.skip(2))
    }
}

/// The hash string naming a raw digest: defined for 32-byte digests only.
pub open spec fn sha256_text(bytes: Seq<u8>) -> Option<Seq<char>> {
    if bytes.len() == 32 {
        Some(sha256_prefix() + hex_text(bytes))
    } else {
        None
    }
}

/// Whether a string has the shape that upload certificates are issued for:
/// `sha256:` followed by exactly 64 hex digits (of either case).
pub open spec fn well_formed_hash(text: Seq<char>) -> bool {
    &&& text.len() == 71
    &&& text.subrange(0, 7) == sha256_prefix()
    &&& forall|i: int| 7 <= i < 71 ==> is_hex_digit(#[trigger] text[i])
}

/// A well-formed hash string whose digits are lowercase, as the hash
/// strings made from digests are.
pub open spec fn lowercase_hash(text: Seq<char>) -> bool {
    &&& well_formed_hash(text)
    &&& forall|i: int| 7 <= i < 71 ==> is_lower_hex_digit(#[trigger] text[i])
}

proof fn lemma_hex_digit(n: int)
    requires
        0 <= n < 16,
    ensures
        is_lower_hex_digit(hex_digit(n)),
        hex_value(hex_digit(n)) == n,
{
    if n < 10 {
        assert(((48 + n) as char) as int == 48 + n);
    } else {
        assert(((87 + n) as char) as int == 87 + n);
    }
}

proof fn lemma_hex_value(c: char)
    requires
        is_lower_hex_digit(c),
    ensures
        0 <= hex_value(c) < 16,
        hex_digit(hex_value(c)) == c,
{
    let v = hex_value(c);
    if c <= '9' {
        assert((v + 48) as char == c);
    } else {
        assert((v + 87) as char == c);
    }
}

/// The hex text of `n` bytes is `2 n` lowercase hex digits.
pub proof fn lemma_hex_text_shape(bytes: Seq<u8>)
    ensures
        hex_text(bytes).len() == 2 * bytes.len(),
        forall|i: int|
            0 <= i < hex_text(bytes).len() ==> is_lower_hex_digit(#[trigger] hex_text(bytes)[i]),
        is_ascii_chars(hex_text(bytes)),
    decreases bytes.len(),
{
    if bytes.len() > 0 {
        lemma_hex_text_shape(bytes.drop_first());
        let rest = hex_text(bytes.drop_first());
        lemma_hex_digit(bytes[0] as int / 16);
        lemma_hex_digit(bytes[0] as int % 16);
        assert forall|i: int| 0 <= i < hex_text(bytes).len() implies is_lower_hex_digit(
            #[trigger] hex_text(bytes)[i],
        ) by {
            if i >= 2 {
                assert(hex_text(bytes)[i] == rest[i - 2]);
            }
        }
        assert forall|i: int| 0 <= i < hex_text(bytes).len() implies '\0' <= #[trigger] hex_text(
            bytes,
        )[i] <= '\u{7f}' by {
            assert(is_lower_hex_digit(hex_text(bytes)[i]));
        }
    }
}

/// Reading the hex text back gives the bytes it was made from.
pub proof fn lemma_hex_bytes_of_hex_text(bytes: Seq<u8>)
    ensures
        hex_bytes(hex_text(bytes)) == bytes,
    decreases bytes.len(),
{
    if bytes.len() > 0 {
        let b = bytes[0] as int;
        lemma_hex_digit(b / 16);
        lemma_hex_digit(b % 16);
        let t = hex_text(bytes);
        assert(t.skip(2) =~= hex_text(bytes.drop_first()));
        lemma_hex_bytes_of_hex_text(bytes.drop_first());
        assert(16 * (b / 16) + b % 16 == b);
        assert(bytes =~= seq![bytes[0]] + bytes.drop_first());
    } else {
        assert(hex_bytes(hex_text(bytes)) =~= bytes);
    }
}

/// A text of lowercase hex digit pairs is the hex text of the bytes it
/// spells.
pub proof fn lemma_hex_text_of_hex_bytes(text: Seq<char>)
    requires
        text.len() % 2 == 0,
        forall|i: int| 0 <= i < text.len() ==> is_lower_hex_digit(#[trigger] text[i]),
    ensures
        hex_text(hex_bytes(text)) == text,
        hex_bytes(text).len() * 2 == text.len(),
    decreases text.len(),
{
    if text.len() >= 2 {
        let hi = hex_value(text[0]);
        let lo = hex_value(text[1]);
        lemma_hex_value(text[0]);
        lemma_hex_value(text[1]);
        let v = 16 * hi + lo;
        assert(0 <= v < 256);
        assert(v / 16 == hi && v % 16 == lo);
        let rest = text.skip(2);
        assert forall|i: int| 0 <= i < rest.len() implies is_lower_hex_digit(#[trigger] rest[i]) by {
            assert(rest[i] == text[i + 2]);
        }
        lemma_hex_text_of_hex_bytes(rest);
        let bs = hex_bytes(text);
        assert(bs[0] as int == v);
        assert(bs.drop_first() =~= hex_bytes(rest));
        assert(text =~= seq![text[0], text[1]] + rest);
    } else {
        assert(text =~= Seq::<char>::empty());
    }
}

/// Distinct byte strings have distinct hex texts.
pub proof fn lemma_hex_text_injective(a: Seq<u8>, b: Seq<u8>)
    requires
        hex_text(a) == hex_text(b),
    ensures
        a == b,
{
    lemma_hex_bytes_of_hex_text(a);
    lemma_hex_bytes_of_hex_text(b);
}

/// A hash string made from a 32-byte digest is 71 ASCII characters long and
/// has the shape that upload certificates are issued for.
pub proof fn lemma_sha256_text_well_formed(bytes: Seq<u8>)
    requires
        bytes.len() == 32,
    ensures
        sha256_text(bytes) matches Some(t) && t.len() == 71 && is_ascii_chars(t)
            && lowercase_hash(t) && encode_utf8(t).len() == 71,
{
    lemma_hex_text_shape(bytes);
    let t = sha256_prefix() + hex_text(bytes);
    assert(t.subrange(0, 7) =~= sha256_prefix());
    assert forall|i: int| 7 <= i < 71 implies is_lower_hex_digit(#[trigger] t[i]) by {
        assert(t[i] == hex_text(bytes)[i - 7]);
    }
    assert forall|i: int| 7 <= i < 71 implies is_hex_digit(#[trigger] t[i]) by {
        assert(is_lower_hex_digit(t[i]));
    }
    assert forall|i: int| 0 <= i < t.len() implies '\0' <= #[trigger] t[i] <= '\u{7f}' by {
        if i >= 7 {
            assert(t[i] == hex_text(bytes)[i - 7]);
        }
    }
}

/// Every lowercase hash string names exactly one digest: the 32 bytes its
/// hex digits spell.
pub proof fn lemma_well_formed_hash_names_digest(text: Seq<char>)
    requires
        lowercase_hash(text),
    ensures
        hex_bytes(text.skip(7)).len() == 32,
        sha256_text(hex_bytes(text.skip(7))) == Some(text),
        forall|d: Seq<u8>| sha256_text(d) == Some(text) ==> d == hex_bytes(text.skip(7)),
        is_ascii_chars(text),
        encode_utf8(text).len() == 71,
{
    let digits = text.skip(7);
    assert forall|i: int| 0 <= i < digits.len() implies is_lower_hex_digit(#[trigger] digits[i]) by {
        assert(digits[i] == text[i + 7]);
    }
    lemma_hex_text_of_hex_bytes(digits);
    assert(text =~= sha256_prefix() + digits);
    assert forall|d: Seq<u8>| sha256_text(d) == Some(text) implies d == hex_bytes(digits) by {
        assert((sha256_prefix() + hex_text(d)).skip(7) =~= hex_text(d));
        lemma_hex_text_injective(d, hex_bytes(digits));
    }
    assert forall|i: int| 0 <= i < text.len() implies '\0' <= #[trigger] text[i] <= '\u{7f}' by {
        if i >= 7 {
            assert(is_hex_digit(text[i]));
        } else {
            assert(text[i] == sha256_prefix()[i]);
        }
    }
    assert(is_ascii_chars(text));
}

/// `hex::encode`: the lowercase hex text of the bytes, two digits per byte
/// (as the crate documents it).
#[verifier::external_body]
fn hex_encode(bytes: &[u8]) -> (r: String)
    ensures
        r@ == hex_text(bytes@),
{
    hex::encode(bytes)
}

/// The hash string naming a raw 32-byte digest, or `None` for a byte string
/// of any other length.
pub fn bytes_to_sha256_string(bytes: &[u8]) -> (r: Option<String>)
    ensures
        r matches Some(s) ==> sha256_text(bytes@) == Some(s@),
        r is None <==> sha256_text(bytes@) is None,
{
    if bytes.len() == 32 {
        let hex = hex_encode(bytes);
        let mut text = String::from_str("sha256:");
        proof {
            reveal_strlit("sha256:");
        }
        text.append(hex.as_str());
        assert(text@ =~= sha256_prefix() + hex_text(bytes@));
        Some(text)
    } else {
        None
    }
}

/// Whether the string starts with `sha256:`.
pub fn has_sha256_prefix(text: &str) -> (r: bool)
    ensures
        r == (text@.len() >= 7 && text@.subrange(0, 7) == sha256_prefix()),
{
    let n = text.unicode_len();
    if n < 7 {
        return false;
    }
    let prefix = "sha256:";
    proof {
        reveal_strlit("sha256:");
    }
    let mut i: usize = 0;
    while i < 7
        invariant
            i <= 7,
            n == text@.len(),
            7 <= n,
            prefix@ == sha256_prefix(),
            text@.subrange(0, i as int) == sha256_prefix().subrange(0, i as int),
        decreases 7 - i,
    {
        if text.get_char(i) != prefix.get_char(i) {
            assert(text@.subrange(0, 7)[i as int] != sha256_prefix()[i as int]);
            return false;
        }
        assert(text@.subrange(0, i + 1) =~= text@.subrange(0, i as int).push(text@[i as int]));
        assert(sha256_prefix().subrange(0, i + 1) =~= sha256_prefix().subrange(0, i as int).push(
            sha256_prefix()[i as int],
        ));
        i = i + 1;
    }
    assert(sha256_prefix().subrange(0, 7) =~= sha256_prefix());
    true
}

/// Whether the character is a hex digit, in either case.
pub fn is_hex_char(c: char) -> (r: bool)
    ensures
        r == is_hex_digit(c),
{
    ('0' <= c && c <= '9') || ('a' <= c && c <= 'f') || ('A' <= c && c <= 'F')
}

/// Whether the string has the shape that upload certificates are issued
/// for: `sha256:` followed by exactly 64 hex digits (of either case).
pub fn is_well_formed_hash(text: &str) -> (r: bool)
    ensures
        r == well_formed_hash(text@),
{
    if !has_sha256_prefix(text) || text.unicode_len() != 71 {
        return false;
    }
    let mut i: usize = 7;
    while i < 71
        invariant
            7 <= i <= 71,
            text@.len() == 71,
            forall|j: int| 7 <= j < i ==> is_hex_digit(#[trigger] text@[j]),
        decreases 71 - i,
    {
        if !is_hex_char(text.get_char(i)) {
            return false;
        }
        i = i + 1;
    }
    true
}

} // verus!
