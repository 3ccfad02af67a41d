//! Character classes and per-character Unicode mappings used by the built-in
//! normalizers.

use vstd::prelude::*;
use vstd::utf8::valid_utf8;

verus! {

/// The lowercase form of a character.
pub uninterp spec fn lower_of(c: char) -> Seq<char>;

/// The uppercase form of a character.
pub uninterp spec fn upper_of(c: char) -> Seq<char>;

/// The canonical combining class of a character (0 for a starter).
pub uninterp spec fn combining_class_of(c: char) -> u8;

/// The NFD form of a text.
pub uninterp spec fn nfd_of(s: Seq<char>) -> Seq<char>;

/// The NFKD form of a text.
pub uninterp spec fn nfkd_of(s: Seq<char>) -> Seq<char>;

/// The NFC form of a text.
pub uninterp spec fn nfc_of(s: Seq<char>) -> Seq<char>;

/// The NFKC form of a text.
pub uninterp spec fn nfkc_of(s: Seq<char>) -> Seq<char>;

/// Whether a character has the Unicode general category Mark.
pub uninterp spec fn is_mark(c: char) -> bool;

/// Relies on `char::to_lowercase`: the characters of the lowercase mapping of `c`,
/// which depends on `c` alone.
#[verifier::external_body]
pub(crate) fn lowercase_char(c: char) -> (r: Vec<char>)
    ensures
        r@ == lower_of(c),
{
    c.to_lowercase().collect()
}

/// Relies on `char::to_uppercase`: the characters of the uppercase mapping of `c`,
/// which depends on `c` alone.
#[verifier::external_body]
pub(crate) fn uppercase_char(c: char) -> (r: Vec<char>)
    ensures
        r@ == upper_of(c),
{
    c.to_uppercase().collect()
}

/// Relies on `tokenizers::NormalizedString::nfd`: the NFD form of the text `s`,
/// which depends on `s` alone.
#[verifier::external_body]
pub(crate) fn nfd_text(s: &Vec<char>) -> (r: Vec<char>)
    ensures
        r@ == nfd_of(s@),
{
    let mut n = tokenizers::NormalizedString::from(s.iter().collect::<String>());
    n.nfd();
    n.get().chars().collect()
}

/// Relies on `tokenizers::NormalizedString::nfkd`: the NFKD form of the text `s`,
/// which depends on `s` alone.
#[verifier::external_body]
pub(crate) fn nfkd_text(s: &Vec<char>) -> (r: Vec<char>)
    ensures
        r@ == nfkd_of(s@),
{
    let mut n = tokenizers::NormalizedString::from(s.iter().collect::<String>());
    n.nfkd();
    n.get().chars().collect()
}

/// Relies on `tokenizers::NormalizedString::nfc`: the NFC form of the text `s`,
/// which depends on `s` alone.
#[verifier::external_body]
pub(crate) fn nfc_text(s: &Vec<char>) -> (r: Vec<char>)
    ensures
        r@ == nfc_of(s@),
{
    let mut n = tokenizers::NormalizedString::from(s.iter().collect::<String>());
    n.nfc();
    n.get().chars().collect()
}

/// Relies on `tokenizers::NormalizedString::nfkc`: the NFKC form of the text `s`,
/// which depends on `s` alone.
#[verifier::external_body]
pub(crate) fn nfkc_text(s: &Vec<char>) -> (r: Vec<char>)
    ensures
        r@ == nfkc_of(s@),
{
    let mut n = tokenizers::NormalizedString::from(s.iter().collect::<String>());
    n.nfkc();
    n.get().chars().collect()
}

/// Relies on `unicode_normalization_alignments::char::canonical_combining_class`.
#[verifier::external_body]
pub(crate) fn combining_class(c: char) -> (r: u8)
    ensures
        r == combining_class_of(c),
{
    unicode_normalization_alignments::char::canonical_combining_class(c)
}

/// Relies on `unicode_normalization_alignments::char::is_combining_mark`, the test
/// that the accent-stripping normalizer of tokenizers uses.
#[verifier::external_body]
pub(crate) fn combining_mark(c: char) -> (r: bool)
    ensures
        r == is_mark(c),
{
    unicode_normalization_alignments::char::is_combining_mark(c)
}

/// The case map of `c` reduced to one character: the mapped character where
/// `full` maps `c` to exactly one character `d` that `full_of_d` maps to itself,
/// and `c` otherwise.
pub open spec fn stable_single(c: char, full: Seq<char>, full_of_d: Seq<char>) -> char {
    if full.len() == 1 && full_of_d == seq![full[0]] {
        full[0]
    } else {
        c
    }
}

/// The one-character lowercase map: `c`'s lowercase form where it is one
/// character that is its own lowercase form, else `c` unchanged.
pub open spec fn simple_lower(c: char) -> char {
    stable_single(c, lower_of(c), if lower_of(c).len() == 1 { lower_of(lower_of(c)[0]) } else { Seq::empty() })
}

/// The one-character uppercase map, in the same way as `simple_lower`.
pub open spec fn simple_upper(c: char) -> char {
    stable_single(c, upper_of(c), if upper_of(c).len() == 1 { upper_of(upper_of(c)[0]) } else { Seq::empty() })
}

/// Maps `c` by `simple_lower`.
pub fn lower_one(c: char) -> (r: char)
    ensures
        r == simple_lower(c),
{
    let l = lowercase_char(c);
    if l.len() == 1 {
        let ll = lowercase_char(l[0]);
        if ll.len() == 1 && ll[0] == l[0] {
            proof {
                assert(ll@ =~= seq![l@[0]]);
            }
            return l[0];
        }
    }
    c
}

/// Maps `c` by `simple_upper`.
pub fn upper_one(c: char) -> (r: char)
    ensures
        r == simple_upper(c),
{
    let u = uppercase_char(c);
    if u.len() == 1 {
        let uu = uppercase_char(u[0]);
        if uu.len() == 1 && uu[0] == u[0] {
            proof {
                assert(uu@ =~= seq![u@[0]]);
            }
            return u[0];
        }
    }
    c
}

/// Mapping by `simple_lower` a second time changes nothing.
pub proof fn lemma_simple_lower_idempotent(c: char)
    ensures
        simple_lower(simple_lower(c)) == simple_lower(c),
{
}

/// Mapping by `simple_upper` a second time changes nothing.
pub proof fn lemma_simple_upper_idempotent(c: char)
    ensures
        simple_upper(simple_upper(c)) == simple_upper(c),
{
}

/// Unicode `White_Space`, the class that `char::is_whitespace` tests.
pub open spec fn spec_is_whitespace(c: char) -> bool {
    let u = c as u32;
    (0x9 <= u && u <= 0xd) || u == 0x20 || u == 0x85 || u == 0xa0 || u == 0x1680 || (0x2000 <= u
        && u <= 0x200a) || u == 0x2028 || u == 0x2029 || u == 0x202f || u == 0x205f || u == 0x3000
}

/// General category `Cc`, the class that `char::is_control` tests.
pub open spec fn spec_is_control(c: char) -> bool {
    let u = c as u32;
    u <= 0x1f || (0x7f <= u && u <= 0x9f)
}

/// Whether `c` is a whitespace character.
pub fn is_whitespace(c: char) -> (r: bool)
    ensures
        r == spec_is_whitespace(c),
{
    let u = c as u32;
    (0x9 <= u && u <= 0xd) || u == 0x20 || u == 0x85 || u == 0xa0 || u == 0x1680 || (0x2000 <= u
        && u <= 0x200a) || u == 0x2028 || u == 0x2029 || u == 0x202f || u == 0x205f || u == 0x3000
}

/// Whether `c` is a control character.
pub fn is_control(c: char) -> (r: bool)
    ensures
        r == spec_is_control(c),
{
    let u = c as u32;
    u <= 0x1f || (0x7f <= u && u <= 0x9f)
}

/// Relies on `std::str::from_utf8`: `Ok` with the encoded text exactly when the
/// bytes are valid UTF-8.
#[verifier::external_body]
pub(crate) fn decode_utf8(b: &[u8]) -> (r: Option<&str>)
    ensures
        match r {
            Some(s) => valid_utf8(b@) && s@ == vstd::utf8::decode_utf8(b@),
            None => !valid_utf8(b@),
        },
{
    std::str::from_utf8(b).ok()
}

} // verus!
