//! Decoding of text files of unknown encoding: UTF-8 (with or without a byte
//! order mark), UTF-16 announced by its byte order mark, lossy UTF-8 for
//! lightly damaged files, and Latin-1 as the last resort.
use vstd::prelude::*;
use vstd::utf8::{decode_utf8, valid_utf8};
use crate::error::VisionError;

verus! {

/// Number of occurrences of `target` in `s`.
pub open spec fn count_char(s: Seq<char>, target: char) -> nat
    decreases s.len(),
{
    if s.len() == 0 {
        0
    } else {
        count_char(s.drop_last(), target) + if s.last() == target { 1nat } else { 0nat }
    }
}

/// Counts the occurrences of `target` in `s`.
pub fn count_occurrences(s: &str, target: char) -> (r: usize)
    ensures
        r == count_char(s@, target),
{
    broadcast use vstd::string::group_string_axioms;

    let char_count = s.unicode_len();
    let mut n: usize = 0;
    for c in it: s.chars()
        invariant
            it.seq() == s@,
            char_count == s@.len(),
            n == count_char(it.seq().take(it.index() as int), target),
            n <= it.index(),
    {
        proof {
            assert(it.seq().take(it.index() + 1).drop_last() =~= it.seq().take(it.index() as int));
        }
        if c == target {
            n += 1;
        }
    }
    proof {
        assert(s@.take(s@.len() as int) =~= s@);
    }
    n
}

/// Each byte taken as the character with that code point (ISO-8859-1).
pub open spec fn latin1(bytes: Seq<u8>) -> Seq<char> {
    Seq::new(bytes.len(), |i: int| bytes[i] as char)
}

/// The text `String::from_utf8_lossy` makes of `bytes`.
pub uninterp spec fn utf8_lossy(bytes: Seq<u8>) -> Seq<char>;

/// The text `String::from_utf16` makes of `units`, or `None` where it
/// refuses them: a unit outside `0xD800..=0xDFFF` is that character, a high
/// surrogate followed by a low one is the character they encode, and any
/// other surrogate is refused.
pub open spec fn utf16_decoded(units: Seq<u16>) -> Option<Seq<char>>
    decreases units.len(),
{
    if units.len() == 0 {
        Some(seq![])
    } else {
        let u = units[0];
        if u < 0xD800 || u > 0xDFFF {
            match utf16_decoded(units.drop_first()) {
                Some(rest) => Some(seq![u as char] + rest),
                None => None,
            }
        } else if u <= 0xDBFF && units.len() >= 2 && 0xDC00 <= units[1] <= 0xDFFF {
            let c = 0x10000 + (u - 0xD800) * 0x400 + (units[1] - 0xDC00);
            match utf16_decoded(units.skip(2)) {
                Some(rest) => Some(seq![c as char] + rest),
                None => None,
            }
        } else {
            None
        }
    }
}

/// Whether `char::is_alphanumeric` holds of `c`.
pub uninterp spec fn unicode_alphanumeric(c: char) -> bool;

/// `std::str::from_utf8` followed by `to_string`: a string exactly when the
/// bytes are valid UTF-8, and then their decoding.
#[verifier::external_body]
fn utf8_text(bytes: &[u8]) -> (r: Option<String>)
    ensures
        r is Some <==> valid_utf8(bytes@),
        r matches Some(s) ==> s@ == decode_utf8(bytes@),
{
    std::str::from_utf8(bytes).ok().map(|s| s.to_string())
}

/// `String::from_utf8_lossy`, owned: the text is `utf8_lossy` of the bytes.
#[verifier::external_body]
fn utf8_lossy_text(bytes: &[u8]) -> (r: String)
    ensures
        r@ == utf8_lossy(bytes@),
{
    String::from_utf8_lossy(bytes).into_owned()
}

/// `String::from_utf16`: `Ok` exactly when `utf16_decoded` gives a text, and
/// then that text; the error is carried as its message, of which nothing is claimed.
#[verifier::external_body]
fn utf16_text(units: &[u16]) -> (r: Result<String, String>)
    ensures
        r is Ok <==> utf16_decoded(units@) is Some,
        r matches Ok(s) ==> utf16_decoded(units@) == Some(s@),
{
    String::from_utf16(units).map_err(|e| e.to_string())
}

/// `char::is_alphanumeric`.
#[verifier::external_body]
fn is_alphanumeric(c: char) -> (r: bool)
    ensures
        r == unicode_alphanumeric(c),
{
    c.is_alphanumeric()
}

/// `String::push`.
#[verifier::external_body]
pub(crate) fn push_char(s: &mut String, c: char)
    ensures
        final(s)@ == old(s)@.push(c),
{
    s.push(c)
}

/// Decodes bytes as Latin-1.
pub fn latin1_text(bytes: &[u8]) -> (r: String)
    ensures
        r@ == latin1(bytes@),
{
    let mut s = String::new();
    let mut i: usize = 0;
    while i < bytes.len()
        invariant
            i <= bytes@.len(),
            s@ == latin1(bytes@.take(i as int)),
        decreases bytes@.len() - i,
    {
        push_char(&mut s, bytes[i] as char);
        proof {
            assert(latin1(bytes@.take(i + 1)) =~= latin1(bytes@.take(i as int)).push(bytes@[i as int] as char));
        }
        i += 1;
    }
    proof {
        assert(bytes@.take(bytes@.len() as int) =~= bytes@);
    }
    s
}

/// 16-bit code units read from byte pairs, big- or little-endian.
pub open spec fn utf16_units(bytes: Seq<u8>, big_endian: bool) -> Seq<u16> {
    Seq::new(
        bytes.len() / 2,
        |i: int|
            if big_endian {
                (bytes[2 * i] * 256 + bytes[2 * i + 1]) as u16
            } else {
                (bytes[2 * i] + bytes[2 * i + 1] * 256) as u16
            },
    )
}

/// Why a byte sequence announced as UTF-16 could not be decoded.
#[derive(Debug, PartialEq, Eq)]
pub enum TextDecodeError {
    /// An odd number of bytes after the byte order mark.
    OddUtf16Length { big_endian: bool },
    /// Code units that are not valid UTF-16 (a lone surrogate), with the decoder's message.
    InvalidUtf16 { message: String },
}

impl TextDecodeError {
    /// The text the error is reported with.
    pub fn message(&self) -> (m: String)
        ensures
            self matches TextDecodeError::OddUtf16Length { big_endian } ==> m@ == (if *big_endian {
                "Invalid UTF-16 BE data length"@
            } else {
                "Invalid UTF-16 LE data length"@
            }),
            self matches TextDecodeError::InvalidUtf16 { message } ==> m@ == message@,
    {
        match self {
            TextDecodeError::OddUtf16Length { big_endian } => {
                if *big_endian {
                    "Invalid UTF-16 BE data length".to_owned()
                } else {
                    "Invalid UTF-16 LE data length".to_owned()
                }
            },
            TextDecodeError::InvalidUtf16 { message } => message.clone(),
        }
    }
}

/// The outcome of decoding: a text and the name of its encoding, or a refusal.
pub enum DecodedSpec {
    Text(Seq<char>, Seq<char>),
    OddLength(bool),
    BadUtf16,
}

/// UTF-8 when valid; otherwise lossy UTF-8 when fewer than one byte in a
/// hundred had to be replaced (or none did); otherwise Latin-1.
pub open spec fn decode_utf8_family(bytes: Seq<u8>) -> DecodedSpec {
    if valid_utf8(bytes) {
        DecodedSpec::Text(decode_utf8(bytes), "utf-8"@)
    } else {
        let lossy = utf8_lossy(bytes);
        let replaced = count_char(lossy, '\u{FFFD}');
        if replaced == 0 || replaced < bytes.len() / 100 {
            DecodedSpec::Text(lossy, "utf-8-lossy"@)
        } else {
            DecodedSpec::Text(latin1(bytes), "latin-1"@)
        }
    }
}

pub open spec fn decode_utf16_family(bytes: Seq<u8>, big_endian: bool) -> DecodedSpec {
    if bytes.len() % 2 != 0 {
        DecodedSpec::OddLength(big_endian)
    } else {
        match utf16_decoded(utf16_units(bytes, big_endian)) {
            Some(s) => DecodedSpec::Text(s, if big_endian { "utf-16-be"@ } else { "utf-16-le"@ }),
            None => DecodedSpec::BadUtf16,
        }
    }
}

/// Text decoding of a file's bytes, steered by a leading byte order mark.
pub open spec fn decode_text_spec(data: Seq<u8>) -> DecodedSpec {
    if data.len() >= 3 && data[0] == 0xEF && data[1] == 0xBB && data[2] == 0xBF {
        decode_utf8_family(data.skip(3))
    } else if data.len() >= 2 && data[0] == 0xFF && data[1] == 0xFE {
        decode_utf16_family(data.skip(2), false)
    } else if data.len() >= 2 && data[0] == 0xFE && data[1] == 0xFF {
        decode_utf16_family(data.skip(2), true)
    } else {
        decode_utf8_family(data)
    }
}

pub open spec fn decoded_matches(r: Result<(String, String), TextDecodeError>, d: DecodedSpec) -> bool {
    match d {
        DecodedSpec::Text(content, name) => r matches Ok((c, e)) && c@ == content && e@ == name,
        DecodedSpec::OddLength(be) => r == Err::<(String, String), TextDecodeError>(
            TextDecodeError::OddUtf16Length { big_endian: be },
        ),
        DecodedSpec::BadUtf16 => r matches Err(TextDecodeError::InvalidUtf16 { .. }),
    }
}

fn decode_utf8_bytes(bytes: &[u8]) -> (r: Result<(String, String), TextDecodeError>)
    ensures
        decoded_matches(r, decode_utf8_family(bytes@)),
{
    if let Some(content) = utf8_text(bytes) {
        return Ok((content, "utf-8".to_owned()));
    }
    let content = utf8_lossy_text(bytes);
    let replaced = count_occurrences(content.as_str(), '\u{FFFD}');
    if replaced == 0 || replaced < bytes.len() / 100 {
        return Ok((content, "utf-8-lossy".to_owned()));
    }
    Ok((latin1_text(bytes), "latin-1".to_owned()))
}

fn decode_utf16_bytes(bytes: &[u8], big_endian: bool) -> (r: Result<(String, String), TextDecodeError>)
    ensures
        decoded_matches(r, decode_utf16_family(bytes@, big_endian)),
{
    if bytes.len() % 2 != 0 {
        return Err(TextDecodeError::OddUtf16Length { big_endian });
    }
    let total = bytes.len();
    let half = total / 2;
    let mut units: Vec<u16> = Vec::new();
    let mut i: usize = 0;
    while i < half
        invariant
            i <= half,
            half == bytes@.len() / 2,
            total == bytes@.len(),
            bytes@.len() % 2 == 0,
            units@ == utf16_units(bytes@, big_endian).take(i as int),
        decreases half - i,
    {
        assert(2 * i + 1 < bytes@.len());
        let a = bytes[2 * i] as u16;
        let b = bytes[2 * i + 1] as u16;
        let unit = if big_endian { a * 256 + b } else { a + b * 256 };
        units.push(unit);
        proof {
            assert(units@ =~= utf16_units(bytes@, big_endian).take(i + 1));
        }
        i += 1;
    }
    proof {
        assert(units@ =~= utf16_units(bytes@, big_endian));
    }
    match utf16_text(units.as_slice()) {
        Ok(content) => {
            let name = if big_endian { "utf-16-be".to_owned() } else { "utf-16-le".to_owned() };
            Ok((content, name))
        },
        Err(message) => Err(TextDecodeError::InvalidUtf16 { message }),
    }
}

/// Decodes a file's bytes and names the encoding found: a UTF-8 byte order
/// mark is skipped; a UTF-16 one selects UTF-16 of that byte order; otherwise
/// valid UTF-8 is taken as is, lightly damaged UTF-8 (fewer than one
/// replacement per hundred bytes) is repaired, and anything else is read as
/// Latin-1.
pub fn verify_encoding_impl(data: &[u8]) -> (r: Result<(String, String), TextDecodeError>)
    ensures
        decoded_matches(r, decode_text_spec(data@)),
{
    proof {
        reveal_strlit("utf-8");
        reveal_strlit("utf-8-lossy");
        reveal_strlit("latin-1");
        reveal_strlit("utf-16-le");
        reveal_strlit("utf-16-be");
    }
    let n = data.len();
    if n >= 3 && data[0] == 0xEF && data[1] == 0xBB && data[2] == 0xBF {
        let rest = &data[3..n];
        proof {
            assert(rest@ =~= data@.skip(3));
        }
        decode_utf8_bytes(rest)
    } else if n >= 2 && data[0] == 0xFF && data[1] == 0xFE {
        let rest = &data[2..n];
        proof {
            assert(rest@ =~= data@.skip(2));
        }
        decode_utf16_bytes(rest, false)
    } else if n >= 2 && data[0] == 0xFE && data[1] == 0xFF {
        let rest = &data[2..n];
        proof {
            assert(rest@ =~= data@.skip(2));
        }
        decode_utf16_bytes(rest, true)
    } else {
        decode_utf8_bytes(data)
    }
}

/// Decodes bytes given directly; the same as [`verify_encoding_impl`].
pub fn verify_encoding_bytes(data: &[u8]) -> (r: Result<(String, String), TextDecodeError>)
    ensures
        decoded_matches(r, decode_text_spec(data@)),
{
    verify_encoding_impl(data)
}

/// Whether Latin-1 text is accepted as text: it holds a `{` or every
/// character is ASCII or alphanumeric.
pub open spec fn plausible_latin1(bytes: Seq<u8>) -> bool {
    latin1(bytes).contains('{') || forall|i: int|
        0 <= i < bytes.len() ==> bytes[i] < 128 || unicode_alphanumeric(#[trigger] bytes[i] as char)
}

/// The text of `data` when it is valid UTF-8; otherwise its Latin-1 reading
/// when that looks like text (see [`plausible_latin1`]); otherwise an encoding error.
pub fn validate_and_decode_utf8(data: &[u8]) -> (r: Result<String, VisionError>)
    ensures
        valid_utf8(data@) ==> (r matches Ok(s) && s@ == decode_utf8(data@)),
        !valid_utf8(data@) && plausible_latin1(data@) ==> (r matches Ok(s) && s@ == latin1(data@)),
        !valid_utf8(data@) && !plausible_latin1(data@) ==> (r matches Err(VisionError::EncodingError(m)) && m@
            == "Unable to decode file as UTF-8 or Latin-1"@),
{
    if let Some(s) = utf8_text(data) {
        return Ok(s);
    }
    let decoded = latin1_text(data);
    let mut has_brace = false;
    let mut all_text = true;
    let mut i: usize = 0;
    while i < data.len()
        invariant
            i <= data@.len(),
            decoded@ == latin1(data@),
            has_brace == exists|k: int| 0 <= k < i && data@[k] == 0x7B,
            all_text == forall|k: int| 0 <= k < i ==> data@[k] < 128 || unicode_alphanumeric(#[trigger] data@[k] as char),
        decreases data@.len() - i,
    {
        let b = data[i];
        if b == 0x7B {
            has_brace = true;
        }
        if !(b < 128 || is_alphanumeric(b as char)) {
            all_text = false;
        }
        i += 1;
    }
    proof {
        if has_brace {
            let k = choose|k: int| 0 <= k < data@.len() && data@[k] == 0x7B;
            assert(latin1(data@)[k] == '{');
        }
        if latin1(data@).contains('{') {
            let k = choose|k: int| 0 <= k < latin1(data@).len() && latin1(data@)[k] == '{';
            assert(data@[k] as char == '{');
            assert(data@[k] == 0x7B);
        }
    }
    if has_brace || all_text {
        Ok(decoded)
    } else {
        Err(VisionError::EncodingError("Unable to decode file as UTF-8 or Latin-1".to_owned()))
    }
}

/// Every character of `t` is a single UTF-16 code unit (below U+10000).
pub open spec fn single_unit_text(t: Seq<char>) -> bool {
    forall|i: int| 0 <= i < t.len() ==> (#[trigger] t[i] as u32) < 0x10000
}

/// The UTF-16 big-endian bytes of a text of single-unit characters: for
/// each character, its high byte and then its low byte.
pub open spec fn utf16_be_bytes(t: Seq<char>) -> Seq<u8> {
    Seq::new(
        2 * t.len(),
        |i: int|
            if i % 2 == 0 {
                ((t[i / 2] as u32) / 256) as u8
            } else {
                ((t[i / 2] as u32) % 256) as u8
            },
    )
}

/// The UTF-16 little-endian bytes of a text of single-unit characters: for
/// each character, its low byte and then its high byte.
pub open spec fn utf16_le_bytes(t: Seq<char>) -> Seq<u8> {
    Seq::new(
        2 * t.len(),
        |i: int|
            if i % 2 == 0 {
                ((t[i / 2] as u32) % 256) as u8
            } else {
                ((t[i / 2] as u32) / 256) as u8
            },
    )
}

proof fn lemma_single_units_decode(t: Seq<char>)
    requires
        single_unit_text(t),
    ensures
        utf16_decoded(Seq::new(t.len(), |i: int| (t[i] as u32) as u16)) == Some(t),
    decreases t.len(),
{
    broadcast use vstd::utf8::char_is_scalar, vstd::utf8::char_u32_cast;

    let units = Seq::new(t.len(), |i: int| (t[i] as u32) as u16);
    if t.len() > 0 {
        let rest = t.drop_first();
        assert(single_unit_text(rest)) by {
            assert forall|i: int| 0 <= i < rest.len() implies (#[trigger] rest[i] as u32) < 0x10000 by {
                assert(rest[i] == t[i + 1]);
            }
        }
        lemma_single_units_decode(rest);
        assert(units.drop_first() =~= Seq::new(rest.len(), |i: int| (rest[i] as u32) as u16));
        let c = t[0];
        assert((c as u32) < 0x10000);
        vstd::utf8::char_is_scalar(c);
        let u = units[0];
        assert(u as u32 == c as u32);
        assert(u < 0xD800 || u > 0xDFFF);
        vstd::utf8::char_u32_cast(c, u as u32);
        assert((u as u32) as char == c);
        assert((u as char) == c);
        assert(seq![c] + rest =~= t);
    } else {
        assert(t =~= seq![]);
    }
}

proof fn lemma_byte_halves(c: u32)
    requires
        c < 0x10000,
    ensures
        (c / 256) < 256,
        (c / 256) * 256 + c % 256 == c,
{
}

proof fn lemma_pair_index(i: int)
    requires
        0 <= i,
    ensures
        (2 * i) % 2 == 0,
        (2 * i) / 2 == i,
        (2 * i + 1) % 2 == 1,
        (2 * i + 1) / 2 == i,
{
}

proof fn lemma_utf16_units_of_text(t: Seq<char>)
    requires
        single_unit_text(t),
    ensures
        utf16_units(utf16_be_bytes(t), true) =~= Seq::new(t.len(), |i: int| (t[i] as u32) as u16),
        utf16_units(utf16_le_bytes(t), false) =~= Seq::new(t.len(), |i: int| (t[i] as u32) as u16),
{
    let be = utf16_be_bytes(t);
    let le = utf16_le_bytes(t);
    let n = t.len();
    assert((2 * n) / 2 == n);
    let ube = utf16_units(be, true);
    let ule = utf16_units(le, false);
    assert forall|i: int| 0 <= i < n implies #[trigger] ube[i] == (t[i] as u32) as u16 && ule[i] == (t[i] as u32) as u16 by {
        let c = t[i] as u32;
        lemma_pair_index(i);
        lemma_byte_halves(c);
        assert(be[2 * i] == (c / 256) as u8);
        assert(be[2 * i + 1] == (c % 256) as u8);
        assert(le[2 * i] == (c % 256) as u8);
        assert(le[2 * i + 1] == (c / 256) as u8);
        assert(ube[i] == (be[2 * i] * 256 + be[2 * i + 1]) as u16);
        assert(ule[i] == (le[2 * i] + le[2 * i + 1] * 256) as u16);
    }
}

/// Decoding undoes UTF-16 encoding in both byte orders: the byte order mark
/// `FE FF` followed by the big-endian bytes of a text, or `FF FE` followed by
/// its little-endian bytes, decodes to that very text, under the name of the
/// byte order, for every text of characters below U+10000.
pub proof fn lemma_utf16_round_trip(t: Seq<char>)
    requires
        single_unit_text(t),
    ensures
        decode_text_spec(seq![0xFEu8, 0xFFu8] + utf16_be_bytes(t)) == DecodedSpec::Text(t, "utf-16-be"@),
        decode_text_spec(seq![0xFFu8, 0xFEu8] + utf16_le_bytes(t)) == DecodedSpec::Text(t, "utf-16-le"@),
{
    lemma_utf16_units_of_text(t);
    lemma_single_units_decode(t);
    let be = seq![0xFEu8, 0xFFu8] + utf16_be_bytes(t);
    let le = seq![0xFFu8, 0xFEu8] + utf16_le_bytes(t);
    assert(be.skip(2) =~= utf16_be_bytes(t));
    assert(le.skip(2) =~= utf16_le_bytes(t));
    assert(utf16_be_bytes(t).len() % 2 == 0);
}

/// Decoding fails only on UTF-16: bytes that do not start with a UTF-16
/// byte order mark always decode, Latin-1 being the last resort.
pub proof fn lemma_decoding_without_utf16_mark_succeeds(data: Seq<u8>)
    requires
        !(data.len() >= 2 && data[0] == 0xFF && data[1] == 0xFE),
        !(data.len() >= 2 && data[0] == 0xFE && data[1] == 0xFF),
    ensures
        decode_text_spec(data) is Text,
{
}

} // verus!
