//! Small text builders: decimal rendering, quoting and concatenation.
use vstd::prelude::*;
use vstd::string::*;
use vstd::utf8::*;

verus! {

/// ASCII decimal digits of `n`, most significant first, without sign or padding.
pub open spec fn decimal_bytes(n: nat) -> Seq<u8>
    decreases n,
{
    if n < 10 {
        seq![(n + 48) as u8]
    } else {
        decimal_bytes(n / 10).push(((n % 10) + 48) as u8)
    }
}

/// The characters of `decimal_bytes(n)`.
pub open spec fn decimal_chars(n: nat) -> Seq<char> {
    decimal_bytes(n).map_values(|b: u8| b as char)
}

/// A rendering of `s` in Rust's `Debug` syntax for strings (quoted, escaped).
pub uninterp spec fn debug_quoted(s: Seq<char>) -> Seq<char>;

pub proof fn lemma_decimal_ascii(n: nat)
    ensures
        forall|i: int|
            0 <= i < decimal_bytes(n).len() ==> 48 <= #[trigger] decimal_bytes(n)[i] <= 57,
        decimal_bytes(n).len() >= 1,
    decreases n,
{
    if n >= 10 {
        lemma_decimal_ascii(n / 10);
    }
}

/// A `String` holding a copy of `s`.
pub fn literal(s: &str) -> (r: String)
    ensures
        r@ == s@,
{
    s.to_owned()
}

/// UTF-8 decoding of bytes; `None` when they are not well-formed UTF-8.
/// Calls `String::from_utf8`, whose documentation promises success exactly on valid UTF-8
/// and a string holding the decoded characters.
#[verifier::external_body]
pub(crate) fn utf8_string(bytes: Vec<u8>) -> (r: Option<String>)
    ensures
        r is Some <==> valid_utf8(bytes@),
        r matches Some(s) ==> s@ == decode_utf8(bytes@),
{
    String::from_utf8(bytes).ok()
}

/// Rust `Debug` rendering of a string, through `format!("{:?}")`; the result is named by
/// `debug_quoted` and nothing else is claimed of it.
#[verifier::external_body]
pub(crate) fn quoted(s: &str) -> (r: String)
    ensures
        r@ == debug_quoted(s@),
{
    format!("{:?}", s)
}

proof fn lemma_ascii_decode(bytes: Seq<u8>, chars: Seq<char>)
    requires
        chars.len() == bytes.len(),
        forall|i: int| 0 <= i < bytes.len() ==> bytes[i] < 128 && #[trigger] chars[i] == bytes[i] as char,
    ensures
        valid_utf8(bytes),
        decode_utf8(bytes) == chars,
{
    assert(is_ascii_chars(chars));
    is_ascii_chars_encode_utf8(chars);
    assert(encode_utf8(chars) =~= bytes) by {
        assert forall|i: int| 0 <= i < bytes.len() implies encode_utf8(chars)[i] == bytes[i] by {
            assert(chars[i] as u8 == encode_utf8(chars)[i]);
        }
    }
    encode_utf8_valid_utf8(chars);
    encode_utf8_decode_utf8(chars);
}

/// Decimal rendering of `n`.
pub fn decimal(n: u64) -> (r: String)
    ensures
        r@ == decimal_chars(n as nat),
{
    let mut digits: Vec<u8> = Vec::new();
    let mut m: u64 = n;
    while m >= 10
        invariant
            decimal_bytes(n as nat) == decimal_bytes(m as nat) + digits@,
        decreases m,
    {
        let d: u8 = (m % 10) as u8 + 48;
        let ghost prev = digits@;
        digits.insert(0, d);
        assert(decimal_bytes(m as nat) == decimal_bytes((m / 10) as nat).push(d));
        assert(decimal_bytes((m / 10) as nat).push(d) + prev =~= decimal_bytes((m / 10) as nat)
            + digits@) by {
            assert(digits@ =~= seq![d] + prev);
        }
        m = m / 10;
    }
    let lead: u8 = m as u8 + 48;
    digits.insert(0, lead);
    assert(digits@ =~= decimal_bytes(n as nat));
    proof {
        lemma_decimal_ascii(n as nat);
        let chars = decimal_chars(n as nat);
        lemma_ascii_decode(digits@, chars);
    }
    let s = utf8_string(digits);
    match s {
        Some(s) => s,
        None => {
            assert(false);
            String::new()
        },
    }
}

/// `a` followed by `b`.
pub fn join(a: String, b: &str) -> (r: String)
    ensures
        r@ == a@ + b@,
{
    let mut a = a;
    a.append(b);
    a
}

} // verus!
