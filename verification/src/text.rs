use vstd::prelude::*;
use vstd::utf8::*;
use vstd::string::StringSliceAdditionalSpecFns;

verus! {

/// The ASCII digit byte for `d`, which is in `0..10`.
pub open spec fn digit_byte(d: int) -> u8 {
    (d + 48) as u8
}

/// True when `b` is an ASCII decimal digit.
pub open spec fn is_digit(b: u8) -> bool {
    48 <= b <= 57
}

/// The decimal digits of `n`, most significant first, without leading zeros.
pub open spec fn decimal_digits(n: nat) -> Seq<u8>
    decreases n,
{
    if n < 10 {
        seq![digit_byte(n as int)]
    } else {
        decimal_digits(n / 10).push(digit_byte((n % 10) as int))
    }
}

/// The decimal text of `n`: a `-` before the digits when it is negative.
pub open spec fn decimal_text(n: int) -> Seq<u8> {
    if n < 0 {
        seq![45u8] + decimal_digits((-n) as nat)
    } else {
        decimal_digits(n as nat)
    }
}

/// True when `s` is one or more decimal digits.
pub open spec fn all_digits(s: Seq<u8>) -> bool {
    s.len() > 0 && forall|i: int| 0 <= i < s.len() ==> is_digit(#[trigger] s[i])
}

/// The number that a run of decimal digits denotes.
pub open spec fn digits_value(s: Seq<u8>) -> int
    decreases s.len(),
{
    if s.len() == 0 {
        0
    } else {
        digits_value(s.drop_last()) * 10 + (s.last() - 48)
    }
}

/// The number that `s` denotes as an optional `+` or `-` followed by decimal digits.
pub open spec fn signed_value(s: Seq<u8>) -> Option<int> {
    if s.len() > 0 && s[0] == 43u8 {
        if all_digits(s.drop_first()) { Some(digits_value(s.drop_first())) } else { None }
    } else if s.len() > 0 && s[0] == 45u8 {
        if all_digits(s.drop_first()) { Some(-digits_value(s.drop_first())) } else { None }
    } else if all_digits(s) {
        Some(digits_value(s))
    } else {
        None
    }
}

/// The number that `s` denotes as an optional `+` followed by decimal digits.
pub open spec fn unsigned_value(s: Seq<u8>) -> Option<int> {
    if s.len() > 0 && s[0] == 43u8 {
        if all_digits(s.drop_first()) { Some(digits_value(s.drop_first())) } else { None }
    } else if all_digits(s) {
        Some(digits_value(s))
    } else {
        None
    }
}

/// What reading `s` as a signed 64-bit decimal gives: the value when the text is well formed
/// and the value fits, else nothing.
pub open spec fn i64_of_text(s: Seq<u8>) -> Option<i64> {
    match signed_value(s) {
        Some(v) => if i64::MIN <= v <= i64::MAX { Some(v as i64) } else { None },
        None => None,
    }
}

/// What reading `s` as an unsigned machine-word decimal gives.
pub open spec fn usize_of_text(s: Seq<u8>) -> Option<usize> {
    match unsigned_value(s) {
        Some(v) => if v <= usize::MAX { Some(v as usize) } else { None },
        None => None,
    }
}

/// True when every byte of `s` is ASCII.
pub open spec fn is_ascii_bytes(s: Seq<u8>) -> bool {
    forall|i: int| 0 <= i < s.len() ==> #[trigger] s[i] < 128
}

/// `s` with the ASCII letters `a` to `z` made capital.
pub open spec fn ascii_upper(s: Seq<char>) -> Seq<char> {
    s.map_values(|c: char| if 'a' <= c <= 'z' { ((c as u32) - 32) as char } else { c })
}

/// `s` with the ASCII letters `A` to `Z` made small.
pub open spec fn ascii_lower(s: Seq<char>) -> Seq<char> {
    s.map_values(|c: char| if 'A' <= c <= 'Z' { ((c as u32) + 32) as char } else { c })
}

/// What `String::from_utf8_lossy` decodes `b` to.
pub uninterp spec fn lossy_text(b: Seq<u8>) -> Seq<char>;

/// What `str::to_uppercase` maps `s` to.
pub uninterp spec fn upper_text(s: Seq<char>) -> Seq<char>;

/// What `str::to_lowercase` maps `s` to.
pub uninterp spec fn lower_text(s: Seq<char>) -> Seq<char>;

pub proof fn lemma_ascii_valid_utf8(s: Seq<u8>)
    requires
        is_ascii_bytes(s),
    ensures
        valid_utf8(s),
    decreases s.len(),
{
    if s.len() > 0 {
        let b = s[0];
        assert(b < 128);
        assert(codepoint_width_1(b) < 128) by (bit_vector)
            requires b < 128;
        assert(valid_first_scalar(s));
        let rest = pop_first_scalar(s);
        assert(rest =~= s.subrange(1, s.len() as int));
        assert(is_ascii_bytes(rest)) by {
            assert forall|i: int| 0 <= i < rest.len() implies #[trigger] rest[i] < 128 by {
                assert(rest[i] == s[i + 1]);
            }
        }
        lemma_ascii_valid_utf8(rest);
    }
}

pub proof fn lemma_decimal_digits(n: nat)
    ensures
        all_digits(decimal_digits(n)),
        digits_value(decimal_digits(n)) == n,
        decimal_digits(n).len() >= 1,
    decreases n,
{
    let d = decimal_digits(n);
    if n < 10 {
        assert(d.drop_last().len() == 0);
        assert(digits_value(d.drop_last()) == 0);
        assert(d.last() == digit_byte(n as int));
    } else {
        lemma_decimal_digits(n / 10);
        assert(d.drop_last() =~= decimal_digits(n / 10));
        assert(d.last() == digit_byte((n % 10) as int));
        assert((n / 10) * 10 + n % 10 == n);
        assert forall|i: int| 0 <= i < d.len() implies is_digit(#[trigger] d[i]) by {
            if i < d.len() - 1 {
                assert(d[i] == decimal_digits(n / 10)[i]);
            }
        }
    }
}

pub proof fn lemma_signed_value_digits(s: Seq<u8>)
    requires
        all_digits(s),
    ensures
        signed_value(s) == Some(digits_value(s)),
        unsigned_value(s) == Some(digits_value(s)),
        digits_value(s) >= 0,
        is_ascii_bytes(s),
    decreases s.len(),
{
    assert(is_digit(s[0]));
    if s.len() == 1 {
        assert(s.drop_last().len() == 0);
        assert(digits_value(s.drop_last()) == 0);
    } else {
        let t = s.drop_last();
        assert(all_digits(t)) by {
            assert forall|i: int| 0 <= i < t.len() implies is_digit(#[trigger] t[i]) by {
                assert(t[i] == s[i]);
            }
        }
        lemma_signed_value_digits(t);
    }
    assert(is_digit(s.last()));
    assert forall|i: int| 0 <= i < s.len() implies #[trigger] s[i] < 128 by {
        assert(is_digit(s[i]));
    }
}

/// Reading back the decimal text of a signed 64-bit number gives the number.
pub proof fn lemma_i64_text_round_trip(n: i64)
    ensures
        i64_of_text(decimal_text(n as int)) == Some(n),
        is_ascii_bytes(decimal_text(n as int)),
{
    if n < 0 {
        let m = (-(n as int)) as nat;
        lemma_decimal_digits(m);
        lemma_signed_value_digits(decimal_digits(m));
        let t = decimal_text(n as int);
        assert(t.drop_first() =~= decimal_digits(m));
        assert forall|i: int| 0 <= i < t.len() implies #[trigger] t[i] < 128 by {
            if i > 0 {
                assert(t[i] == decimal_digits(m)[i - 1]);
            }
        }
    } else {
        lemma_decimal_digits(n as nat);
        lemma_signed_value_digits(decimal_digits(n as nat));
    }
}

/// Reading back the decimal text of a machine word gives the word.
pub proof fn lemma_usize_text_round_trip(n: usize)
    ensures
        usize_of_text(decimal_text(n as int)) == Some(n),
        is_ascii_bytes(decimal_text(n as int)),
{
    lemma_decimal_digits(n as nat);
    lemma_signed_value_digits(decimal_digits(n as nat));
}

/// Wraps `std::str::from_utf8`: the text is returned exactly when the bytes are valid UTF-8,
/// and its bytes are the input's.
#[verifier::external_body]
pub(crate) fn utf8_str(b: &[u8]) -> (r: Option<&str>)
    ensures
        r is Some <==> valid_utf8(b@),
        r matches Some(s) ==> s.spec_bytes() == b@,
{
    std::str::from_utf8(b).ok()
}

/// Wraps `<i64 as FromStr>::from_str`: an optional sign and decimal digits whose value fits,
/// as the standard library documents it.
#[verifier::external_body]
pub(crate) fn parse_i64(s: &str) -> (r: Option<i64>)
    ensures
        r == i64_of_text(s.spec_bytes()),
{
    s.parse::<i64>().ok()
}

/// Wraps `<usize as FromStr>::from_str`: an optional `+` and decimal digits whose value fits.
#[verifier::external_body]
pub(crate) fn parse_usize(s: &str) -> (r: Option<usize>)
    ensures
        r == usize_of_text(s.spec_bytes()),
{
    s.parse::<usize>().ok()
}

/// Wraps `<i64 as ToString>::to_string`, taken as bytes: the decimal text of `n`.
#[verifier::external_body]
pub(crate) fn i64_text(n: i64) -> (r: Vec<u8>)
    ensures
        r@ == decimal_text(n as int),
{
    n.to_string().into_bytes()
}

/// Wraps `<u64 as ToString>::to_string`, taken as bytes: the decimal text of `n`.
#[verifier::external_body]
pub(crate) fn u64_text(n: u64) -> (r: Vec<u8>)
    ensures
        r@ == decimal_text(n as int),
{
    n.to_string().into_bytes()
}

/// Wraps `String::from_utf8_lossy`: the result is named `lossy_text`; on valid UTF-8 it is
/// the decoded text, as the documentation says.
#[verifier::external_body]
pub(crate) fn utf8_lossy(b: &[u8]) -> (r: String)
    ensures
        r@ == lossy_text(b@),
        valid_utf8(b@) ==> r@ == decode_utf8(b@),
{
    String::from_utf8_lossy(b).into_owned()
}

/// Wraps `str::to_uppercase`; its Unicode case mapping is named `upper_text`. On ASCII text it
/// turns `a` to `z` into `A` to `Z` and keeps every other character, as Unicode's mapping does.
#[verifier::external_body]
pub(crate) fn upper_case(s: &str) -> (r: String)
    ensures
        r@ == upper_text(s@),
        is_ascii_chars(s@) ==> r@ == ascii_upper(s@),
{
    s.to_uppercase()
}

/// Wraps `str::to_lowercase`; its Unicode case mapping is named `lower_text`. On ASCII text it
/// turns `A` to `Z` into `a` to `z` and keeps every other character, as Unicode's mapping does.
#[verifier::external_body]
pub(crate) fn lower_case(s: &str) -> (r: String)
    ensures
        r@ == lower_text(s@),
        is_ascii_chars(s@) ==> r@ == ascii_lower(s@),
{
    s.to_lowercase()
}

/// Reads `b` as a signed 64-bit decimal: it must be UTF-8 text that the standard parser accepts.
pub fn parse_int(b: &[u8]) -> (r: Option<i64>)
    ensures
        r == i64_of_text(b@),
{
    match utf8_str(b) {
        Some(s) => parse_i64(s),
        None => {
            proof { lemma_not_utf8_not_int(b@); }
            None
        },
    }
}

proof fn lemma_not_utf8_not_int(s: Seq<u8>)
    requires
        !valid_utf8(s),
    ensures
        i64_of_text(s) is None,
        usize_of_text(s) is None,
{
    if signed_value(s) is Some || unsigned_value(s) is Some {
        if s.len() > 0 && (s[0] == 43u8 || s[0] == 45u8) && all_digits(s.drop_first()) {
            let t = s.drop_first();
            lemma_signed_value_digits(t);
            assert forall|i: int| 0 <= i < s.len() implies #[trigger] s[i] < 128 by {
                if i > 0 { assert(s[i] == t[i - 1]); }
            }
        } else {
            lemma_signed_value_digits(s);
        }
        lemma_ascii_valid_utf8(s);
    }
}

/// Reads `b` as an unsigned machine-word decimal.
pub fn parse_len(b: &[u8]) -> (r: Option<usize>)
    ensures
        r == usize_of_text(b@),
{
    match utf8_str(b) {
        Some(s) => parse_usize(s),
        None => {
            proof { lemma_not_utf8_not_int(b@); }
            None
        },
    }
}

}
