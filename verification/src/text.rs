//! Character-level helpers shared by the encoders: digit filtering,
//! decimal rendering and message assembly.

use vstd::prelude::*;

verus! {

/// An ASCII decimal digit.
pub open spec fn is_digit(c: char) -> bool {
    '0' <= c && c <= '9'
}

/// Numeric value of an ASCII decimal digit.
pub open spec fn digit_value(c: char) -> int {
    (c as int) - ('0' as int)
}

/// The digit characters of `s`, in order.
pub open spec fn digits_of(s: Seq<char>) -> Seq<char>
    decreases s.len(),
{
    if s.len() == 0 {
        Seq::empty()
    } else if is_digit(s.last()) {
        digits_of(s.drop_last()).push(s.last())
    } else {
        digits_of(s.drop_last())
    }
}

/// Appends one character to a string (`String::push`).
#[verifier::external_body]
pub(crate) fn push_char(s: &mut String, c: char)
    ensures
        final(s)@ == old(s)@.push(c),
{
    s.push(c);
}

/// Returns the digit characters of `data` as a new string.
pub fn digits_only(data: &str) -> (res: String)
    ensures
        res@ == digits_of(data@),
{
    let n = data.unicode_len();
    let mut out = String::new();
    let mut i: usize = 0;
    while i < n
        invariant
            n == data@.len(),
            i <= n,
            out@ == digits_of(data@.subrange(0, i as int)),
        decreases n - i,
    {
        let c = data.get_char(i);
        proof {
            assert(data@.subrange(0, i + 1).drop_last() =~= data@.subrange(0, i as int));
        }
        if '0' <= c && c <= '9' {
            push_char(&mut out, c);
        }
        i = i + 1;
    }
    proof {
        assert(data@.subrange(0, n as int) =~= data@);
    }
    out
}


/// The ASCII digit character for a value `0..=9`.
pub open spec fn digit_char(v: int) -> char {
    ((v + 48) as u8) as char
}

/// Decimal rendering of `n` without leading zeros.
pub open spec fn decimal(n: nat) -> Seq<char>
    decreases n,
{
    if n < 10 {
        seq![digit_char(n as int)]
    } else {
        decimal(n / 10).push(digit_char((n % 10) as int))
    }
}

/// The digit character for a value `0..=9`.
pub fn digit_to_char(v: u32) -> (c: char)
    requires
        v < 10,
    ensures
        c == digit_char(v as int),
        is_digit(c),
        digit_value(c) == v,
{
    let b: u8 = (v as u8) + 48;
    b as char
}

/// Appends the decimal rendering of `n` to `s`.
pub fn push_decimal(s: &mut String, n: u64)
    ensures
        final(s)@ == old(s)@ + decimal(n as nat),
    decreases n,
{
    if n >= 10 {
        push_decimal(s, n / 10);
    }
    let c = digit_to_char((n % 10) as u32);
    push_char(s, c);
    proof {
        if n >= 10 {
            assert(final(s)@ =~= old(s)@ + decimal(n as nat));
        } else {
            assert(final(s)@ =~= old(s)@ + decimal(n as nat));
        }
    }
}

/// Decimal rendering of a signed value, with a leading `-` when negative.
pub open spec fn signed_decimal(v: int) -> Seq<char> {
    if v < 0 {
        seq!['-'] + decimal((-v) as nat)
    } else {
        decimal(v as nat)
    }
}

/// Appends the signed decimal rendering of `v` to `s`.
pub fn push_signed(s: &mut String, v: i64)
    requires
        v > i64::MIN,
    ensures
        final(s)@ == old(s)@ + signed_decimal(v as int),
{
    if v < 0 {
        push_char(s, '-');
        let ghost mid = s@;
        push_decimal(s, (-v) as u64);
        assert(final(s)@ =~= old(s)@ + signed_decimal(v as int));
    } else {
        push_decimal(s, v as u64);
    }
}

/// The characters of a UTF-8 byte string, if it is valid UTF-8: the
/// well-formed, shortest encodings of Unicode scalars, surrogates excluded
/// (vstd's `valid_utf8` and `decode_utf8`).
pub open spec fn utf8_decode(bytes: Seq<u8>) -> Option<Seq<char>> {
    if vstd::utf8::valid_utf8(bytes) {
        Some(vstd::utf8::decode_utf8(bytes))
    } else {
        None
    }
}

/// The characters of an ASCII byte string.
pub open spec fn ascii_chars(bytes: Seq<u8>) -> Seq<char> {
    bytes.map_values(|b: u8| b as char)
}

/// Decodes UTF-8 bytes with `std::str::from_utf8`: `None` when they are
/// not valid UTF-8, else the decoded characters (as [`utf8_decode`]
/// states them), never more than there are bytes; ASCII bytes decode to
/// the same characters.
#[verifier::external_body]
pub(crate) fn utf8_to_string(bytes: &[u8]) -> (r: Option<String>)
    ensures
        r is Some <==> utf8_decode(bytes@) is Some,
        r matches Some(s) ==> utf8_decode(bytes@) == Some(s@),
        r matches Some(s) ==> s@.len() <= bytes@.len(),
        (forall|k: int| 0 <= k < bytes@.len() ==> #[trigger] bytes@[k] < 128) ==> (r is Some
            && r->0@ == ascii_chars(bytes@)),
{
    match std::str::from_utf8(bytes) {
        Ok(s) => Some(s.to_string()),
        Err(_) => None,
    }
}

/// `true` when the two strings hold the same characters.
pub fn str_eq(a: &str, b: &str) -> (r: bool)
    ensures
        r == (a@ == b@),
{
    let n = a.unicode_len();
    let m = b.unicode_len();
    if n != m {
        return false;
    }
    let mut i: usize = 0;
    while i < n
        invariant
            n == a@.len(),
            m == b@.len(),
            n == m,
            i <= n,
            forall|j: int| 0 <= j < i ==> a@[j] == b@[j],
        decreases n - i,
    {
        if a.get_char(i) != b.get_char(i) {
            return false;
        }
        i = i + 1;
    }
    assert(a@ =~= b@);
    true
}

/// A new string holding the characters of `s`.
pub fn string_of(s: &str) -> (r: String)
    ensures
        r@ == s@,
{
    String::from_str(s)
}

/// Rust's `Debug` rendering of a character (quoted, with escapes).
pub uninterp spec fn char_debug(c: char) -> Seq<char>;

/// `format!("{c:?}")`: the `Debug` rendering of a character. Its
/// documentation renders a printable ASCII character other than a quote or
/// a backslash as itself between single quotes; that is all that is stated
/// here, the escapes of other characters are left to the name.
#[verifier::external_body]
pub(crate) fn debug_char(c: char) -> (r: String)
    ensures
        r@ == char_debug(c),
        (' ' <= c && c <= '~' && c != '\'' && c != '\\') ==> r@ == seq!['\'', c, '\''],
{
    format!("{c:?}")
}

/// Rust's `Debug` rendering of a string slice (double-quoted, with escapes).
pub uninterp spec fn str_debug(s: Seq<char>) -> Seq<char>;

/// `format!("{s:?}")`: the `Debug` rendering of a string slice. Its
/// documentation renders printable ASCII other than a double quote or a
/// backslash unchanged between double quotes; that is all that is stated,
/// the escapes of other characters are left to the name.
#[verifier::external_body]
pub(crate) fn debug_str(s: &str) -> (r: String)
    ensures
        r@ == str_debug(s@),
        (forall|i: int| 0 <= i < s@.len() ==> ' ' <= #[trigger] s@[i] && s@[i] <= '~' && s@[i] != '\"' && s@[i] != '\\')
            ==> r@ == seq!['\"'] + s@ + seq!['\"'],
{
    format!("{s:?}")
}

/// Unicode `White_Space` (what `char::is_whitespace` accepts).
pub open spec fn is_ws(c: char) -> bool {
    ||| ('\u{9}' <= c && c <= '\u{d}')
    ||| c == ' '
    ||| c == '\u{85}'
    ||| c == '\u{a0}'
    ||| c == '\u{1680}'
    ||| ('\u{2000}' <= c && c <= '\u{200a}')
    ||| c == '\u{2028}'
    ||| c == '\u{2029}'
    ||| c == '\u{202f}'
    ||| c == '\u{205f}'
    ||| c == '\u{3000}'
}

/// `char::is_whitespace`.
pub fn is_whitespace(c: char) -> (r: bool)
    ensures
        r == is_ws(c),
{
    ('\u{9}' <= c && c <= '\u{d}') || c == ' ' || c == '\u{85}' || c == '\u{a0}' || c == '\u{1680}'
        || ('\u{2000}' <= c && c <= '\u{200a}') || c == '\u{2028}' || c == '\u{2029}' || c == '\u{202f}'
        || c == '\u{205f}' || c == '\u{3000}'
}

/// Start/end (exclusive) of each maximal run of non-whitespace characters.
pub open spec fn token_spans(s: Seq<char>) -> Seq<(int, int)>
    decreases s.len(),
{
    if s.len() == 0 {
        Seq::empty()
    } else {
        let t = token_spans(s.drop_last());
        let n = s.len() as int;
        if is_ws(s.last()) {
            t
        } else if n >= 2 && !is_ws(s[n - 2]) {
            t.update(t.len() - 1, (t.last().0, n))
        } else {
            t.push((n - 1, n))
        }
    }
}

/// The whitespace-separated fields of `s` (`str::split_whitespace`).
pub open spec fn tokens(s: Seq<char>) -> Seq<Seq<char>> {
    token_spans(s).map_values(|p: (int, int)| s.subrange(p.0, p.1))
}

/// Spans are ordered, in range and non-empty; a non-whitespace last
/// character belongs to the last span.
pub proof fn lemma_token_spans(s: Seq<char>)
    ensures
        forall|k: int| 0 <= k < token_spans(s).len() ==> 0 <= (#[trigger] token_spans(s)[k]).0 < token_spans(s)[k].1 <= s.len(),
        s.len() >= 1 && !is_ws(s.last()) ==> token_spans(s).len() >= 1 && token_spans(s).last().1 == s.len(),
    decreases s.len(),
{
    if s.len() > 0 {
        lemma_token_spans(s.drop_last());
        let n = s.len() as int;
        let t = token_spans(s.drop_last());
        if n >= 2 && !is_ws(s[n - 2]) {
            assert(s.drop_last().last() == s[n - 2]);
            assert(t.len() >= 1);
            let k0 = t.len() - 1;
            assert(0 <= t[k0].0 < t[k0].1);
        }
        assert forall|k: int| 0 <= k < token_spans(s).len() implies 0 <= (#[trigger] token_spans(s)[k]).0 < token_spans(s)[k].1 <= s.len() by {
            if k < t.len() {
                assert(0 <= t[k].0 < t[k].1 <= n - 1);
            }
        }
    }
}

/// The whitespace-separated fields of `data`, as character spans.
pub fn split_whitespace_spans(data: &str) -> (spans: Vec<(usize, usize)>)
    ensures
        spans@.len() == token_spans(data@).len(),
        forall|k: int| 0 <= k < spans@.len() ==> (#[trigger] spans@[k]).0 == token_spans(data@)[k].0
            && spans@[k].1 == token_spans(data@)[k].1,
        forall|k: int| 0 <= k < spans@.len() ==> (#[trigger] spans@[k]).0 < spans@[k].1 <= data@.len(),
{
    let n = data.unicode_len();
    let mut spans: Vec<(usize, usize)> = Vec::new();
    let mut i: usize = 0;
    let mut prev_ws = true;
    while i < n
        invariant
            n == data@.len(),
            i <= n,
            spans@.len() == token_spans(data@.subrange(0, i as int)).len(),
            forall|k: int| 0 <= k < spans@.len() ==> (#[trigger] spans@[k]).0 == token_spans(data@.subrange(0, i as int))[k].0
                && spans@[k].1 == token_spans(data@.subrange(0, i as int))[k].1,
            prev_ws == (i == 0 || is_ws(data@[i - 1])),
            !prev_ws ==> spans@.len() >= 1,
        decreases n - i,
    {
        let c = data.get_char(i);
        let ws = is_whitespace(c);
        proof {
            let sub = data@.subrange(0, i + 1);
            assert(sub.drop_last() =~= data@.subrange(0, i as int));
            assert(sub.last() == c);
            if i >= 1 {
                assert(sub[i - 1] == data@[i - 1]);
            }
        }
        if !ws {
            if prev_ws {
                spans.push((i, i + 1));
            } else {
                let last = spans.len() - 1;
                let (a, _b) = spans[last];
                spans.set(last, (a, i + 1));
            }
        }
        prev_ws = ws;
        i = i + 1;
    }
    proof {
        assert(data@.subrange(0, n as int) =~= data@);
        lemma_token_spans(data@);
    }
    spans
}

/// The number of digit characters in `s`.
pub fn count_digits(s: &str) -> (n: usize)
    ensures
        n == digits_of(s@).len(),
{
    let d = digits_only(s);
    d.as_str().unicode_len()
}

} // verus!
