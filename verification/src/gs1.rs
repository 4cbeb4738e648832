//! GS1 element strings: parsing `(AI)data(AI)data...` into Application
//! Identifier elements, and flattening them into the FNC1-separated byte
//! stream that GS1 barcodes carry.

use vstd::prelude::*;

use crate::text::{decimal, push_decimal};

verus! {

/// The FNC1 separator byte (ASCII GS).
pub const FNC1: u8 = 0x1D;

/// Longest data field accepted for an AI without a predefined length.
pub const MAX_VARIABLE_DATA: usize = 90;

/// One AI element: the AI digits and its data.
#[derive(Debug, Clone, PartialEq, Eq)]
pub struct Element {
    pub ai: String,
    pub data: String,
}

/// Why an element string was rejected.
#[derive(Debug, Clone, PartialEq, Eq)]
pub enum ParseError {
    Empty,
    MissingOpenParen(usize),
    UnclosedParen(usize),
    InvalidAi(String),
    MissingData(String),
    BadLength(String, usize, usize),
    TooLong(String, usize, usize),
    BadChar(String, usize),
}

/// The model of a [`ParseError`].
pub enum Failure {
    Empty,
    MissingOpenParen(int),
    UnclosedParen(int),
    InvalidAi(Seq<char>),
    MissingData(Seq<char>),
    BadLength(Seq<char>, int, int),
    TooLong(Seq<char>, int, int),
    BadChar(Seq<char>, int),
}

impl View for ParseError {
    type V = Failure;

    open spec fn view(&self) -> Failure {
        match self {
            ParseError::Empty => Failure::Empty,
            ParseError::MissingOpenParen(p) => Failure::MissingOpenParen(*p as int),
            ParseError::UnclosedParen(p) => Failure::UnclosedParen(*p as int),
            ParseError::InvalidAi(a) => Failure::InvalidAi(a@),
            ParseError::MissingData(a) => Failure::MissingData(a@),
            ParseError::BadLength(a, e, g) => Failure::BadLength(a@, *e as int, *g as int),
            ParseError::TooLong(a, m, g) => Failure::TooLong(a@, *m as int, *g as int),
            ParseError::BadChar(a, p) => Failure::BadChar(a@, *p as int),
        }
    }
}

/// The message of a failure.
pub open spec fn failure_message(f: Failure) -> Seq<char> {
    "GS1 parse: "@ + match f {
        Failure::Empty => "input is empty"@,
        Failure::MissingOpenParen(p) => "expected '(' at position "@ + decimal(p as nat),
        Failure::UnclosedParen(p) => "unclosed '(' at position "@ + decimal(p as nat),
        Failure::InvalidAi(a) => "invalid AI \""@ + a + "\" (expected 2-4 digits)"@,
        Failure::MissingData(a) => "AI ("@ + a + ") has no data"@,
        Failure::BadLength(a, e, g) => "AI ("@ + a + ") requires data length "@ + decimal(e as nat)
            + ", got "@ + decimal(g as nat),
        Failure::TooLong(a, m, g) => "AI ("@ + a + ") data too long (max "@ + decimal(m as nat)
            + ", got "@ + decimal(g as nat) + ")"@,
        Failure::BadChar(a, p) => "AI ("@ + a + ") data has an invalid character at offset "@
            + decimal(p as nat),
    }
}

impl ParseError {
    /// The message of the error.
    pub fn message(&self) -> (m: String)
        ensures
            m@ == failure_message(self@),
    {
        let mut m = String::from_str("GS1 parse: ");
        match self {
            ParseError::Empty => m.append("input is empty"),
            ParseError::MissingOpenParen(p) => {
                m.append("expected '(' at position ");
                push_decimal(&mut m, *p as u64);
            },
            ParseError::UnclosedParen(p) => {
                m.append("unclosed '(' at position ");
                push_decimal(&mut m, *p as u64);
            },
            ParseError::InvalidAi(a) => {
                m.append("invalid AI \"");
                m.append(a.as_str());
                m.append("\" (expected 2-4 digits)");
            },
            ParseError::MissingData(a) => {
                m.append("AI (");
                m.append(a.as_str());
                m.append(") has no data");
            },
            ParseError::BadLength(a, e, g) => {
                m.append("AI (");
                m.append(a.as_str());
                m.append(") requires data length ");
                push_decimal(&mut m, *e as u64);
                m.append(", got ");
                push_decimal(&mut m, *g as u64);
            },
            ParseError::TooLong(a, mx, g) => {
                m.append("AI (");
                m.append(a.as_str());
                m.append(") data too long (max ");
                push_decimal(&mut m, *mx as u64);
                m.append(", got ");
                push_decimal(&mut m, *g as u64);
                m.append(")");
            },
            ParseError::BadChar(a, p) => {
                m.append("AI (");
                m.append(a.as_str());
                m.append(") data has an invalid character at offset ");
                push_decimal(&mut m, *p as u64);
            },
        }
        proof {
            let f = self@;
            assert(m@ =~= failure_message(f));
        }
        m
    }
}

/// A decimal digit character.
pub open spec fn is_digit_char(c: char) -> bool {
    '0' <= c && c <= '9'
}

/// A syntactically valid AI: two to four digits.
pub open spec fn valid_ai(ai: Seq<char>) -> bool {
    2 <= ai.len() <= 4 && forall|k: int| 0 <= k < ai.len() ==> is_digit_char(#[trigger] ai[k])
}

/// Total element length (AI plus data) for the AIs whose length is
/// predefined by their first two digits, or `None`.
pub open spec fn predefined_total(ai: Seq<char>) -> Option<int> {
    let d = (ai[0] as int - 48) * 10 + (ai[1] as int - 48);
    if d == 0 {
        Some(20)
    } else if 1 <= d <= 3 {
        Some(16)
    } else if d == 4 {
        Some(18)
    } else if 11 <= d <= 19 {
        Some(8)
    } else if d == 20 {
        Some(4)
    } else if 31 <= d <= 36 {
        Some(10)
    } else if d == 41 {
        Some(16)
    } else {
        None
    }
}

/// A data character GS1 accepts: printable ASCII other than space.
pub open spec fn data_char_ok(c: char) -> bool {
    '!' <= c && c <= '~'
}

/// The first rule that the data of `ai` breaks, if any.
pub open spec fn data_failure(ai: Seq<char>, data: Seq<char>) -> Option<Failure> {
    if data.len() == 0 {
        Some(Failure::MissingData(ai))
    } else {
        match predefined_total(ai) {
            Some(t) => if data.len() != t - ai.len() {
                Some(Failure::BadLength(ai, t - ai.len(), data.len() as int))
            } else if exists|k: int| 0 <= k < data.len() && !is_digit_char(#[trigger] data[k]) {
                Some(Failure::BadChar(ai, first_bad(data, true, 0)))
            } else {
                None
            },
            None => if data.len() > MAX_VARIABLE_DATA {
                Some(Failure::TooLong(ai, MAX_VARIABLE_DATA as int, data.len() as int))
            } else if exists|k: int| 0 <= k < data.len() && !data_char_ok(#[trigger] data[k]) {
                Some(Failure::BadChar(ai, first_bad(data, false, 0)))
            } else {
                None
            },
        }
    }
}

/// Offset of the first character at or after `k` that is not a digit
/// (`digits`) or not a data character.
pub open spec fn first_bad(data: Seq<char>, digits: bool, k: int) -> int
    decreases data.len() - k,
{
    if k < 0 || k >= data.len() {
        data.len() as int
    } else if (digits && !is_digit_char(data[k])) || (!digits && !data_char_ok(data[k])) {
        k
    } else {
        first_bad(data, digits, k + 1)
    }
}

/// Index of the first `c` at or after `i` (the length when none).
pub open spec fn find_char(s: Seq<char>, c: char, i: int) -> int
    decreases s.len() - i,
{
    if i < 0 || i >= s.len() {
        s.len() as int
    } else if s[i] == c {
        i
    } else {
        find_char(s, c, i + 1)
    }
}

/// The elements of `s[i..]`, or the first failure.
pub open spec fn parse_from(s: Seq<char>, i: int) -> Result<Seq<(Seq<char>, Seq<char>)>, Failure>
    decreases s.len() - i,
{
    if i < 0 || i >= s.len() {
        Ok(Seq::empty())
    } else if s[i] != '(' {
        Err(Failure::MissingOpenParen(i))
    } else {
        let j = find_char(s, ')', i + 1);
        if j >= s.len() {
            Err(Failure::UnclosedParen(i))
        } else {
            let ai = s.subrange(i + 1, j);
            if !valid_ai(ai) {
                Err(Failure::InvalidAi(ai))
            } else {
                let k = find_char(s, '(', j + 1);
                let data = s.subrange(j + 1, k);
                match data_failure(ai, data) {
                    Some(f) => Err(f),
                    None => if k <= i || k > s.len() {
                        Err(Failure::UnclosedParen(i))
                    } else {
                        match parse_from(s, k) {
                            Ok(rest) => Ok(seq![(ai, data)] + rest),
                            Err(f) => Err(f),
                        }
                    },
                }
            }
        }
    }
}

/// The elements of an element string, or the first failure.
pub open spec fn parse_spec(s: Seq<char>) -> Result<Seq<(Seq<char>, Seq<char>)>, Failure> {
    if s.len() == 0 {
        Err(Failure::Empty)
    } else {
        parse_from(s, 0)
    }
}

/// The model of parsed elements.
pub open spec fn elements_view(v: Seq<Element>) -> Seq<(Seq<char>, Seq<char>)> {
    v.map_values(|e: Element| (e.ai@, e.data@))
}

proof fn lemma_find_char(s: Seq<char>, c: char, i: int)
    requires
        0 <= i,
    ensures
        i <= find_char(s, c, i) <= s.len() || (i > s.len() && find_char(s, c, i) == s.len()),
        find_char(s, c, i) < s.len() ==> s[find_char(s, c, i)] == c,
        forall|k: int| i <= k < find_char(s, c, i) ==> s[k] != c,
    decreases s.len() - i,
{
    if i < s.len() && s[i] != c {
        lemma_find_char(s, c, i + 1);
    }
}

fn find_char_exec(s: &str, n: usize, c: char, i: usize) -> (r: usize)
    requires
        n == s@.len(),
    ensures
        r as int == find_char(s@, c, i as int),
{
    let mut k = i;
    if k >= n {
        return n;
    }
    while k < n
        invariant
            n == s@.len(),
            i <= k <= n,
            find_char(s@, c, i as int) == find_char(s@, c, k as int),
        decreases n - k,
    {
        if s.get_char(k) == c {
            return k;
        }
        k = k + 1;
    }
    n
}

/// Checks the data of `ai` against its rules.
fn check_data(ai: &str, data: &str) -> (r: Option<ParseError>)
    requires
        valid_ai(ai@),
    ensures
        match (r, data_failure(ai@, data@)) {
            (Some(e), Some(f)) => e@ == f,
            (None, None) => true,
            _ => false,
        },
{
    let n = data.unicode_len();
    if n == 0 {
        return Some(ParseError::MissingData(String::from_str(ai)));
    }
    let d0 = ai.get_char(0);
    let d1 = ai.get_char(1);
    let d = ((d0 as u32) - 48) * 10 + ((d1 as u32) - 48);
    let alen = ai.unicode_len();
    let total: usize = if d == 0 {
        20
    } else if 1 <= d && d <= 3 {
        16
    } else if d == 4 {
        18
    } else if 11 <= d && d <= 19 {
        8
    } else if d == 20 {
        4
    } else if 31 <= d && d <= 36 {
        10
    } else if d == 41 {
        16
    } else {
        0
    };
    let digits_only = total > 0;
    if digits_only {
        if n != total - alen {
            return Some(ParseError::BadLength(String::from_str(ai), total - alen, n));
        }
    } else if n > MAX_VARIABLE_DATA {
        return Some(ParseError::TooLong(String::from_str(ai), MAX_VARIABLE_DATA, n));
    }
    assert(digits_only == (predefined_total(ai@) is Some));
    let mut k: usize = 0;
    while k < n
        invariant
            n == data@.len(),
            n > 0,
            valid_ai(ai@),
            digits_only == (predefined_total(ai@) is Some),
            digits_only ==> n == predefined_total(ai@)->0 - ai@.len(),
            !digits_only ==> n <= MAX_VARIABLE_DATA,
            k <= n,
            forall|j: int|
                0 <= j < k ==> (if digits_only {
                    is_digit_char(#[trigger] data@[j])
                } else {
                    data_char_ok(data@[j])
                }),
            first_bad(data@, digits_only, 0) == first_bad(data@, digits_only, k as int),
        decreases n - k,
    {
        let c = data.get_char(k);
        let ok = if digits_only {
            '0' <= c && c <= '9'
        } else {
            '!' <= c && c <= '~'
        };
        if !ok {
            proof {
                let dv = data@;
                if digits_only {
                    assert(!is_digit_char(dv[k as int]));
                } else {
                    assert(!data_char_ok(dv[k as int]));
                }
                assert(first_bad(dv, digits_only, k as int) == k);
            }
            return Some(ParseError::BadChar(String::from_str(ai), k));
        }
        k = k + 1;
    }
    None
}

/// Parses an element string `(AI)data(AI)data...`.
pub fn parse(s: &str) -> (r: Result<Vec<Element>, ParseError>)
    ensures
        match (r, parse_spec(s@)) {
            (Ok(v), Ok(w)) => elements_view(v@) == w,
            (Err(e), Err(f)) => e@ == f,
            _ => false,
        },
{
    let n = s.unicode_len();
    if n == 0 {
        return Err(ParseError::Empty);
    }
    let mut out: Vec<Element> = Vec::new();
    let mut i: usize = 0;
    while i < n
        invariant
            n == s@.len(),
            i <= n,
            parse_spec(s@) == match parse_from(s@, i as int) {
                Ok(rest) => Ok(elements_view(out@) + rest),
                Err(f) => Err(f),
            },
        decreases n - i,
    {
        if s.get_char(i) != '(' {
            return Err(ParseError::MissingOpenParen(i));
        }
        let j = find_char_exec(s, n, ')', i + 1);
        proof {
            lemma_find_char(s@, ')', i as int + 1);
        }
        if j >= n {
            return Err(ParseError::UnclosedParen(i));
        }
        let ai = s.substring_char(i + 1, j);
        let alen = j - (i + 1);
        let mut ok = 2 <= alen && alen <= 4;
        let mut q: usize = 0;
        while ok && q < alen
            invariant
                ai@ == s@.subrange(i + 1, j as int),
                alen == ai@.len(),
                q <= alen,
                ok ==> forall|t: int| 0 <= t < q ==> is_digit_char(#[trigger] ai@[t]),
                ok ==> 2 <= alen <= 4,
                !ok ==> !valid_ai(ai@),
            decreases alen - q,
        {
            let c = ai.get_char(q);
            if !('0' <= c && c <= '9') {
                ok = false;
            }
            q = q + 1;
        }
        if !ok {
            return Err(ParseError::InvalidAi(String::from_str(ai)));
        }
        let k = find_char_exec(s, n, '(', j + 1);
        proof {
            lemma_find_char(s@, '(', j as int + 1);
        }
        let data = s.substring_char(j + 1, k);
        match check_data(ai, data) {
            Some(e) => return Err(e),
            None => {},
        }
        let ghost before = out@;
        out.push(Element { ai: String::from_str(ai), data: String::from_str(data) });
        proof {
            assert(elements_view(out@) =~= elements_view(before).push((ai@, data@)));
            match parse_from(s@, k as int) {
                Ok(rest) => {
                    assert(elements_view(before) + (seq![(ai@, data@)] + rest) =~= elements_view(
                        out@,
                    ) + rest);
                },
                Err(f) => {},
            }
        }
        i = k;
    }
    proof {
        assert(elements_view(out@) + Seq::<(Seq<char>, Seq<char>)>::empty() =~= elements_view(
            out@,
        ));
    }
    Ok(out)
}

/// The AI has no predefined length, so an FNC1 must end its data when
/// another element follows; `None` for an invalid AI.
pub fn ai_is_variable_length(ai: &str) -> (r: Option<bool>)
    ensures
        valid_ai(ai@) ==> r == Some(predefined_total(ai@) is None),
        !valid_ai(ai@) ==> r is None,
{
    let n = ai.unicode_len();
    if n < 2 || n > 4 {
        return None;
    }
    let mut q: usize = 0;
    while q < n
        invariant
            n == ai@.len(),
            q <= n,
            forall|t: int| 0 <= t < q ==> is_digit_char(#[trigger] ai@[t]),
        decreases n - q,
    {
        let c = ai.get_char(q);
        if !('0' <= c && c <= '9') {
            return None;
        }
        q = q + 1;
    }
    let d0 = ai.get_char(0);
    let d1 = ai.get_char(1);
    let d = ((d0 as u32) - 48) * 10 + ((d1 as u32) - 48);
    let fixed = d == 0 || (1 <= d && d <= 4) || (11 <= d && d <= 20) || (31 <= d && d <= 36) || d
        == 41;
    Some(!fixed)
}

/// The byte stream of a parsed element list: a leading FNC1, then each
/// AI and its data, with an FNC1 after every element of variable length
/// that another element follows.
pub open spec fn fnc1_stream(els: Seq<(Seq<char>, Seq<char>)>) -> Seq<u8> {
    seq![FNC1] + fnc1_body(els, 0)
}

/// The elements from `i` on, as bytes with their separators.
pub open spec fn fnc1_body(els: Seq<(Seq<char>, Seq<char>)>, i: int) -> Seq<u8>
    decreases els.len() - i,
{
    if i < 0 || i >= els.len() {
        Seq::empty()
    } else {
        let e = els[i];
        let sep: Seq<u8> = if i + 1 < els.len() && predefined_total(e.0) is None {
            seq![FNC1]
        } else {
            Seq::empty()
        };
        chars_as_bytes(e.0) + chars_as_bytes(e.1) + sep + fnc1_body(els, i + 1)
    }
}

/// Shifting the element list by one leaves the later bytes unchanged.
proof fn lemma_fnc1_body_shift(x: (Seq<char>, Seq<char>), rest: Seq<(Seq<char>, Seq<char>)>, j: int)
    requires
        0 <= j,
    ensures
        fnc1_body(seq![x] + rest, j + 1) == fnc1_body(rest, j),
    decreases rest.len() - j,
{
    let all = seq![x] + rest;
    if j < rest.len() {
        assert(all[j + 1] == rest[j]);
        lemma_fnc1_body_shift(x, rest, j + 1);
    }
}

/// A parsed element list has valid AIs and its byte stream is no longer
/// than the text it came from.
pub proof fn lemma_parse_facts(s: Seq<char>, i: int)
    requires
        0 <= i,
    ensures
        parse_from(s, i) matches Ok(els) ==> (forall|k: int| 0 <= k < els.len() ==> valid_ai(#[trigger] els[k].0)),
        parse_from(s, i) matches Ok(els) ==> fnc1_body(els, 0).len() <= s.len() - i || els.len() == 0,
    decreases s.len() - i,
{
    if 0 <= i < s.len() && s[i] == '(' {
        let j = find_char(s, ')', i + 1);
        lemma_find_char(s, ')', i + 1);
        if j < s.len() {
            let ai = s.subrange(i + 1, j);
            let k = find_char(s, '(', j + 1);
            lemma_find_char(s, '(', j + 1);
            if valid_ai(ai) && data_failure(ai, s.subrange(j + 1, k)) is None && !(k <= i || k > s.len()) {
                lemma_parse_facts(s, k);
                match parse_from(s, k) {
                    Ok(rest) => {
                        let x = (ai, s.subrange(j + 1, k));
                        let els = seq![x] + rest;
                        assert(els[0] == x);
                        assert forall|q: int| 0 <= q < els.len() implies valid_ai(#[trigger] els[q].0) by {
                            if q > 0 {
                                assert(els[q] == rest[q - 1]);
                            }
                        }
                        lemma_fnc1_body_shift(x, rest, 0);
                    },
                    Err(f) => {},
                }
            }
        }
    }
}

/// The element string `(AI)data(AI)data...` of an element list.
pub open spec fn render_elements(els: Seq<(Seq<char>, Seq<char>)>) -> Seq<char>
    decreases els.len(),
{
    if els.len() == 0 {
        Seq::empty()
    } else {
        seq!['('] + els[0].0 + seq![')'] + els[0].1 + render_elements(els.drop_first())
    }
}

/// An element the parser accepts back: a valid AI, data its rules accept,
/// and no `(` in the data (that would start the next element).
pub open spec fn element_ok(e: (Seq<char>, Seq<char>)) -> bool {
    &&& valid_ai(e.0)
    &&& data_failure(e.0, e.1) is None
    &&& forall|k: int| 0 <= k < e.1.len() ==> #[trigger] e.1[k] != '('
}

proof fn lemma_find_char_at(s: Seq<char>, c: char, i: int, j: int)
    requires
        0 <= i <= j <= s.len(),
        forall|t: int| i <= t < j ==> #[trigger] s[t] != c,
        j == s.len() || s[j] == c,
    ensures
        find_char(s, c, i) == j,
    decreases j - i,
{
    if i < j {
        lemma_find_char_at(s, c, i + 1, j);
    }
}

proof fn lemma_render_starts(els: Seq<(Seq<char>, Seq<char>)>)
    ensures
        els.len() > 0 ==> render_elements(els).len() > 0 && render_elements(els)[0] == '(',
{
}

proof fn lemma_parse_render(q: Seq<char>, els: Seq<(Seq<char>, Seq<char>)>)
    requires
        forall|k: int| 0 <= k < els.len() ==> element_ok(#[trigger] els[k]),
    ensures
        parse_from(q + render_elements(els), q.len() as int) == Ok::<
            Seq<(Seq<char>, Seq<char>)>,
            Failure,
        >(els),
    decreases els.len(),
{
    let s = q + render_elements(els);
    let i = q.len() as int;
    if els.len() == 0 {
        assert(s =~= q);
        assert(els =~= Seq::<(Seq<char>, Seq<char>)>::empty());
    } else {
        let e = els[0];
        let rest = els.drop_first();
        assert(element_ok(e));
        assert forall|k: int| 0 <= k < rest.len() implies element_ok(#[trigger] rest[k]) by {
            assert(rest[k] == els[k + 1]);
        }
        let a = e.0;
        let d = e.1;
        let q2 = q + seq!['('] + a + seq![')'] + d;
        assert(s =~= q2 + render_elements(rest));
        lemma_parse_render(q2, rest);
        let j = i + 1 + a.len();
        let k = j + 1 + d.len();
        assert(s[i] == '(');
        assert forall|t: int| i + 1 <= t < j implies #[trigger] s[t] != ')' by {
            assert(s[t] == a[t - i - 1]);
            assert(is_digit_char(a[t - i - 1]));
        }
        assert(s[j] == ')');
        lemma_find_char_at(s, ')', i + 1, j);
        assert(s.subrange(i + 1, j) =~= a);
        assert forall|t: int| j + 1 <= t < k implies #[trigger] s[t] != '(' by {
            assert(s[t] == d[t - j - 1]);
        }
        lemma_render_starts(rest);
        if rest.len() > 0 {
            assert(s[k] == render_elements(rest)[0]);
        } else {
            assert(s.len() == k);
        }
        lemma_find_char_at(s, '(', j + 1, k);
        assert(s.subrange(j + 1, k) =~= d);
        assert(q2.len() == k);
        assert(parse_from(s, k) == Ok::<Seq<(Seq<char>, Seq<char>)>, Failure>(rest));
        assert(valid_ai(s.subrange(i + 1, j)));
        assert(data_failure(s.subrange(i + 1, j), s.subrange(j + 1, k)) is None);
        assert(j < s.len());
        assert(k <= s.len());
        assert(seq![(a, d)] + rest =~= els);
    }
}

/// Writing elements as an element string and parsing it gives them back,
/// for elements the parser accepts whose data holds no `(`.
pub proof fn law_parse_render_round_trip(els: Seq<(Seq<char>, Seq<char>)>)
    requires
        els.len() > 0,
        forall|k: int| 0 <= k < els.len() ==> element_ok(#[trigger] els[k]),
    ensures
        parse_spec(render_elements(els)) == Ok::<Seq<(Seq<char>, Seq<char>)>, Failure>(els),
{
    lemma_parse_render(Seq::empty(), els);
    assert(Seq::<char>::empty() + render_elements(els) =~= render_elements(els));
    lemma_render_starts(els);
}

/// ASCII characters as bytes.
pub open spec fn chars_as_bytes(s: Seq<char>) -> Seq<u8> {
    s.map_values(|c: char| c as u8)
}

fn push_ascii(out: &mut Vec<u8>, s: &str)
    ensures
        final(out)@ == old(out)@ + chars_as_bytes(s@),
{
    let n = s.unicode_len();
    let ghost start = out@;
    let mut k: usize = 0;
    while k < n
        invariant
            n == s@.len(),
            k <= n,
            out@ == start + chars_as_bytes(s@.subrange(0, k as int)),
        decreases n - k,
    {
        let c = s.get_char(k);
        out.push(c as u8);
        k = k + 1;
        assert(out@ =~= start + chars_as_bytes(s@.subrange(0, k as int)));
    }
    assert(s@.subrange(0, n as int) =~= s@);
}

/// Flattens parsed elements into the FNC1-separated byte stream.
pub fn encode_with_fnc1(elements: &Vec<Element>) -> (out: Vec<u8>)
    requires
        forall|i: int| 0 <= i < elements@.len() ==> valid_ai(#[trigger] elements@[i].ai@),
    ensures
        out@ == fnc1_stream(elements_view(elements@)),
{
    let ghost els = elements_view(elements@);
    let mut out: Vec<u8> = Vec::new();
    out.push(FNC1);
    let n = elements.len();
    let mut i: usize = 0;
    while i < n
        invariant
            n == elements@.len(),
            els == elements_view(elements@),
            forall|t: int| 0 <= t < elements@.len() ==> valid_ai(#[trigger] elements@[t].ai@),
            i <= n,
            fnc1_stream(els) == out@ + fnc1_body(els, i as int),
        decreases n - i,
    {
        let ghost before = out@;
        let e = &elements[i];
        push_ascii(&mut out, e.ai.as_str());
        push_ascii(&mut out, e.data.as_str());
        let var = match ai_is_variable_length(e.ai.as_str()) {
            Some(v) => v,
            None => false,
        };
        if i + 1 < n && var {
            out.push(FNC1);
        }
        proof {
            assert(els[i as int] == (e.ai@, e.data@));
            assert(out@ + fnc1_body(els, i + 1) =~= before + fnc1_body(els, i as int));
        }
        i = i + 1;
    }
    proof {
        assert(out@ + fnc1_body(els, n as int) =~= out@);
    }
    out
}

/// The two-digit prefix of an AI, as a number.
pub open spec fn ai_prefix(ai: Seq<char>) -> int {
    (ai[0] as int - 48) * 10 + (ai[1] as int - 48)
}

/// An AI outside the GS1 table of predefined lengths (00 SSCC, 01-03
/// GTINs, 04, 11-19 dates, 20, 31-36 measures, 41x locations) takes data
/// of any length from 1 to 90 printable characters: such data is accepted,
/// and an element string of that one element parses back to it. For
/// example `(21)` serial numbers such as `ABC123` are accepted.
pub proof fn law_variable_length_data_accepted(ai: Seq<char>, data: Seq<char>)
    requires
        valid_ai(ai),
        !(0 <= ai_prefix(ai) <= 4 || 11 <= ai_prefix(ai) <= 20 || 31 <= ai_prefix(ai) <= 36
            || ai_prefix(ai) == 41),
        1 <= data.len() <= 90,
        forall|k: int| 0 <= k < data.len() ==> '!' <= #[trigger] data[k] <= '~' && data[k] != '(',
    ensures
        data_failure(ai, data) is None,
        parse_spec(render_elements(seq![(ai, data)])) == Ok::<Seq<(Seq<char>, Seq<char>)>, Failure>(
            seq![(ai, data)],
        ),
{
    assert(is_digit_char(ai[0]) && is_digit_char(ai[1]));
    assert(predefined_total(ai) is None);
    assert(!(exists|k: int| 0 <= k < data.len() && !data_char_ok(#[trigger] data[k])));
    assert(element_ok((ai, data)));
    law_parse_render_round_trip(seq![(ai, data)]);
}

/// An AI in the GS1 table of predefined lengths takes exactly a fixed
/// number of digits: 18 after `00`, 14 after `01`-`03`, 16 after `04`, 6
/// after `11`-`19`, 2 after `20`, 6 after `31nn`-`36nn` and 13 after
/// `41n` (the element's total length less the AI's); any other length,
/// or a non-digit, is refused.
pub proof fn law_fixed_length_data(ai: Seq<char>, data: Seq<char>)
    requires
        valid_ai(ai),
        0 <= ai_prefix(ai) <= 4 || 11 <= ai_prefix(ai) <= 20 || 31 <= ai_prefix(ai) <= 36 || ai_prefix(
            ai,
        ) == 41,
    ensures
        data_failure(ai, data) is None <==> (data.len() == (if ai_prefix(ai) == 0 {
            20int
        } else if ai_prefix(ai) <= 3 {
            16int
        } else if ai_prefix(ai) == 4 {
            18int
        } else if ai_prefix(ai) <= 19 {
            8int
        } else if ai_prefix(ai) == 20 {
            4int
        } else if ai_prefix(ai) <= 36 {
            10int
        } else {
            16int
        }) - ai.len() && data.len() > 0 && forall|k: int| 0 <= k < data.len() ==> '0' <= #[trigger] data[k] <= '9'),
{
    assert(is_digit_char(ai[0]) && is_digit_char(ai[1]));
    if data.len() > 0 && predefined_total(ai) is Some && data.len() == predefined_total(ai)->0 - ai.len() {
        if forall|k: int| 0 <= k < data.len() ==> '0' <= #[trigger] data[k] <= '9' {
            assert(!(exists|k: int| 0 <= k < data.len() && !is_digit_char(#[trigger] data[k])));
        } else {
            let k = choose|k: int| 0 <= k < data.len() && !('0' <= #[trigger] data[k] <= '9');
            assert(!is_digit_char(data[k]));
        }
    }
}

} // verus!
