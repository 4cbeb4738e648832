//! Escape processing of DotCode input: `^FNC1`, `^FNC3`, `^ECInnnnnn` and
//! `^^` become function-character markers (or a literal caret).

use vstd::prelude::*;

use super::modes::lift_bytes;
use super::tables::{FN1, FN2, FN3};
use crate::error::Error;
use crate::text::{utf8_decode, utf8_to_string};

verus! {

/// `prefix` in front of a successful parse; errors pass through.
pub open spec fn cons_ok(prefix: Seq<i16>, r: Result<Seq<i16>, Seq<char>>) -> Result<Seq<i16>, Seq<char>> {
    match r {
        Ok(s) => Ok(prefix + s),
        Err(e) => Err(e),
    }
}

/// The name shown for an unknown function character.
pub open spec fn tag_name(tag: Seq<u8>) -> Seq<char> {
    match utf8_decode(tag) {
        Some(t) => t,
        None => "<non-utf8>"@,
    }
}

/// `bytes[from..from + 4]` spells `F`, `N`, `C`, `d`.
pub open spec fn is_fnc(bytes: Seq<u8>, from: int, d: u8) -> bool {
    bytes[from] == 70 && bytes[from + 1] == 78 && bytes[from + 2] == 67 && bytes[from + 3] == d
}

/// The ten characters from `from` are `^ECI` and six digits.
pub open spec fn eci_digits_ok(bytes: Seq<u8>, from: int) -> bool {
    forall|k: int| from + 4 <= k < from + 10 ==> 48 <= #[trigger] bytes[k] <= 57
}

/// The marker stream of `input[idx..]`, or the error message.
pub open spec fn parse_from(input: Seq<u8>, parsefnc: bool, idx: int) -> Result<Seq<i16>, Seq<char>>
    decreases input.len() - idx,
{
    if idx < 0 || idx >= input.len() {
        Ok(Seq::empty())
    } else if input[idx] != 94 || !parsefnc {
        cons_ok(seq![input[idx] as i16], parse_from(input, parsefnc, idx + 1))
    } else {
        let rest = input.len() - idx;
        if rest < 2 {
            Err("DotCode parsefnc: caret character truncated"@)
        } else if input[idx + 1] == 94 {
            cons_ok(seq![94i16], parse_from(input, parsefnc, idx + 2))
        } else if rest < 5 {
            Err("DotCode parsefnc: function character truncated"@)
        } else if is_fnc(input, idx + 1, 49) {
            cons_ok(seq![FN1], parse_from(input, parsefnc, idx + 5))
        } else if is_fnc(input, idx + 1, 51) {
            cons_ok(seq![FN3], parse_from(input, parsefnc, idx + 5))
        } else if input[idx + 1] == 69 && input[idx + 2] == 67 && input[idx + 3] == 73 {
            if rest < 10 {
                Err("DotCode parsefnc: ECI truncated"@)
            } else if !eci_digits_ok(input, idx) {
                Err("DotCode parsefnc: ECI must be 000000 to 999999"@)
            } else {
                cons_ok(
                    seq![FN2] + lift_bytes(input.subrange(idx + 4, idx + 10)),
                    parse_from(input, parsefnc, idx + 10),
                )
            }
        } else {
            Err("DotCode parsefnc: unknown function character: "@ + tag_name(input.subrange(idx + 1, idx + 5)))
        }
    }
}

/// Without escape processing, or without a caret from `idx` on, every byte
/// passes through unchanged and in order.
pub proof fn lemma_parse_plain(input: Seq<u8>, parsefnc: bool, idx: int)
    requires
        0 <= idx <= input.len(),
        parsefnc ==> forall|k: int| idx <= k < input.len() ==> #[trigger] input[k] != 94,
    ensures
        parse_from(input, parsefnc, idx) == Ok::<Seq<i16>, Seq<char>>(
            lift_bytes(input.subrange(idx, input.len() as int)),
        ),
    decreases input.len() - idx,
{
    if idx < input.len() {
        lemma_parse_plain(input, parsefnc, idx + 1);
        assert(seq![input[idx] as i16] + lift_bytes(input.subrange(idx + 1, input.len() as int))
            =~= lift_bytes(input.subrange(idx, input.len() as int)));
    } else {
        assert(lift_bytes(input.subrange(idx, input.len() as int)) =~= Seq::<i16>::empty());
    }
}

/// An input without a caret is passed through unchanged whether or not
/// escapes are processed: each byte becomes one value, in order, `^` and
/// bytes of 128 or more included.
pub proof fn law_parse_without_caret(input: Seq<u8>, parsefnc: bool)
    requires
        !parsefnc || !input.contains(94),
    ensures
        parse_from(input, parsefnc, 0) == Ok::<Seq<i16>, Seq<char>>(lift_bytes(input)),
{
    if parsefnc {
        assert forall|k: int| 0 <= k < input.len() implies #[trigger] input[k] != 94 by {
            if input[k] == 94 {
                assert(input.contains(94));
            }
        }
    }
    lemma_parse_plain(input, parsefnc, 0);
    assert(input.subrange(0, input.len() as int) =~= input);
}

/// Translates the escapes of `input` (when `parsefnc` is on) into the
/// marker stream the encoder takes.
#[verifier::loop_isolation(false)]
pub fn parse_dotcode_input(input: &[u8], parsefnc: bool) -> (r: Result<Vec<i16>, Error>)
    ensures
        match (r, parse_from(input@, parsefnc, 0)) {
            (Ok(v), Ok(s)) => v@ == s,
            (Err(Error::InvalidData(m)), Err(w)) => m@ == w,
            _ => false,
        },
        !parsefnc ==> (r matches Ok(v) && v@ == lift_bytes(input@)),
{
    proof {
        if !parsefnc {
            lemma_parse_plain(input@, false, 0);
            assert(input@.subrange(0, input@.len() as int) =~= input@);
        }
    }
    let mut out: Vec<i16> = Vec::new();
    let mut idx: usize = 0;
    let n = input.len();
    proof {
        assert(cons_ok(out@, parse_from(input@, parsefnc, 0)) == parse_from(input@, parsefnc, 0)) by {
            assert(out@ =~= Seq::<i16>::empty());
            match parse_from(input@, parsefnc, 0) {
                Ok(s) => {
                    assert(out@ + s =~= s);
                },
                Err(e) => {},
            }
        }
    }
    while idx < n
        invariant
            n == input@.len(),
            idx <= n,
            cons_ok(out@, parse_from(input@, parsefnc, idx as int)) == parse_from(input@, parsefnc, 0),
        decreases n - idx,
    {
        let b = input[idx];
        let ghost before = out@;
        if b != 94 || !parsefnc {
            out.push(b as i16);
            idx = idx + 1;
            proof {
                lemma_cons_push(before, b as i16, parse_from(input@, parsefnc, idx as int));
            }
            continue;
        }
        let rest_len = n - idx;
        if rest_len < 2 {
            return Err(Error::InvalidData(String::from_str("DotCode parsefnc: caret character truncated")));
        }
        if input[idx + 1] == 94 {
            out.push(94);
            idx = idx + 2;
            proof {
                lemma_cons_push(before, 94i16, parse_from(input@, parsefnc, idx as int));
            }
            continue;
        }
        if rest_len < 5 {
            return Err(Error::InvalidData(String::from_str("DotCode parsefnc: function character truncated")));
        }
        let t0 = input[idx + 1];
        let t1 = input[idx + 2];
        let t2 = input[idx + 3];
        let t3 = input[idx + 4];
        if t0 == 70 && t1 == 78 && t2 == 67 && t3 == 49 {
            out.push(FN1);
            idx = idx + 5;
            proof {
                lemma_cons_push(before, FN1, parse_from(input@, parsefnc, idx as int));
            }
        } else if t0 == 70 && t1 == 78 && t2 == 67 && t3 == 51 {
            out.push(FN3);
            idx = idx + 5;
            proof {
                lemma_cons_push(before, FN3, parse_from(input@, parsefnc, idx as int));
            }
        } else if t0 == 69 && t1 == 67 && t2 == 73 {
            if rest_len < 10 {
                return Err(Error::InvalidData(String::from_str("DotCode parsefnc: ECI truncated")));
            }
            let mut k: usize = idx + 4;
            while k < idx + 10
                invariant
                    n == input@.len(),
                    idx + 10 <= n,
                    idx + 4 <= k <= idx + 10,
                    forall|j: int| idx + 4 <= j < k ==> 48 <= #[trigger] input@[j] <= 57,
                decreases idx + 10 - k,
            {
                if !(48 <= input[k] && input[k] <= 57) {
                    proof {
                        assert(!eci_digits_ok(input@, idx as int)) by {
                            assert(!(48 <= input@[k as int] <= 57));
                        }
                    }
                    return Err(Error::InvalidData(String::from_str(
                        "DotCode parsefnc: ECI must be 000000 to 999999",
                    )));
                }
                k = k + 1;
            }
            out.push(FN2);
            let mut j: usize = idx + 4;
            while j < idx + 10
                invariant
                    n == input@.len(),
                    idx + 10 <= n,
                    idx + 4 <= j <= idx + 10,
                    out@ == before + seq![FN2] + lift_bytes(input@.subrange(idx + 4, j as int)),
                decreases idx + 10 - j,
            {
                out.push(input[j] as i16);
                j = j + 1;
                assert(out@ =~= before + seq![FN2] + lift_bytes(input@.subrange(idx + 4, j as int)));
            }
            let ghost nxt = parse_from(input@, parsefnc, idx + 10);
            proof {
                assert(eci_digits_ok(input@, idx as int));
                match nxt {
                    Ok(s) => {
                        assert(out@ + s =~= before + ((seq![FN2] + lift_bytes(input@.subrange(idx + 4, idx + 10))) + s));
                    },
                    Err(e) => {},
                }
            }
            idx = idx + 10;
        } else {
            let tag = &input[idx + 1..idx + 5];
            let mut text = String::from_str("DotCode parsefnc: unknown function character: ");
            match utf8_to_string(tag) {
                Some(name) => text.append(name.as_str()),
                None => text.append("<non-utf8>"),
            }
            proof {
                assert(tag@ =~= input@.subrange(idx + 1, idx + 5));
            }
            return Err(Error::InvalidData(text));
        }
    }
    proof {
        match parse_from(input@, parsefnc, 0) {
            Ok(s) => {
                assert(out@ + Seq::<i16>::empty() =~= out@);
            },
            Err(e) => {},
        }
    }
    Ok(out)
}

proof fn lemma_cons_push(before: Seq<i16>, x: i16, rest: Result<Seq<i16>, Seq<char>>)
    ensures
        cons_ok(before.push(x), rest) == cons_ok(before, cons_ok(seq![x], rest)),
{
    match rest {
        Ok(s) => {
            assert(before.push(x) + s =~= before + (seq![x] + s));
        },
        Err(e) => {},
    }
}

} // verus!
