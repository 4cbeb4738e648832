//! Flattermarken: printer's marks that verify page order in folded
//! brochures. Each digit selects one of ten 4-run patterns; BWIPP's alphabet
//! is `"1234567890"`, so `'1'` selects pattern 0 and `'0'` pattern 9. There
//! is no start or stop pattern.

use vstd::prelude::*;

use crate::ean::{all_digits, text_for};
use crate::encoding::{LinearModel, LinearPattern, linear_result};
use crate::error::Error;
use crate::options::Options;
use crate::text::{digit_value, is_digit};

verus! {

/// Run-length patterns, indexed by the digit's position in [`BARCHARS`].
pub const PATTERNS: [&'static str; 10] = [
    "0018", "0117", "0216", "0315", "0414", "0513", "0612", "0711", "0810", "0900",
];

/// The alphabet order: `'1'..='9'` then `'0'`.
pub const BARCHARS: &'static str = "1234567890";

/// Position of digit `c` in [`BARCHARS`].
pub open spec fn barchar_index(c: char) -> int {
    if c == '0' {
        9
    } else {
        digit_value(c) - 1
    }
}

/// Runs of one digit.
pub open spec fn digit_runs(c: char) -> Seq<u8> {
    PATTERNS@[barchar_index(c)]@.map_values(|p: char| digit_value(p) as u8)
}

/// Runs of a digit string.
pub open spec fn flatter_runs(s: Seq<char>) -> Seq<u8>
    decreases s.len(),
{
    if s.len() == 0 {
        Seq::empty()
    } else {
        flatter_runs(s.drop_last()) + digit_runs(s.last())
    }
}

/// Model of `encode`.
pub open spec fn flattermarken_spec(data: Seq<char>, include_text: bool) -> Result<LinearModel, Seq<char>> {
    if data.len() == 0 {
        Err("Flattermarken payload must not be empty"@)
    } else if !all_digits(data) {
        Err("Flattermarken accepts digits only"@)
    } else if data.len() > 500 {
        Err("Flattermarken payload exceeds 500 chars"@)
    } else {
        Ok(LinearModel { bars: flatter_runs(data), text: text_for(include_text, data) })
    }
}

/// [`barchar_index`] is the position of the digit in [`BARCHARS`].
pub proof fn lemma_barchar_index(c: char)
    requires
        is_digit(c),
    ensures
        0 <= barchar_index(c) < 10,
        BARCHARS@[barchar_index(c)] == c,
{
    reveal_strlit("1234567890");
}

proof fn reveal_patterns()
    ensures
        forall|i: int| 0 <= i < 10 ==> (#[trigger] PATTERNS@[i])@.len() == 4,
        forall|i: int, j: int| 0 <= i < 10 && 0 <= j < 4 ==> is_digit(#[trigger] PATTERNS@[i]@[j]),
{
    reveal_strlit("0018");
    reveal_strlit("0117");
    reveal_strlit("0216");
    reveal_strlit("0315");
    reveal_strlit("0414");
    reveal_strlit("0513");
    reveal_strlit("0612");
    reveal_strlit("0711");
    reveal_strlit("0810");
    reveal_strlit("0900");
}

/// Every digit contributes exactly four runs, its own pattern, in order:
/// runs `4i .. 4i + 4` are the pattern of digit `i`.
pub proof fn law_four_runs_per_digit(s: Seq<char>)
    requires
        all_digits(s),
    ensures
        flatter_runs(s).len() == 4 * s.len(),
        forall|i: int|
            0 <= i < s.len() ==> #[trigger] flatter_runs(s).subrange(4 * i, 4 * i + 4) == digit_runs(
                s[i],
            ),
    decreases s.len(),
{
    reveal_patterns();
    if s.len() > 0 {
        let t = s.drop_last();
        assert(all_digits(t)) by {
            assert forall|k: int| 0 <= k < t.len() implies is_digit(#[trigger] t[k]) by {
                assert(is_digit(s[k]));
            }
        }
        law_four_runs_per_digit(t);
        assert(is_digit(s.last()));
        lemma_barchar_index(s.last());
        assert(digit_runs(s.last()).len() == 4);
        let f = flatter_runs(s);
        assert(f == flatter_runs(t) + digit_runs(s.last()));
        assert forall|i: int| 0 <= i < s.len() implies #[trigger] f.subrange(4 * i, 4 * i + 4)
            == digit_runs(s[i]) by {
            if i < t.len() {
                assert(f.subrange(4 * i, 4 * i + 4) =~= flatter_runs(t).subrange(4 * i, 4 * i + 4));
                assert(t[i] == s[i]);
            } else {
                assert(f.subrange(4 * i, 4 * i + 4) =~= digit_runs(s.last()));
            }
        }
    }
}

/// Encode a Flattermarken payload.
pub fn encode(data: &str, opts: &Options) -> (r: Result<LinearPattern, Error>)
    ensures
        linear_result(r, flattermarken_spec(data@, opts.include_text)),
{
    let n = data.unicode_len();
    if n == 0 {
        return Err(Error::InvalidData(String::from_str("Flattermarken payload must not be empty")));
    }
    let mut i: usize = 0;
    while i < n
        invariant
            n == data@.len(),
            i <= n,
            forall|j: int| 0 <= j < i ==> is_digit(#[trigger] data@[j]),
        decreases n - i,
    {
        let c = data.get_char(i);
        if !('0' <= c && c <= '9') {
            return Err(Error::InvalidData(String::from_str("Flattermarken accepts digits only")));
        }
        i = i + 1;
    }
    if n > 500 {
        return Err(Error::InvalidData(String::from_str("Flattermarken payload exceeds 500 chars")));
    }
    proof {
        reveal_patterns();
    }
    let mut runs: Vec<u8> = Vec::new();
    let mut i: usize = 0;
    while i < n
        invariant
            n == data@.len(),
            i <= n,
            all_digits(data@),
            forall|k: int| 0 <= k < 10 ==> (#[trigger] PATTERNS@[k])@.len() == 4,
            forall|k: int, j: int| 0 <= k < 10 && 0 <= j < 4 ==> is_digit(#[trigger] PATTERNS@[k]@[j]),
            runs@ == flatter_runs(data@.subrange(0, i as int)),
        decreases n - i,
    {
        let c = data.get_char(i);
        assert(is_digit(data@[i as int]));
        let idx: usize = if c == '0' { 9 } else { (c as u32 - '0' as u32 - 1) as usize };
        let pat = PATTERNS[idx];
        let mut k: usize = 0;
        let ghost before = runs@;
        while k < 4
            invariant
                k <= 4,
                idx < 10,
                pat@ == PATTERNS@[idx as int]@,
                pat@.len() == 4,
                forall|j: int| 0 <= j < 4 ==> is_digit(#[trigger] pat@[j]),
                runs@ == before + pat@.subrange(0, k as int).map_values(|p: char| digit_value(p) as u8),
            decreases 4 - k,
        {
            let ch = pat.get_char(k);
            assert(is_digit(pat@[k as int]));
            runs.push((ch as u32 - '0' as u32) as u8);
            proof {
                assert(runs@ =~= before + pat@.subrange(0, k + 1).map_values(|p: char| digit_value(p) as u8));
            }
            k = k + 1;
        }
        proof {
            let sub = data@.subrange(0, i + 1);
            assert(sub.drop_last() =~= data@.subrange(0, i as int));
            assert(sub.last() == c);
            assert(pat@.subrange(0, 4) =~= pat@);
            assert(runs@ =~= flatter_runs(sub));
        }
        i = i + 1;
    }
    proof {
        assert(data@.subrange(0, n as int) =~= data@);
    }
    let text = if opts.include_text {
        Some(String::from_str(data))
    } else {
        None
    };
    Ok(LinearPattern { bars: runs, text })
}

} // verus!
