//! The compaction method and general-purpose field of a composite
//! component, built from a GS1 element string.

use vstd::prelude::*;

use super::maps::FNC1;
use super::payload::valid_gpf;
use crate::error::Error;
use crate::gs1::{
    ai_is_variable_length, elements_view, failure_message, fnc1_body, lemma_parse_facts, parse,
    parse_spec, predefined_total, valid_ai, Element,
};
use crate::text::str_eq;

verus! {

/// The method bits (`cdf`) and the general-purpose field (`gpf`).
#[derive(Debug, Clone)]
pub struct GpfBuild {
    /// Bits that precede the compacted field.
    pub cdf: Vec<bool>,
    /// The field: byte values, and `FNC1` between elements.
    pub gpf: Vec<i32>,
}

/// Characters as field values.
pub open spec fn gpf_chars(s: Seq<char>) -> Seq<i32> {
    s.map_values(|c: char| (c as u8) as i32)
}

/// The field of the elements from `i` on: each AI and its data, with an
/// `FNC1` after every element of variable length that another follows.
pub open spec fn gpf_body(els: Seq<(Seq<char>, Seq<char>)>, i: int) -> Seq<i32>
    decreases els.len() - i,
{
    if i < 0 || i >= els.len() {
        Seq::empty()
    } else {
        let e = els[i];
        let sep: Seq<i32> = if i + 1 < els.len() && predefined_total(e.0) is None {
            seq![FNC1]
        } else {
            Seq::empty()
        };
        gpf_chars(e.0) + gpf_chars(e.1) + sep + gpf_body(els, i + 1)
    }
}

/// The first AI selects the compaction method with its own prefix.
pub open spec fn method_10_ai(ai: Seq<char>) -> bool {
    ai == "10"@ || ai == "11"@ || ai == "17"@
}

/// The method bits and field of a non-empty element list, carrying every
/// element.  When the first AI is 10, 11 or 17 the method bits are `1011`
/// (method 10, no compacted date).  For AI 10 the field starts with its
/// data, the lot number that method 10 implies, then an FNC1 when more
/// elements follow, then the later elements.  For AI 11 or 17 the field
/// starts with an FNC1 (no lot number) and then holds every element,
/// the first included.  Otherwise the method bit is `0` and the field
/// holds every element.
pub open spec fn gpf_with_method(els: Seq<(Seq<char>, Seq<char>)>) -> (Seq<bool>, Seq<i32>) {
    if els[0].0 == "10"@ {
        let sep: Seq<i32> = if els.len() > 1 {
            seq![FNC1]
        } else {
            Seq::empty()
        };
        (seq![true, false, true, true], gpf_chars(els[0].1) + sep + gpf_body(els, 1))
    } else if method_10_ai(els[0].0) {
        (seq![true, false, true, true], seq![FNC1] + gpf_body(els, 0))
    } else {
        (seq![false], gpf_body(els, 0))
    }
}

/// What [`build_gpf_with_method`] gives for an element string: the method
/// bits and field, or the message of its error.
pub open spec fn gpf_result(s: Seq<char>) -> Result<(Seq<bool>, Seq<i32>), Seq<char>> {
    match parse_spec(s) {
        Err(f) => Err("gs1_cc: "@ + failure_message(f)),
        Ok(els) => if els.len() == 0 {
            Err("gs1_cc: empty GS1 input"@)
        } else {
            Ok(gpf_with_method(els))
        },
    }
}

/// Field values are bytes or FNC1.
pub proof fn lemma_gpf_body_facts(els: Seq<(Seq<char>, Seq<char>)>, i: int)
    requires
        0 <= i,
    ensures
        valid_gpf(gpf_body(els, i)),
        gpf_body(els, i).len() == fnc1_body(els, i).len(),
    decreases els.len() - i,
{
    if i < els.len() {
        lemma_gpf_body_facts(els, i + 1);
        let e = els[i];
        let sep: Seq<i32> = if i + 1 < els.len() && predefined_total(e.0) is None {
            seq![FNC1]
        } else {
            Seq::empty()
        };
        let a = gpf_chars(e.0) + gpf_chars(e.1) + sep;
        let b = gpf_body(els, i + 1);
        assert forall|j: int| 0 <= j < (a + b).len() implies (#[trigger] (a + b)[j] == FNC1 || 0 <= (a
            + b)[j] <= 255) by {
            if j < a.len() {
                if j < gpf_chars(e.0).len() {
                } else if j < gpf_chars(e.0).len() + gpf_chars(e.1).len() {
                } else {
                }
            } else {
                assert((a + b)[j] == b[j - a.len()]);
            }
        }
    }
}

/// The field of a parsed element string is valid and no longer than the
/// text (plus two).
pub proof fn lemma_gpf_result_facts(s: Seq<char>)
    ensures
        gpf_result(s) matches Ok(p) ==> valid_gpf(p.1) && p.1.len() <= s.len() + 2,
{
    if s.len() > 0 {
        lemma_parse_facts(s, 0);
        match parse_spec(s) {
            Ok(els) => {
                if els.len() > 0 {
                    lemma_gpf_body_facts(els, 0);
                    lemma_gpf_body_facts(els, 1);
                    assert(valid_ai(els[0].0));
                    let p = gpf_with_method(els);
                    if els[0].0 == "10"@ {
                        let head = gpf_chars(els[0].1);
                        let sep: Seq<i32> = if els.len() > 1 {
                            seq![FNC1]
                        } else {
                            Seq::empty()
                        };
                        let b = gpf_body(els, 1);
                        assert(p.1 == head + sep + b);
                        assert forall|j: int| 0 <= j < p.1.len() implies (#[trigger] p.1[j] == FNC1
                            || 0 <= p.1[j] <= 255) by {
                            if j >= head.len() + sep.len() {
                                assert(p.1[j] == b[j - head.len() - sep.len()]);
                            }
                        }
                    } else if method_10_ai(els[0].0) {
                        let b = gpf_body(els, 0);
                        assert(p.1 == seq![FNC1] + b);
                        assert forall|j: int| 0 <= j < p.1.len() implies (#[trigger] p.1[j] == FNC1
                            || 0 <= p.1[j] <= 255) by {
                            if j >= 1 {
                                assert(p.1[j] == b[j - 1]);
                            }
                        }
                    }
                }
            },
            Err(f) => {},
        }
    }
}

/// Appends the characters of `s` as field values.
fn push_gpf_chars(out: &mut Vec<i32>, s: &str)
    ensures
        final(out)@ == old(out)@ + gpf_chars(s@),
{
    let n = s.unicode_len();
    let ghost start = out@;
    let mut k: usize = 0;
    while k < n
        invariant
            n == s@.len(),
            k <= n,
            out@ == start + gpf_chars(s@.subrange(0, k as int)),
        decreases n - k,
    {
        let c = s.get_char(k);
        out.push((c as u8) as i32);
        k = k + 1;
        assert(out@ =~= start + gpf_chars(s@.subrange(0, k as int)));
    }
    assert(s@.subrange(0, n as int) =~= s@);
}

/// Appends the field of `elements[start..]`.
fn push_gpf_body(out: &mut Vec<i32>, elements: &Vec<Element>, start: usize)
    requires
        forall|i: int| 0 <= i < elements@.len() ==> valid_ai(#[trigger] elements@[i].ai@),
    ensures
        final(out)@ == old(out)@ + gpf_body(elements_view(elements@), start as int),
{
    let ghost els = elements_view(elements@);
    let ghost first = out@;
    let n = elements.len();
    let mut i: usize = start;
    if i > n {
        i = n;
    }
    assert(out@ + gpf_body(els, i as int) =~= first + gpf_body(els, start as int));
    while i < n
        invariant
            n == elements@.len(),
            els == elements_view(elements@),
            forall|t: int| 0 <= t < elements@.len() ==> valid_ai(#[trigger] elements@[t].ai@),
            i <= n,
            out@ + gpf_body(els, i as int) == first + gpf_body(els, start as int),
        decreases n - i,
    {
        let ghost before = out@;
        let e = &elements[i];
        push_gpf_chars(out, e.ai.as_str());
        push_gpf_chars(out, e.data.as_str());
        let var = match ai_is_variable_length(e.ai.as_str()) {
            Some(v) => v,
            None => false,
        };
        if i + 1 < n && var {
            out.push(FNC1);
        }
        proof {
            assert(els[i as int] == (e.ai@, e.data@));
            assert(out@ + gpf_body(els, i + 1) =~= before + gpf_body(els, i as int));
        }
        i = i + 1;
    }
    assert(out@ + gpf_body(els, n as int) =~= out@);
}

/// The composite error for a rejected element string.
fn parse_failure(e: &crate::gs1::ParseError) -> (r: Error)
    ensures
        r matches Error::InvalidData(m) && m@ == "gs1_cc: "@ + failure_message(e@),
{
    let mut m = String::from_str("gs1_cc: ");
    let inner = e.message();
    m.append(inner.as_str());
    proof {
        reveal_strlit("gs1_cc: ");
    }
    Error::InvalidData(m)
}

/// Parses the element string and builds the method bits and the field:
/// with the method-10 prefix when the first AI is 10, 11 or 17, else the
/// single `0` bit.
pub fn build_gpf_with_method(gs1_input: &str) -> (r: Result<GpfBuild, Error>)
    ensures
        match (r, gpf_result(gs1_input@)) {
            (Ok(b), Ok(p)) => b.cdf@ == p.0 && b.gpf@ == p.1,
            (Err(Error::InvalidData(m)), Err(w)) => m@ == w,
            _ => false,
        },
{
    let elements = match parse(gs1_input) {
        Ok(v) => v,
        Err(e) => {
            return Err(parse_failure(&e));
        },
    };
    if elements.len() == 0 {
        return Err(Error::InvalidData(String::from_str("gs1_cc: empty GS1 input")));
    }
    let ghost els = elements_view(elements@);
    proof {
        lemma_parse_facts(gs1_input@, 0);
        assert(els[0] == (elements@[0].ai@, elements@[0].data@));
        assert forall|k: int| 0 <= k < elements@.len() implies valid_ai(#[trigger] elements@[k].ai@) by {
            assert(els[k].0 == elements@[k].ai@);
        }
        reveal_strlit("10");
        reveal_strlit("11");
        reveal_strlit("17");
    }
    let first_ai = elements[0].ai.as_str();
    let first_value = elements[0].data.as_str();
    let is_10 = str_eq(first_ai, "10");
    let is_method_10 = is_10 || str_eq(first_ai, "11") || str_eq(first_ai, "17");
    let mut cdf: Vec<bool> = Vec::new();
    let mut gpf: Vec<i32> = Vec::new();
    if is_method_10 {
        cdf.push(true);
        cdf.push(false);
        cdf.push(true);
        cdf.push(true);
        if is_10 {
            push_gpf_chars(&mut gpf, first_value);
            if elements.len() > 1 {
                gpf.push(FNC1);
            }
            push_gpf_body(&mut gpf, &elements, 1);
        } else {
            gpf.push(FNC1);
            push_gpf_body(&mut gpf, &elements, 0);
        }
    } else {
        cdf.push(false);
        push_gpf_body(&mut gpf, &elements, 0);
    }
    proof {
        let p = gpf_with_method(els);
        assert(cdf@ =~= p.0);
        assert(gpf@ =~= p.1);
    }
    Ok(GpfBuild { cdf, gpf })
}

/// Parses the element string into the field of method `0` (every element,
/// FNC1 after variable-length ones that another element follows).
pub fn build_gpf(gs1_input: &str) -> (r: Result<Vec<i32>, crate::gs1::ParseError>)
    ensures
        match (r, parse_spec(gs1_input@)) {
            (Ok(v), Ok(els)) => v@ == gpf_body(els, 0),
            (Err(e), Err(f)) => e@ == f,
            _ => false,
        },
{
    let elements = parse(gs1_input)?;
    proof {
        lemma_parse_facts(gs1_input@, 0);
        let els = elements_view(elements@);
        assert forall|k: int| 0 <= k < elements@.len() implies valid_ai(#[trigger] elements@[k].ai@) by {
            assert(els[k].0 == elements@[k].ai@);
        }
    }
    let mut gpf: Vec<i32> = Vec::new();
    push_gpf_body(&mut gpf, &elements, 0);
    Ok(gpf)
}

} // verus!
