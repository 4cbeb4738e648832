//! DotCode carrying a GS1 element string: the elements are parsed and
//! flattened, and every FNC1 becomes DotCode's `FN1` marker.

use vstd::prelude::*;

use crate::dotcode::modes::valid_stream;
use crate::dotcode::tables::FN1;
use crate::dotcode::{dotcode_result, dotcode_spec, encode_with_markers, DotCodeSymbol};
use crate::error::Error;
use crate::gs1::{
    elements_view, encode_with_fnc1, failure_message, fnc1_body, fnc1_stream, lemma_parse_facts,
    parse, parse_spec, valid_ai, FNC1,
};
use crate::text::{utf8_decode, utf8_to_string};

verus! {

/// The marker stream of a GS1 byte stream: FNC1 becomes `FN1`.
pub open spec fn markers_of(bytes: Seq<u8>) -> Seq<i16> {
    bytes.map_values(|b: u8| if b == FNC1 {
        FN1
    } else {
        b as i16
    })
}

/// Message prefix of this symbology.
pub open spec fn prefixed(m: Seq<char>) -> Seq<char> {
    "gs1dotcode: "@ + m
}

/// What [`encode`] returns.
pub open spec fn gs1_dotcode_spec(input: Seq<u8>) -> Result<(int, int, int, Seq<i8>), Seq<char>> {
    match utf8_decode(input) {
        None => Err("gs1dotcode: input is not valid UTF-8"@),
        Some(text) => match parse_spec(text) {
            Err(f) => Err(prefixed(failure_message(f))),
            Ok(els) => dotcode_spec(markers_of(fnc1_stream(els))),
        },
    }
}

/// Encodes a GS1 element string given as bytes as a DotCode symbol.
pub fn encode(input: &[u8]) -> (r: Result<DotCodeSymbol, Error>)
    requires
        input@.len() < 0x800_0000,
    ensures
        dotcode_result(r, gs1_dotcode_spec(input@)),
{
    let text = match utf8_to_string(input) {
        Some(t) => t,
        None => return Err(Error::InvalidData(String::from_str("gs1dotcode: input is not valid UTF-8"))),
    };
    let elements = match parse(text.as_str()) {
        Ok(e) => e,
        Err(e) => {
            let mut m = String::from_str("gs1dotcode: ");
            let msg = e.message();
            m.append(msg.as_str());
            return Err(Error::InvalidData(m));
        },
    };
    let ghost els = elements_view(elements@);
    proof {
        lemma_parse_facts(text@, 0);
        assert forall|k: int| 0 <= k < elements@.len() implies valid_ai(#[trigger] elements@[k].ai@) by {
            assert(els[k].0 == elements@[k].ai@);
        }
    }
    let bytes = encode_with_fnc1(&elements);
    let mut stream: Vec<i16> = Vec::new();
    let mut k: usize = 0;
    while k < bytes.len()
        invariant
            k <= bytes@.len(),
            stream@ == markers_of(bytes@.subrange(0, k as int)),
        decreases bytes@.len() - k,
    {
        let b = bytes[k];
        if b == FNC1 {
            stream.push(FN1);
        } else {
            stream.push(b as i16);
        }
        k = k + 1;
        assert(stream@ =~= markers_of(bytes@.subrange(0, k as int)));
    }
    proof {
        assert(bytes@.subrange(0, bytes@.len() as int) =~= bytes@);
        assert(valid_stream(stream@)) by {
            assert forall|j: int| 0 <= j < stream@.len() implies (0 <= #[trigger] stream@[j] <= 255
                || stream@[j] == FN1 || stream@[j] == crate::dotcode::tables::FN2 || stream@[j]
                == crate::dotcode::tables::FN3) by {
                let b = bytes@[j];
                assert(stream@[j] == (if b == FNC1 {
                    FN1
                } else {
                    b as i16
                }));
            }
        }
    }
    encode_with_markers(stream.as_slice())
}

} // verus!
