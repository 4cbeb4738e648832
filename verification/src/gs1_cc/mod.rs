//! The GS1 composite component (CC-A, CC-B, CC-C): the general-purpose
//! field that packs a GS1 element string into bits with three compaction
//! modes, and the packing of those bits into codewords.

pub mod gpf;
pub mod maps;
pub mod pack;
pub mod payload;
pub mod size;

use vstd::prelude::*;

use self::gpf::{build_gpf_with_method, gpf_result, lemma_gpf_result_facts, GpfBuild};
use self::pack::{ccb_bytes, cca_from, pack_cca_codewords, pack_ccb_bytes, pad_with_fillpat, padded};
use self::payload::{
    encode_payload, final_mode_for, final_mode_from, lemma_payload_len, payload_from, CcMode,
};
use self::size::{
    ccc_size, cca_ccb_size, select_cca_ccb_size, select_ccc_size, CcCSize, CcVersion,
};
use crate::error::Error;
use crate::text::{decimal, push_decimal};

verus! {

/// A CC-A or CC-B component: its version, column count and codewords
/// (base-928 for CC-A, bytes for CC-B).
#[derive(Debug, Clone)]
pub struct CcEncoded {
    pub version: CcVersion,
    pub columns: u8,
    pub codewords: Vec<u32>,
}

/// The bits before padding: the method bits, then the compacted field.
pub open spec fn cc_bits(p: (Seq<bool>, Seq<i32>)) -> Seq<bool> {
    p.0 + payload_from(p.1, 0, CcMode::Numeric)
}

/// The mode the compaction ends in.
pub open spec fn cc_mode(p: (Seq<bool>, Seq<i32>)) -> CcMode {
    final_mode_from(p.1, 0, CcMode::Numeric)
}

/// The message when no CC-A / CC-B size holds the bits.
pub open spec fn capacity_message(bits: nat, columns: nat) -> Seq<char> {
    "gs1_cc: payload ("@ + decimal(bits) + " bits) exceeds CC-A/CC-B capacity at "@ + decimal(
        columns,
    ) + " columns"@
}

/// Bytes as codewords.
pub open spec fn bytes_as_codewords(b: Seq<u8>) -> Seq<u32> {
    b.map_values(|x: u8| x as u32)
}

/// The CC-A / CC-B component of an element string with `columns`
/// columns: the smallest size that holds the bits, the bits padded to its
/// capacity, packed as base-928 digits (CC-A) or bytes (CC-B); else the
/// message of the error.
pub open spec fn encode_cc_spec(s: Seq<char>, columns: int) -> Result<(CcVersion, Seq<u32>), Seq<char>> {
    match gpf_result(s) {
        Err(m) => Err(m),
        Ok(p) => {
            let bits = cc_bits(p);
            match cca_ccb_size(bits.len() as int, columns) {
                None => Err(capacity_message(bits.len(), columns as nat)),
                Some((v, _, cap)) => {
                    let full = padded(bits, cap as int, cc_mode(p));
                    Ok(
                        (
                            v,
                            if v == CcVersion::A {
                                cca_from(full, 0)
                            } else {
                                bytes_as_codewords(ccb_bytes(full))
                            },
                        ),
                    )
                },
            }
        },
    }
}

/// The CC-C component of an element string beside a GS1-128 linear
/// `linwidth` modules wide: the PDF417 shape for the bits, and the bits
/// padded to its byte count and packed as bytes; else the message of the
/// error.
pub open spec fn encode_cc_c_spec(s: Seq<char>, linwidth: int) -> Result<(Seq<u8>, (int, int, int)), Seq<char>> {
    match gpf_result(s) {
        Err(m) => Err(m),
        Ok(p) => {
            let bits = cc_bits(p);
            let size = ccc_size(bits.len() as int, linwidth);
            Ok((ccb_bytes(padded(bits, size.2 * 8, cc_mode(p))), size))
        },
    }
}

fn concat_bits(a: &Vec<bool>, b: &Vec<bool>) -> (r: Vec<bool>)
    ensures
        r@ == a@ + b@,
{
    let mut r: Vec<bool> = Vec::new();
    let mut k: usize = 0;
    while k < a.len()
        invariant
            k <= a@.len(),
            r@ == a@.subrange(0, k as int),
        decreases a@.len() - k,
    {
        r.push(a[k]);
        k = k + 1;
        assert(r@ =~= a@.subrange(0, k as int));
    }
    let mut j: usize = 0;
    while j < b.len()
        invariant
            k == a@.len(),
            j <= b@.len(),
            r@ == a@ + b@.subrange(0, j as int),
        decreases b@.len() - j,
    {
        r.push(b[j]);
        j = j + 1;
        assert(r@ =~= a@ + b@.subrange(0, j as int));
    }
    assert(a@.subrange(0, k as int) =~= a@);
    assert(r@ =~= a@ + b@);
    r
}

fn capacity_error(bits: usize, columns: u8) -> (e: Error)
    ensures
        e matches Error::InvalidData(m) && m@ == capacity_message(bits as nat, columns as nat),
{
    let mut m = String::from_str("gs1_cc: payload (");
    push_decimal(&mut m, bits as u64);
    m.append(" bits) exceeds CC-A/CC-B capacity at ");
    push_decimal(&mut m, columns as u64);
    m.append(" columns");
    proof {
        reveal_strlit("gs1_cc: payload (");
        reveal_strlit(" bits) exceeds CC-A/CC-B capacity at ");
        reveal_strlit(" columns");
        assert(m@ =~= capacity_message(bits as nat, columns as nat));
    }
    Error::InvalidData(m)
}

/// Encodes an element string as a CC-A or CC-B component with `columns`
/// columns: method bits and compacted field, the smallest size whose
/// capacity holds them, padding, and packing.
pub fn encode_cc(gs1_input: &str, columns: u8) -> (r: Result<CcEncoded, Error>)
    requires
        gs1_input@.len() < 0x0FFF_0000,
    ensures
        match (r, encode_cc_spec(gs1_input@, columns as int)) {
            (Ok(e), Ok((v, cw))) => e.version == v && e.columns == columns && e.codewords@ == cw,
            (Err(Error::InvalidData(m)), Err(w)) => m@ == w,
            _ => false,
        },
{
    proof {
        lemma_gpf_result_facts(gs1_input@);
    }
    let GpfBuild { cdf, gpf } = build_gpf_with_method(gs1_input)?;
    let payload = encode_payload(gpf.as_slice());
    let final_mode = final_mode_for(gpf.as_slice());
    let full = concat_bits(&cdf, &payload);
    let total_payload_bits = full.len();
    let (version, _row_idx, cap_bits) = match select_cca_ccb_size(total_payload_bits, columns) {
        Some(x) => x,
        None => {
            return Err(capacity_error(total_payload_bits, columns));
        },
    };
    let padded_bits = pad_with_fillpat(full.as_slice(), cap_bits, final_mode);
    let codewords: Vec<u32> = match version {
        CcVersion::A => pack_cca_codewords(padded_bits.as_slice()),
        CcVersion::B => {
            let bytes = pack_ccb_bytes(padded_bits.as_slice());
            let mut cw: Vec<u32> = Vec::new();
            let mut k: usize = 0;
            while k < bytes.len()
                invariant
                    k <= bytes@.len(),
                    cw@ == bytes_as_codewords(bytes@.subrange(0, k as int)),
                decreases bytes@.len() - k,
            {
                cw.push(bytes[k] as u32);
                k = k + 1;
                assert(cw@ =~= bytes_as_codewords(bytes@.subrange(0, k as int)));
            }
            assert(bytes@.subrange(0, bytes@.len() as int) =~= bytes@);
            cw
        },
        CcVersion::C => {
            return Err(
                Error::InvalidData(
                    String::from_str("gs1_cc: CC-C selection happens at the higher (linear) level"),
                ),
            );
        },
    };
    Ok(CcEncoded { version, columns, codewords })
}

/// Encodes an element string as a CC-C component beside a GS1-128 linear
/// `linwidth` modules wide: the PDF417 shape for the bits, and the bits
/// padded to that shape's byte count and packed as bytes.
pub fn encode_cc_force_c(gs1_input: &str, linwidth: u32) -> (r: Result<(Vec<u8>, CcCSize), Error>)
    requires
        gs1_input@.len() < 0x0100_0000,
    ensures
        match (r, encode_cc_c_spec(gs1_input@, linwidth as int)) {
            (Ok((b, z)), Ok((w, sz))) => b@ == w && z.columns == sz.0 && z.eclevel == sz.1
                && z.byte_count == sz.2,
            (Err(Error::InvalidData(m)), Err(w)) => m@ == w,
            _ => false,
        },
{
    proof {
        lemma_gpf_result_facts(gs1_input@);
    }
    let GpfBuild { cdf, gpf } = build_gpf_with_method(gs1_input)?;
    let payload = encode_payload(gpf.as_slice());
    let final_mode = final_mode_for(gpf.as_slice());
    let full = concat_bits(&cdf, &payload);
    proof {
        lemma_payload_len(gpf@, 0, CcMode::Numeric);
        assert(cdf@.len() <= 4);
    }
    let total_payload_bits = full.len();
    let size = select_ccc_size(total_payload_bits, linwidth);
    let cap_bits = size.byte_count * 8;
    let padded_bits = pad_with_fillpat(full.as_slice(), cap_bits, final_mode);
    Ok((pack_ccb_bytes(padded_bits.as_slice()), size))
}

} // verus!
