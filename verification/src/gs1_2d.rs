//! GS1 two-dimensional symbols: GS1 Data Matrix (square or rectangular),
//! NTIN, PPN, GS1 QR Code, and the GS1 Digital Link URI forms of Data
//! Matrix and QR Code.

use vstd::prelude::*;

use vstd::utf8::encode_utf8;

use crate::datamatrix_::{dm_shape_from, dm_shape_spec};
use crate::encoding::BitMatrix;
use crate::error::Error;
use crate::gs1::{
    elements_view, encode_with_fnc1, failure_message, fnc1_body, fnc1_stream, lemma_parse_facts,
    parse, parse_spec, valid_ai,
};
use crate::gs1_128::{trim_ws, trimmed};
use crate::matrix::{is_dm_matrix, is_qr_matrix, matrix_from_dm, matrix_from_qr};
use crate::options::{option_value, Options};
use crate::qrcode_::{
    no_fit_error, no_fit_message, opt_str, qr_ec_level, qr_ec_spec, qr_first_fit, qr_range,
    qr_search, qr_version, qr_version_spec,
};
use crate::substrate::{dm_encode, dm_encode_gs1, dm_gs1_symbol, dm_plain_symbol, DmShape};
use crate::text::str_eq;

verus! {

/// Why a GS1 Digital Link URI was rejected.
#[derive(Debug, Clone, Copy, PartialEq, Eq, Structural)]
pub enum DlUriError {
    /// It does not start with `http://` or `https://`.
    BadScheme,
    /// Its path has no `/AI/value` pair.
    NoAi,
}

/// The message of a URI error.
pub open spec fn dl_message(e: DlUriError) -> Seq<char> {
    match e {
        DlUriError::BadScheme => "GS1 DL URI: must start with http:// or https://"@,
        DlUriError::NoAi => "GS1 DL URI: no AI segments found in path"@,
    }
}

impl DlUriError {
    /// The message of the error.
    pub fn message(&self) -> (m: String)
        ensures
            m@ == dl_message(*self),
    {
        match self {
            DlUriError::BadScheme => String::from_str("GS1 DL URI: must start with http:// or https://"),
            DlUriError::NoAi => String::from_str("GS1 DL URI: no AI segments found in path"),
        }
    }
}

/// `s` starts with `p`.
pub open spec fn starts_with(s: Seq<char>, p: Seq<char>) -> bool {
    p.len() <= s.len() && s.subrange(0, p.len() as int) == p
}

/// Length of the URI's scheme (`http://` or `https://`), `-1` for any
/// other start.
pub open spec fn dl_scheme_len(s: Seq<char>) -> int {
    if starts_with(s, "http://"@) {
        7
    } else if starts_with(s, "https://"@) {
        8
    } else {
        -1
    }
}

/// Index of the first `?` or `#` at or after `i` (the length when none):
/// where the path ends.
pub open spec fn dl_path_end(s: Seq<char>, i: int) -> int
    decreases s.len() - i,
{
    if i < 0 || i >= s.len() {
        s.len() as int
    } else if s[i] == '?' || s[i] == '#' {
        i
    } else {
        dl_path_end(s, i + 1)
    }
}

/// `/AI/v` at `a`: slashes at `a` and `b`, a valid AI between them, and a
/// value that starts before `hi` right after `b`.
pub open spec fn dl_pair_at(s: Seq<char>, a: int, b: int, hi: int) -> bool {
    &&& 0 <= a < b
    &&& b + 1 < hi <= s.len()
    &&& s[a] == '/'
    &&& s[b] == '/'
    &&& valid_ai(s.subrange(a + 1, b))
    &&& s[b + 1] != '/'
}

/// Some `/AI/value` pair lies in `s[lo..hi]`.
pub open spec fn dl_has_pair(s: Seq<char>, lo: int, hi: int) -> bool {
    exists|a: int, b: int| lo <= a && #[trigger] dl_pair_at(s, a, b, hi)
}

/// A GS1 Digital Link URI is accepted when it starts with `http://` or
/// `https://` and its path (up to `?` or `#`) holds an `/AI/value` pair.
pub open spec fn dl_uri_spec(s: Seq<char>) -> Result<(), DlUriError> {
    let p = dl_scheme_len(s);
    if p < 0 {
        Err(DlUriError::BadScheme)
    } else if dl_has_pair(s, p, dl_path_end(s, p)) {
        Ok(())
    } else {
        Err(DlUriError::NoAi)
    }
}

fn has_prefix(s: &str, n: usize, p: &str) -> (r: bool)
    requires
        n == s@.len(),
    ensures
        r == starts_with(s@, p@),
{
    let m = p.unicode_len();
    if m > n {
        return false;
    }
    let head = s.substring_char(0, m);
    str_eq(head, p)
}

/// Checks the shape of a GS1 Digital Link URI: an `http://` or
/// `https://` scheme and an `/AI/value` pair in the path.
pub fn parse_dl_uri(uri: &str) -> (r: Result<(), DlUriError>)
    ensures
        r == dl_uri_spec(uri@),
{
    let n = uri.unicode_len();
    let ghost s = uri@;
    proof {
        reveal_strlit("http://");
        reveal_strlit("https://");
    }
    let p: usize = if has_prefix(uri, n, "http://") {
        7
    } else if has_prefix(uri, n, "https://") {
        8
    } else {
        return Err(DlUriError::BadScheme);
    };
    let mut hi: usize = p;
    while hi < n && uri.get_char(hi) != '?' && uri.get_char(hi) != '#'
        invariant
            n == s.len(),
            s == uri@,
            p <= hi <= n,
            p as int == dl_scheme_len(s),
            dl_path_end(s, p as int) == dl_path_end(s, hi as int),
        decreases n - hi,
    {
        hi = hi + 1;
    }
    let mut a: usize = p;
    while a < hi
        invariant
            n == s.len(),
            s == uri@,
            p <= a <= hi <= n,
            p as int == dl_scheme_len(s),
            hi == dl_path_end(s, p as int),
            forall|a2: int, b: int| p <= a2 < a ==> !dl_pair_at(s, a2, b, hi as int),
        decreases hi - a,
    {
        if uri.get_char(a) == '/' {
            let mut r: usize = 0;
            while r < 5 && a + 1 + r < hi && '0' <= uri.get_char(a + 1 + r) && uri.get_char(a + 1 + r)
                <= '9'
                invariant
                    n == s.len(),
                    s == uri@,
                    a < hi <= n,
                    r <= 5,
                    a + 1 + r <= hi,
                    forall|t: int| 0 <= t < r ==> '0' <= #[trigger] s[a + 1 + t] <= '9',
                decreases 5 - r,
            {
                r = r + 1;
            }
            let b = a + 1 + r;
            if 2 <= r && r <= 4 && b < hi && hi - b > 1 && uri.get_char(b) == '/' && uri.get_char(b + 1) != '/' {
                proof {
                    let ai = s.subrange(a + 1, b as int);
                    assert forall|k: int| 0 <= k < ai.len() implies crate::gs1::is_digit_char(
                        #[trigger] ai[k],
                    ) by {
                        assert(ai[k] == s[a + 1 + k]);
                    }
                    assert(dl_pair_at(s, a as int, b as int, hi as int));
                    assert(dl_has_pair(s, p as int, hi as int));
                }
                return Ok(());
            }
            proof {
                assert forall|b2: int| !dl_pair_at(s, a as int, b2, hi as int) by {
                    if dl_pair_at(s, a as int, b2, hi as int) {
                        let ai = s.subrange(a + 1, b2);
                        let l = b2 - a - 1;
                        assert(2 <= l <= 4);
                        assert forall|t: int| 0 <= t < l implies '0' <= #[trigger] s[a + 1 + t] <= '9' by {
                            assert(ai[t] == s[a + 1 + t]);
                        }
                        if r < l {
                            assert('0' <= s[a + 1 + r] <= '9');
                        } else if r > l {
                            assert('0' <= s[a + 1 + l] <= '9');
                        }
                    }
                }
            }
        }
        a = a + 1;
    }
    Err(DlUriError::NoAi)
}

/// The GS1 Data Matrix outcome for an element string and option values:
/// the parse error; the option error; the layout error; or the grid of
/// the symbol for the FNC1-separated element stream (its leading FNC1 is
/// the symbol's own FNC1 codeword).
pub open spec fn gs1_dm_ok(
    r: Result<BitMatrix, Error>,
    data: Seq<char>,
    version: Option<Seq<char>>,
    shape: Option<Seq<char>>,
) -> bool {
    match parse_spec(data) {
        Err(f) => r matches Err(Error::InvalidData(m)) && m@ == failure_message(f),
        Ok(els) => match dm_shape_spec(version, shape) {
            Err(w) => r matches Err(Error::InvalidOption(m)) && m@ == w,
            Ok(sh) => match dm_gs1_symbol(fnc1_body(els, 0), sh) {
                Err(e) => r matches Err(Error::Backend(m)) && m@ == "GS1 DataMatrix: "@ + e,
                Ok(b) => r matches Ok(m) && is_dm_matrix(m, b),
            },
        },
    }
}

/// The FNC1-separated stream of a parsed element string without its
/// leading FNC1.
fn gs1_payload(data: &str) -> (r: Result<Vec<u8>, Error>)
    ensures
        match (r, parse_spec(data@)) {
            (Ok(v), Ok(els)) => v@ == fnc1_body(els, 0),
            (Err(Error::InvalidData(m)), Err(f)) => m@ == failure_message(f),
            _ => false,
        },
{
    let elements = match parse(data) {
        Ok(v) => v,
        Err(e) => {
            return Err(Error::InvalidData(e.message()));
        },
    };
    let ghost els = elements_view(elements@);
    proof {
        lemma_parse_facts(data@, 0);
        assert forall|k: int| 0 <= k < elements@.len() implies valid_ai(#[trigger] elements@[k].ai@) by {
            assert(els[k].0 == elements@[k].ai@);
        }
    }
    let bytes = encode_with_fnc1(&elements);
    let mut payload: Vec<u8> = Vec::new();
    let mut k: usize = 1;
    while k < bytes.len()
        invariant
            1 <= k <= bytes@.len(),
            bytes@ == fnc1_stream(els),
            payload@ == bytes@.subrange(1, k as int),
        decreases bytes@.len() - k,
    {
        payload.push(bytes[k]);
        k = k + 1;
        assert(payload@ =~= bytes@.subrange(1, k as int));
    }
    assert(payload@ =~= fnc1_body(els, 0));
    Ok(payload)
}

/// GS1 Data Matrix with the `version` / `shape` option values.
fn encode_gs1_datamatrix_with(data: &str, version: Option<&str>, shape: Option<&str>) -> (r: Result<
    BitMatrix,
    Error,
>)
    ensures
        gs1_dm_ok(r, data@, opt_str(version), opt_str(shape)),
{
    let payload = gs1_payload(data)?;
    let sh = dm_shape_from(version, shape)?;
    match dm_encode_gs1(payload.as_slice(), sh) {
        Ok(b) => Ok(matrix_from_dm(&b)),
        Err(e) => {
            let mut m = String::from_str("GS1 DataMatrix: ");
            m.append(e.as_str());
            proof {
                reveal_strlit("GS1 DataMatrix: ");
            }
            Err(Error::Backend(m))
        },
    }
}

/// Encodes a GS1 element string `(AI)data...` as GS1 Data Matrix, in the
/// sizes the `version` / `shape` options allow (squares by default).
pub fn encode_gs1_datamatrix(data: &str, opts: &Options) -> (r: Result<BitMatrix, Error>)
    ensures
        gs1_dm_ok(r, data@, option_value(*opts, "version"@), option_value(*opts, "shape"@)),
{
    encode_gs1_datamatrix_with(data, opts.get("version"), opts.get("shape"))
}

/// GS1 Data Matrix forced rectangular: as [`encode_gs1_datamatrix`] with
/// `shape` set to `rectangular`, other options kept.
pub fn encode_gs1_datamatrix_rectangular(data: &str, opts: &Options) -> (r: Result<BitMatrix, Error>)
    ensures
        gs1_dm_ok(r, data@, option_value(*opts, "version"@), Some("rectangular"@)),
{
    encode_gs1_datamatrix_with(data, opts.get("version"), Some("rectangular"))
}

/// The element string of an NTIN: the trimmed input as given when it
/// already starts with `(`, else behind the AI `(8003)`.
pub open spec fn ntin_input(data: Seq<char>) -> Seq<char> {
    let t = trimmed(data);
    if t.len() > 0 && t[0] == '(' {
        t
    } else {
        "(8003)"@ + t
    }
}

/// Encodes an NTIN as GS1 Data Matrix: bare digits are wrapped in AI
/// 8003, an element string passes through.
pub fn encode_ntin(data: &str, opts: &Options) -> (r: Result<BitMatrix, Error>)
    ensures
        gs1_dm_ok(r, ntin_input(data@), option_value(*opts, "version"@), option_value(*opts, "shape"@)),
{
    let t = trim_ws(data);
    let n = t.unicode_len();
    let payload = if n > 0 && t.get_char(0) == '(' {
        String::from_str(t)
    } else {
        let mut p = String::from_str("(8003)");
        p.append(t);
        p
    };
    proof {
        reveal_strlit("(8003)");
    }
    encode_gs1_datamatrix(payload.as_str(), opts)
}

/// The PPN envelope: `[)>` RS `06` GS `9N`, the PPN, RS EOT.
pub open spec fn ppn_envelope(ppn: Seq<u8>) -> Seq<u8> {
    seq![0x5Bu8, 0x29, 0x3E, 0x1E, 0x30, 0x36, 0x1D, 0x39, 0x4E] + ppn + seq![0x1Eu8, 0x04]
}

/// What the PPN encoder gives: the empty-input error; the option error;
/// the layout error; or the grid of the plain Data Matrix of the envelope
/// around the trimmed PPN's bytes.
pub open spec fn ppn_ok(r: Result<BitMatrix, Error>, data: Seq<char>, opts: Options) -> bool {
    let t = trimmed(data);
    if t.len() == 0 {
        r matches Err(Error::InvalidData(m)) && m@ == "PPN payload must not be empty"@
    } else {
        match dm_shape_spec(option_value(opts, "version"@), option_value(opts, "shape"@)) {
            Err(w) => r matches Err(Error::InvalidOption(m)) && m@ == w,
            Ok(sh) => match dm_plain_symbol(ppn_envelope(encode_utf8(t)), sh) {
                Err(e) => r matches Err(Error::Backend(m)) && m@ == "PPN Data Matrix: "@ + e,
                Ok(b) => r matches Ok(m) && is_dm_matrix(m, b),
            },
        }
    }
}

/// Encodes a Pharmacy Product Number as Data Matrix inside the ANSI
/// MH10.8.2 envelope.
pub fn encode_ppn(data: &str, opts: &Options) -> (r: Result<BitMatrix, Error>)
    ensures
        ppn_ok(r, data@, *opts),
{
    let payload = trim_ws(data);
    if payload.unicode_len() == 0 {
        return Err(Error::InvalidData(String::from_str("PPN payload must not be empty")));
    }
    let mut bytes: Vec<u8> = Vec::new();
    bytes.push(0x5B);
    bytes.push(0x29);
    bytes.push(0x3E);
    bytes.push(0x1E);
    bytes.push(0x30);
    bytes.push(0x36);
    bytes.push(0x1D);
    bytes.push(0x39);
    bytes.push(0x4E);
    let pb = payload.as_bytes();
    let ghost start = bytes@;
    let mut k: usize = 0;
    while k < pb.len()
        invariant
            k <= pb@.len(),
            bytes@ == start + pb@.subrange(0, k as int),
        decreases pb@.len() - k,
    {
        bytes.push(pb[k]);
        k = k + 1;
        assert(bytes@ =~= start + pb@.subrange(0, k as int));
    }
    bytes.push(0x1E);
    bytes.push(0x04);
    proof {
        assert(pb@.subrange(0, pb@.len() as int) =~= pb@);
        assert(bytes@ =~= ppn_envelope(encode_utf8(payload@)));
    }
    let shape = crate::datamatrix_::symbol_list_from_opts(opts)?;
    match dm_encode(bytes.as_slice(), shape) {
        Ok(b) => Ok(matrix_from_dm(&b)),
        Err(e) => {
            let mut m = String::from_str("PPN Data Matrix: ");
            m.append(e.as_str());
            proof {
                reveal_strlit("PPN Data Matrix: ");
            }
            Err(Error::Backend(m))
        },
    }
}

/// Encodes a GS1 Digital Link URI as Data Matrix: the URI's shape is
/// checked, then the URI itself is encoded as plain Data Matrix.
pub fn encode_gs1_dl_datamatrix(data: &str, opts: &Options) -> (r: Result<BitMatrix, Error>)
    ensures
        match dl_uri_spec(data@) {
            Err(e) => r matches Err(Error::InvalidData(m)) && m@ == dl_message(e),
            Ok(_) => crate::datamatrix_::dm_plain_ok(r, data@, *opts),
        },
{
    match parse_dl_uri(data) {
        Err(e) => {
            return Err(Error::InvalidData(e.message()));
        },
        Ok(_) => {},
    }
    crate::datamatrix_::encode(data, opts)
}

/// Encodes a GS1 Digital Link URI as QR Code: the URI's shape is checked,
/// then the URI itself is encoded as plain QR Code.
pub fn encode_gs1_dl_qrcode(data: &str, opts: &Options) -> (r: Result<BitMatrix, Error>)
    ensures
        match dl_uri_spec(data@) {
            Err(e) => r matches Err(Error::InvalidData(m)) && m@ == dl_message(e),
            Ok(_) => crate::qrcode_::qr_plain_ok(r, data@, *opts),
        },
{
    match parse_dl_uri(data) {
        Err(e) => {
            return Err(Error::InvalidData(e.message()));
        },
        Ok(_) => {},
    }
    crate::qrcode_::encode(data, opts)
}

/// The GS1 QR Code outcome: the parse error; the `eclevel` or `version`
/// error; the grid of the first version (the one asked for, else 1 to 40)
/// whose symbol "FNC1 in first position + element stream" builds; or the
/// no-fit error with the last failure.
pub open spec fn gs1_qr_ok(r: Result<BitMatrix, Error>, data: Seq<char>, opts: Options) -> bool {
    match parse_spec(data) {
        Err(f) => r matches Err(Error::InvalidData(m)) && m@ == failure_message(f),
        Ok(els) => gs1_qr_payload_ok(r, fnc1_body(els, 0), opts),
    }
}

/// The GS1 QR Code outcome for an element stream without its leading FNC1.
pub open spec fn gs1_qr_payload_ok(r: Result<BitMatrix, Error>, payload: Seq<u8>, opts: Options) -> bool {
    match qr_ec_spec(option_value(opts, "eclevel"@)) {
        Err(w) => r matches Err(Error::InvalidOption(m)) && m@ == w,
        Ok(ec) => match qr_version_spec(option_value(opts, "version"@)) {
            Err(w) => r matches Err(Error::InvalidOption(m)) && m@ == w,
            Ok(vo) => match qr_search(true, payload, ec, qr_range(vo).0, qr_range(vo).1, None) {
                Ok(q) => r matches Ok(m) && is_qr_matrix(m, q),
                Err(last) => r matches Err(Error::Backend(m)) && m@ == no_fit_message(
                    "GS1 QR Code: no version fits payload ("@,
                    payload.len(),
                    " bytes after FNC1 strip). Last error: "@,
                    last,
                ),
            },
        },
    }
}

/// GS1 QR Code of an element stream without its leading FNC1: the FNC1
/// mode indicator, the stream in optimal segments, at the first version
/// that holds it.
pub fn encode_gs1_qrcode_substrate(payload: &[u8], opts: &Options) -> (r: Result<BitMatrix, Error>)
    ensures
        gs1_qr_payload_ok(r, payload@, *opts),
{
    let ec = qr_ec_level(opts.get("eclevel"))?;
    let version = qr_version(opts.get("version"))?;
    match qr_first_fit(true, payload, ec, version) {
        Ok(q) => Ok(matrix_from_qr(&q)),
        Err(last) => Err(
            no_fit_error(
                "GS1 QR Code: no version fits payload (",
                payload.len(),
                " bytes after FNC1 strip). Last error: ",
                last,
            ),
        ),
    }
}

/// Encodes a GS1 element string as GS1 QR Code (FNC1 in first position).
pub fn encode_gs1_qrcode(data: &str, opts: &Options) -> (r: Result<BitMatrix, Error>)
    ensures
        gs1_qr_ok(r, data@, *opts),
{
    let payload = gs1_payload(data)?;
    encode_gs1_qrcode_substrate(payload.as_slice(), opts)
}

} // verus!
