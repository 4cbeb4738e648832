# bwipp

Barcode symbology encoders with machine-checked contracts, written in
Verus. Each public encoder states, in its `ensures`, exactly what it
returns for every input: the bar/space runs or module grid of the symbol,
or the error and its message.

## Layout

- `src/encoding.rs` — run-length linear patterns and module grids.
- `src/ean.rs`, `src/ean_addons.rs`, `src/ean_combined.rs` — EAN-13,
  EAN-8, UPC-A, UPC-E, M&S, the 2- and 5-digit add-ons and their
  combinations (ISBN, ISSN).
- `src/flattermarken.rs` — Flattermarken.
- `src/code128.rs`, `src/gs1.rs`, `src/gs1_128.rs` — Code 128 code-set
  selection, GS1 element strings, GS1-128, SSCC-18, EAN-14 and coupons.
- `src/gs1_cc/` — the GS1 composite component: the general-purpose field,
  its three-mode compaction, CC-A/CC-B/CC-C sizing, padding and packing.
- `src/dotcode/` — DotCode: mode selection, binary mode, Reed-Solomon
  over GF(113), masking, dot layout, scoring and symbol sizing.
- `src/gs1_dotcode.rs` — GS1 DotCode.
- `src/gs1_2d.rs`, `src/datamatrix_.rs`, `src/qrcode_.rs` — GS1 Data
  Matrix, NTIN, PPN, GS1 QR Code and the GS1 Digital Link forms; the
  options that select symbol sizes and error-correction levels.
- `src/substrate.rs` — the calls into the `datamatrix` and `qrcode`
  crates, which lay out the final 2D symbols; their results are named
  and passed through unchanged. A failing QR step comes back as the
  step and its error's text, and `src/qrcode_.rs` words the report.
- `src/matrix.rs` — turning those layouts into module grids.

Laws that span functions are public proof functions named `law_*`, next
to the functions they relate.
