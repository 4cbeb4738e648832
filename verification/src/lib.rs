//! Barcode symbology encoders (EAN/UPC family, add-ons, Flattermarken,
//! GS1-128, GS1 composite components, GS1 2D wrappers and DotCode) with
//! machine-checked contracts.

pub mod encoding;
pub mod book_codes;
pub mod code128;
pub mod datamatrix_;
pub mod dotcode;
pub mod ean;
pub mod ean_addons;
pub mod ean_combined;
pub mod error;
pub mod flattermarken;
pub mod gs1;
pub mod gs1_128;
pub mod gs1_2d;
pub mod gs1_dotcode;
pub mod gs1_cc;
pub mod matrix;
pub mod options;
pub mod qrcode_;
pub mod substrate;
pub mod text;

