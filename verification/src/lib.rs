//! Reads an electronic invoice out of a PDF/A-3 container.
//!
//! The crate parses the object graph of a PDF held in memory, lists the files
//! attached through the catalog's name tree, decodes their streams, checks the
//! PDF/A-3 identification in the XMP metadata and picks the invoice XML among
//! the attachments. [`validate_and_extract`] does all of it in one call;
//! [`ERechnungService::process_pdf`] gives the same result as plain texts.
//!
//! The layers, from the bytes upwards: [`lexer`] (tokens), [`parser`]
//! (objects), [`indirect`] (numbered objects and the data of streams),
//! [`filter`] (stream filters), [`xref`], [`xref_stream`] and [`revisions`]
//! (the object table), [`document`] (loading and resolving objects),
//! [`nametree`] (embedded files), [`xmp`] (PDF/A identification), [`select`]
//! (the choice of the invoice) and [`erechnung_pdf_service`] (the whole).
pub mod bytes;
pub mod document;
pub mod erechnung_pdf_service;
pub mod error;
pub mod filter;
pub mod indirect;
pub mod lexer;
pub mod nametree;
pub mod object;
pub mod parser;
pub mod revisions;
pub mod select;
pub mod strings;
pub mod text;
pub mod xmp;
pub mod xref;
pub mod xref_stream;

pub use erechnung_pdf_service::{
    validate_and_extract, CoreError, ERechnungService, ErrorResponse, ExtractionOutcome,
    SuccessResponse,
};
pub use error::{ErrorKind, ParseError};
