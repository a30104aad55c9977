//! An AcroForm field engine over an in-memory PDF object graph: field discovery,
//! type classification, state decoding and validated mutation.

pub mod codec;
pub mod discovery;
pub mod fill;
pub mod form;
pub mod keys;
pub mod laws;
pub mod mutate;
pub mod object;
pub mod state;

pub use codec::{from_pdf_utf16, to_pdf_utf16};
pub use fill::{is_true_text, lookup_key};
pub use form::{FieldError, FieldType, Form, LoadError, ValueError};
pub use object::{Dictionary, ObjectId, PdfDocument, PdfObject, StringFormat};
pub use state::FieldState;
