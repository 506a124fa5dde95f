//! Formatting of ACSL annotations in C source files, with every step stated and proved.

pub mod ast;
pub mod text;
pub mod error;
pub mod lexer;
pub mod parser;
pub mod format;
pub mod annotate;
pub mod diff;
pub mod laws;
pub mod roundtrip;
pub mod names;
pub mod spelling;
pub mod ascii;

use vstd::prelude::*;
pub use crate::error::Error;

verus! {

/// Formats every ACSL comment (`/*@ ... */` and `//@ ...`) of a C source text and keeps all
/// other text as it is.
pub fn format_acsl_file(input: &str) -> (out: String)
    ensures
        out@ == annotate::file_text(input@),
{
    annotate::format_acsl_annotations(input)
}

/// Formats one ACSL comment given with its delimiters.
pub fn format_acsl_comment(input: &str) -> (out: String)
    ensures
        out@ == annotate::single_text(input@),
{
    annotate::format_single_annotation(input)
}

/// Formats the content of an ACSL annotation given without its delimiters, as one line.
pub fn format_acsl_annotation(content: &str) -> (out: String)
    ensures
        out@ == annotate::annotation_text(content@, annotate::FormatStyle::Line),
{
    annotate::format_annotation_content(content, annotate::FormatStyle::Line)
}

/// Formats a standalone ACSL expression, or says why it cannot be read.
pub fn format_expression(expr: &str) -> (r: Result<String, Error>)
    ensures
        match parser::parse_text(expr@) {
            Ok(e) => r matches Ok(s) && s@ == format::format_spec(e),
            Err(er) => r matches Err(x) && x@ == er,
        },
{
    let parsed = match parser::parse_expression(expr) {
        Ok(e) => e,
        Err(e) => return Err(e),
    };
    Ok(format::format_expr(&parsed))
}

} // verus!
