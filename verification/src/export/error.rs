//! Why an export could not be written.
use vstd::prelude::*;

use crate::text::{put_str, string_of};

verus! {

/// What went wrong with an export. A path is held as the text it displays as,
/// and the kind of an I/O error as the text it displays as.
#[derive(Debug, Clone, PartialEq, Eq)]
pub enum ExportError {
    Occupied { path: String },
    Unwritable { path: String, kind: String },
    Asset { file: String, reason: String },
}

pub open spec fn export_code(e: ExportError) -> Seq<char> {
    match e {
        ExportError::Occupied { .. } => "export.occupied"@,
        ExportError::Unwritable { .. } => "export.unwritable"@,
        ExportError::Asset { .. } => "export.asset"@,
    }
}

/// What the user is told of the error.
pub open spec fn export_message(e: ExportError) -> Seq<char> {
    match e {
        ExportError::Occupied { path } => "`"@ + path@ + "` is taken and is not an empty folder"@,
        ExportError::Unwritable { path, kind } => "`"@ + path@ + "` cannot be written: "@ + kind@,
        ExportError::Asset { file, reason } => "the asset `"@ + file@ + "` cannot be exported: "@
            + reason@,
    }
}

impl ExportError {
    /// The error of a path that cannot be written, by the kind of the I/O error.
    pub fn unwritable(path: &str, kind: &str) -> (e: ExportError)
        ensures
            e matches ExportError::Unwritable { path: p, kind: k } && p@ == path@ && k@ == kind@,
    {
        ExportError::Unwritable { path: crate::text::owned(path), kind: crate::text::owned(kind) }
    }

    pub fn code(&self) -> (r: &'static str)
        ensures
            r@ == export_code(*self),
    {
        match self {
            ExportError::Occupied { .. } => "export.occupied",
            ExportError::Unwritable { .. } => "export.unwritable",
            ExportError::Asset { .. } => "export.asset",
        }
    }

    pub fn message(&self) -> (r: String)
        ensures
            r@ == export_message(*self),
    {
        let mut out: Vec<char> = Vec::new();
        match self {
            ExportError::Occupied { path } => {
                put_str(&mut out, "`");
                put_str(&mut out, path.as_str());
                put_str(&mut out, "` is taken and is not an empty folder");
            },
            ExportError::Unwritable { path, kind } => {
                put_str(&mut out, "`");
                put_str(&mut out, path.as_str());
                put_str(&mut out, "` cannot be written: ");
                put_str(&mut out, kind.as_str());
            },
            ExportError::Asset { file, reason } => {
                put_str(&mut out, "the asset `");
                put_str(&mut out, file.as_str());
                put_str(&mut out, "` cannot be exported: ");
                put_str(&mut out, reason.as_str());
            },
        }
        string_of(out.as_slice())
    }
}

} // verus!
