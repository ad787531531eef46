//! Why an archive could not be unpacked.
use vstd::prelude::*;

use crate::text::{decimal, decimal_of, put_str, string_of};

verus! {

/// What went wrong with an archive. A path is held as the text it displays as,
/// and the kind of an I/O error as the text it displays as.
#[derive(Debug, Clone, PartialEq, Eq)]
pub enum ArchiveError {
    UnknownFormat,
    Damaged { reason: String },
    Unreadable { path: String, kind: String },
    Unwritable { path: String, kind: String },
    Escaping { entry: String },
    Link { entry: String },
    TooMany { entries: u32 },
    TooBig { bytes: u64 },
    TooDense { ratio: u64 },
    NoBundle,
    ManyBundles,
}

pub open spec fn archive_code(e: ArchiveError) -> Seq<char> {
    match e {
        ArchiveError::UnknownFormat => "archive.unknown-format"@,
        ArchiveError::Damaged { .. } => "archive.damaged"@,
        ArchiveError::Unreadable { .. } => "archive.unreadable"@,
        ArchiveError::Unwritable { .. } => "archive.unwritable"@,
        ArchiveError::Escaping { .. } => "archive.escaping-path"@,
        ArchiveError::Link { .. } => "archive.link"@,
        ArchiveError::TooMany { .. } => "archive.too-many-entries"@,
        ArchiveError::TooBig { .. } => "archive.too-big"@,
        ArchiveError::TooDense { .. } => "archive.too-dense"@,
        ArchiveError::NoBundle => "archive.no-bundle"@,
        ArchiveError::ManyBundles => "archive.many-bundles"@,
    }
}

/// What the user is told of the error.
pub open spec fn archive_message(e: ArchiveError) -> Seq<char> {
    match e {
        ArchiveError::UnknownFormat => "the file is neither a `.zip` nor a `.tar.gz`, and the format of an archive is not a guess"@,
        ArchiveError::Damaged { reason } => "the archive is damaged: "@ + reason@,
        ArchiveError::Unreadable { path, kind } => "`"@ + path@ + "` cannot be read: "@ + kind@,
        ArchiveError::Unwritable { path, kind } => "`"@ + path@ + "` cannot be written: "@ + kind@,
        ArchiveError::Escaping { entry } => "`"@ + entry@
            + "` leads out of the directory it is unpacked into"@,
        ArchiveError::Link { entry } => "`"@ + entry@ + "` is a link, and a bundle holds no links"@,
        ArchiveError::TooMany { entries } => "the archive holds more than "@ + decimal(
            entries as nat,
        ) + " entries"@,
        ArchiveError::TooBig { bytes } => "unpacked, the archive is over "@ + decimal(bytes as nat)
            + " bytes"@,
        ArchiveError::TooDense { ratio } => "the archive unpacks to over "@ + decimal(ratio as nat)
            + " times its own size"@,
        ArchiveError::NoBundle => "the archive holds no `roadmap.yaml`"@,
        ArchiveError::ManyBundles => "the archive holds several bundles, and which one to import is not a guess"@,
    }
}

impl ArchiveError {
    pub fn code(&self) -> (r: &'static str)
        ensures
            r@ == archive_code(*self),
    {
        match self {
            ArchiveError::UnknownFormat => "archive.unknown-format",
            ArchiveError::Damaged { .. } => "archive.damaged",
            ArchiveError::Unreadable { .. } => "archive.unreadable",
            ArchiveError::Unwritable { .. } => "archive.unwritable",
            ArchiveError::Escaping { .. } => "archive.escaping-path",
            ArchiveError::Link { .. } => "archive.link",
            ArchiveError::TooMany { .. } => "archive.too-many-entries",
            ArchiveError::TooBig { .. } => "archive.too-big",
            ArchiveError::TooDense { .. } => "archive.too-dense",
            ArchiveError::NoBundle => "archive.no-bundle",
            ArchiveError::ManyBundles => "archive.many-bundles",
        }
    }

    pub fn message(&self) -> (r: String)
        ensures
            r@ == archive_message(*self),
    {
        let mut out: Vec<char> = Vec::new();
        match self {
            ArchiveError::UnknownFormat => {
                put_str(
                    &mut out,
                    "the file is neither a `.zip` nor a `.tar.gz`, and the format of an archive is not a guess",
                );
            },
            ArchiveError::Damaged { reason } => {
                put_str(&mut out, "the archive is damaged: ");
                put_str(&mut out, reason.as_str());
            },
            ArchiveError::Unreadable { path, kind } => {
                put_str(&mut out, "`");
                put_str(&mut out, path.as_str());
                put_str(&mut out, "` cannot be read: ");
                put_str(&mut out, kind.as_str());
            },
            ArchiveError::Unwritable { path, kind } => {
                put_str(&mut out, "`");
                put_str(&mut out, path.as_str());
                put_str(&mut out, "` cannot be written: ");
                put_str(&mut out, kind.as_str());
            },
            ArchiveError::Escaping { entry } => {
                put_str(&mut out, "`");
                put_str(&mut out, entry.as_str());
                put_str(&mut out, "` leads out of the directory it is unpacked into");
            },
            ArchiveError::Link { entry } => {
                put_str(&mut out, "`");
                put_str(&mut out, entry.as_str());
                put_str(&mut out, "` is a link, and a bundle holds no links");
            },
            ArchiveError::TooMany { entries } => {
                put_str(&mut out, "the archive holds more than ");
                let d = decimal_of(*entries as u64);
                put_str(&mut out, d.as_str());
                put_str(&mut out, " entries");
            },
            ArchiveError::TooBig { bytes } => {
                put_str(&mut out, "unpacked, the archive is over ");
                let d = decimal_of(*bytes);
                put_str(&mut out, d.as_str());
                put_str(&mut out, " bytes");
            },
            ArchiveError::TooDense { ratio } => {
                put_str(&mut out, "the archive unpacks to over ");
                let d = decimal_of(*ratio);
                put_str(&mut out, d.as_str());
                put_str(&mut out, " times its own size");
            },
            ArchiveError::NoBundle => {
                put_str(&mut out, "the archive holds no `roadmap.yaml`");
            },
            ArchiveError::ManyBundles => {
                put_str(
                    &mut out,
                    "the archive holds several bundles, and which one to import is not a guess",
                );
            },
        }
        string_of(out.as_slice())
    }
}

} // verus!
