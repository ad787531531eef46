//! Unpacking an offline archive of a bundle: its format, the paths of its
//! entries, the limits it is unpacked within, and where its bundle lies.
pub mod error;
pub mod limits;

pub use error::ArchiveError;
pub use limits::{Limits, Tally};
pub mod guard;

pub use guard::{contained, place};
pub mod root;

pub use root::root;

use vstd::prelude::*;

verus! {

/// The formats an archive may come in.
#[derive(Debug, Clone, Copy, PartialEq, Eq)]
pub enum Format {
    Zip,
    Gzip,
}

/// The format that the first bytes of a file show: `PK` for a zip, the gzip
/// magic for a `.tar.gz`; no guess for anything else or fewer than two bytes.
pub open spec fn kind_of(head: Seq<u8>) -> Result<Format, ArchiveError> {
    if head.len() >= 2 && head[0] == 0x50 && head[1] == 0x4b {
        Ok(Format::Zip)
    } else if head.len() >= 2 && head[0] == 0x1f && head[1] == 0x8b {
        Ok(Format::Gzip)
    } else {
        Err(ArchiveError::UnknownFormat)
    }
}

/// The format of an archive by its first bytes.
pub fn kind(head: &[u8]) -> (r: Result<Format, ArchiveError>)
    ensures
        r == kind_of(head@),
{
    if head.len() < 2 {
        return Err(ArchiveError::UnknownFormat);
    }
    if head[0] == 0x50 && head[1] == 0x4b {
        Ok(Format::Zip)
    } else if head[0] == 0x1f && head[1] == 0x8b {
        Ok(Format::Gzip)
    } else {
        Err(ArchiveError::UnknownFormat)
    }
}

/// What an entry of an archive is.
#[derive(Debug, Clone, Copy, PartialEq, Eq)]
pub enum Entry {
    File,
    Directory,
    Link,
    Other,
}

/// The error refuses a link named `name`.
pub open spec fn link_named(e: ArchiveError, name: Seq<char>) -> bool {
    e matches ArchiveError::Link { entry } && entry@ == name
}

/// The error refuses an entry named `name` that leads out.
pub open spec fn escaping_named(e: ArchiveError, name: Seq<char>) -> bool {
    e matches ArchiveError::Escaping { entry } && entry@ == name
}

/// The result is where `place` puts the entry, or its refusal.
pub open spec fn placed_as(r: Result<Option<String>, ArchiveError>, into: Seq<char>, name: Seq<char>) -> bool {
    match guard::place_of(into, name) {
        Ok(p) => r matches Ok(Some(s)) && s@ == p,
        Err(_) => r matches Err(e) && escaping_named(e, name),
    }
}

/// What becomes of an entry named `name`: a link, or anything but a file or a
/// directory, is refused; a directory is passed over; a file is counted and
/// gets the path it is written to under `into`.
pub fn entry_path(kind: Entry, name: &str, into: &str, tally: &mut Tally) -> (r: Result<
    Option<String>,
    ArchiveError,
>)
    requires
        old(tally).entries < u32::MAX,
    ensures
        final(tally).limits == old(tally).limits,
        final(tally).packed == old(tally).packed,
        final(tally).bytes == old(tally).bytes,
        (kind == Entry::Link || kind == Entry::Other) ==> final(tally).entries == old(
            tally,
        ).entries,
        (kind == Entry::Link || kind == Entry::Other) ==> (r matches Err(e) && link_named(
            e,
            name@,
        )),
        kind == Entry::Directory ==> final(tally).entries == old(tally).entries,
        kind == Entry::Directory ==> (r matches Ok(None)),
        kind == Entry::File ==> final(tally).entries == old(tally).entries + 1,
        (kind == Entry::File && old(tally).entries + 1 > old(tally).limits.entries) ==> (r
            == Err::<Option<String>, ArchiveError>(
            ArchiveError::TooMany { entries: old(tally).limits.entries },
        )),
        (kind == Entry::File && old(tally).entries + 1 <= old(tally).limits.entries) ==> placed_as(
            r,
            into@,
            name@,
        ),
{
    match kind {
        Entry::Link | Entry::Other => Err(ArchiveError::Link { entry: crate::text::owned(name) }),
        Entry::Directory => Ok(None),
        Entry::File => {
            match tally.entry() {
                Err(e) => Err(e),
                Ok(()) => match place(into, name) {
                    Ok(p) => Ok(Some(p)),
                    Err(e) => Err(e),
                },
            }
        },
    }
}

} // verus!
