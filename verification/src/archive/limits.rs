//! The limits an archive is unpacked within, and the tally kept against them.
use vstd::prelude::*;

use super::error::ArchiveError;

verus! {

/// How many entries an archive may hold, how many bytes it may unpack to, and
/// how many times its own size that may be.
#[derive(Debug, Clone, PartialEq, Eq)]
pub struct Limits {
    pub entries: u32,
    pub bytes: u64,
    pub ratio: u64,
}

impl Default for Limits {
    /// Ten thousand entries, 256 MiB, and two hundred times the packed size.
    fn default() -> (l: Self)
        ensures
            l.entries == 10_000,
            l.bytes == 256 * 1024 * 1024,
            l.ratio == 200,
    {
        Limits { entries: 10_000, bytes: 268_435_456, ratio: 200 }
    }
}

/// What has been unpacked so far: entries and bytes, against the limits and
/// the packed size of the archive.
#[derive(Debug)]
pub struct Tally<'a> {
    pub limits: &'a Limits,
    pub packed: u64,
    pub entries: u32,
    pub bytes: u64,
}

impl<'a> Tally<'a> {
    pub fn new(limits: &'a Limits, packed: u64) -> (t: Self)
        ensures
            t.limits == limits,
            t.packed == packed,
            t.entries == 0,
            t.bytes == 0,
    {
        Tally { limits, packed, entries: 0, bytes: 0 }
    }

    /// One more entry; too many once there are more than the limit.
    pub fn entry(&mut self) -> (r: Result<(), ArchiveError>)
        requires
            old(self).entries < u32::MAX,
        ensures
            called(*old(self), Call::Entry, *final(self), r),
    {
        self.entries = self.entries + 1;
        if self.entries > self.limits.entries {
            return Err(ArchiveError::TooMany { entries: self.limits.entries });
        }
        Ok(())
    }

    /// More bytes unpacked; too big past the limit, too dense past the ratio
    /// to the packed size.
    pub fn grow(&mut self, bytes: u64) -> (r: Result<(), ArchiveError>)
        requires
            old(self).bytes + bytes <= u64::MAX,
        ensures
            called(*old(self), Call::Grow(bytes), *final(self), r),
    {
        self.bytes = self.bytes + bytes;
        if self.bytes > self.limits.bytes {
            return Err(ArchiveError::TooBig { bytes: self.limits.bytes });
        }
        if self.packed > 0 && self.bytes / self.packed > self.limits.ratio {
            return Err(ArchiveError::TooDense { ratio: self.limits.ratio });
        }
        Ok(())
    }
}

/// What an entry answers once `count` entries are tallied: too many past the limit.
pub open spec fn entry_outcome(l: Limits, count: nat) -> Result<(), ArchiveError> {
    if count > l.entries {
        Err(ArchiveError::TooMany { entries: l.entries })
    } else {
        Ok(())
    }
}

/// What growing answers once `total` bytes are tallied: too big past the
/// limit, else too dense past the ratio to the packed size.
pub open spec fn grow_outcome(l: Limits, packed: u64, total: nat) -> Result<(), ArchiveError> {
    if total > l.bytes {
        Err(ArchiveError::TooBig { bytes: l.bytes })
    } else if packed > 0 && total / (packed as nat) > l.ratio {
        Err(ArchiveError::TooDense { ratio: l.ratio })
    } else {
        Ok(())
    }
}

/// A call made on a tally: one more entry, or more bytes.
#[derive(Debug, Clone, Copy, PartialEq, Eq)]
pub enum Call {
    Entry,
    Grow(u64),
}

/// One call on a tally, by the tally before and after it and what it answered.
pub open spec fn called<'a>(t: Tally<'a>, c: Call, u: Tally<'a>, r: Result<(), ArchiveError>) -> bool {
    &&& u.limits == t.limits
    &&& u.packed == t.packed
    &&& match c {
        Call::Entry => {
            &&& u.entries == t.entries + 1
            &&& u.bytes == t.bytes
            &&& r == entry_outcome(*t.limits, u.entries as nat)
        },
        Call::Grow(b) => {
            &&& u.bytes == t.bytes + b
            &&& u.entries == t.entries
            &&& r == grow_outcome(*t.limits, t.packed, u.bytes as nat)
        },
    }
}

/// How many entries the calls make.
pub open spec fn entries_in(calls: Seq<Call>) -> nat
    decreases calls.len(),
{
    if calls.len() == 0 {
        0
    } else {
        entries_in(calls.drop_last()) + if calls.last() is Entry {
            1nat
        } else {
            0nat
        }
    }
}

/// How many bytes the calls add.
pub open spec fn bytes_in(calls: Seq<Call>) -> nat
    decreases calls.len(),
{
    if calls.len() == 0 {
        0
    } else {
        bytes_in(calls.drop_last()) + match calls.last() {
            Call::Grow(b) => b as nat,
            Call::Entry => 0nat,
        }
    }
}

/// A tally made new and then called in turn counts every call: each entry
/// answers by all the entries so far, each growth by all the bytes so far,
/// whatever the calls before answered.
pub proof fn tally_counts_every_call<'a>(
    limits: &'a Limits,
    packed: u64,
    ts: Seq<Tally<'a>>,
    calls: Seq<Call>,
    rs: Seq<Result<(), ArchiveError>>,
)
    requires
        ts.len() == calls.len() + 1,
        rs.len() == calls.len(),
        ts[0].limits == limits,
        ts[0].packed == packed,
        ts[0].entries == 0,
        ts[0].bytes == 0,
        forall|i: int| 0 <= i < calls.len() ==> called(ts[i], calls[i], ts[i + 1], #[trigger] rs[i]),
    ensures
        forall|i: int|
            0 <= i <= calls.len() ==> (#[trigger] ts[i]).entries == entries_in(calls.take(i)) && ts[i].bytes
                == bytes_in(calls.take(i)) && ts[i].limits == limits && ts[i].packed == packed,
        forall|i: int|
            0 <= i < calls.len() ==> #[trigger] rs[i] == match calls[i] {
                Call::Entry => entry_outcome(*limits, entries_in(calls.take(i + 1))),
                Call::Grow(_) => grow_outcome(*limits, packed, bytes_in(calls.take(i + 1))),
            },
{
    assert forall|i: int| 0 <= i <= calls.len() implies (#[trigger] ts[i]).entries == entries_in(calls.take(i))
        && ts[i].bytes == bytes_in(calls.take(i)) && ts[i].limits == limits && ts[i].packed == packed by {
        lemma_counted(limits, packed, ts, calls, rs, i);
    }
    assert forall|i: int| 0 <= i < calls.len() implies #[trigger] rs[i] == match calls[i] {
        Call::Entry => entry_outcome(*limits, entries_in(calls.take(i + 1))),
        Call::Grow(_) => grow_outcome(*limits, packed, bytes_in(calls.take(i + 1))),
    } by {
        lemma_counted(limits, packed, ts, calls, rs, i);
        lemma_counted(limits, packed, ts, calls, rs, i + 1);
        assert(called(ts[i], calls[i], ts[i + 1], rs[i]));
    }
}

proof fn lemma_counted<'a>(
    limits: &'a Limits,
    packed: u64,
    ts: Seq<Tally<'a>>,
    calls: Seq<Call>,
    rs: Seq<Result<(), ArchiveError>>,
    i: int,
)
    requires
        ts.len() == calls.len() + 1,
        rs.len() == calls.len(),
        ts[0].limits == limits,
        ts[0].packed == packed,
        ts[0].entries == 0,
        ts[0].bytes == 0,
        forall|i: int| 0 <= i < calls.len() ==> called(ts[i], calls[i], ts[i + 1], #[trigger] rs[i]),
        0 <= i <= calls.len(),
    ensures
        ts[i].entries == entries_in(calls.take(i)),
        ts[i].bytes == bytes_in(calls.take(i)),
        ts[i].limits == limits,
        ts[i].packed == packed,
    decreases i,
{
    if i > 0 {
        lemma_counted(limits, packed, ts, calls, rs, i - 1);
        assert(called(ts[i - 1], calls[i - 1], ts[i], rs[i - 1]));
        assert(calls.take(i).drop_last() =~= calls.take(i - 1));
        assert(calls.take(i).last() == calls[i - 1]);
    } else {
        assert(calls.take(0).len() == 0);
    }
}

} // verus!
