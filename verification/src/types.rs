//! Structured log entry types.
use vstd::prelude::*;

verus! {

/// A log level.
#[derive(Clone, Copy, PartialEq, Eq, Structural, Debug)]
pub enum Level {
    Error,
    Warning,
    Info,
    Debug,
}

/// Where a log entry came from.
#[derive(Clone, Debug)]
pub struct Source {
    pub module: String,
    pub location: String,
}

/// An instant, as seconds and nanoseconds since the epoch.
#[derive(Clone, Copy, PartialEq, Eq, Structural, Debug)]
pub struct Timestamp {
    pub secs: u64,
    pub nanos: u32,
}

impl Timestamp {
    /// A timestamp is well formed when the nanoseconds stay below one
    /// second.
    pub open spec fn wf(self) -> bool {
        self.nanos < 1_000_000_000
    }

    /// Build a timestamp from seconds and sub-second nanoseconds.
    pub fn new(secs: u64, nanos: u32) -> (r: Timestamp)
        requires
            nanos < 1_000_000_000,
        ensures
            r.wf(),
            r.secs == secs,
            r.nanos == nanos,
    {
        Timestamp { secs, nanos }
    }
}

/// A structured log entry: when, how severe, where from, the message, and
/// free-form metadata.
#[derive(Clone, Debug)]
pub struct Entry {
    pub timestamp: Timestamp,
    pub level: Level,
    pub source: Source,
    pub message: String,
    pub metadata: Vec<(String, String)>,
}

impl Entry {
    /// An entry is well formed when its timestamp is and its metadata keys
    /// are distinct.
    pub open spec fn wf(self) -> bool {
        &&& self.timestamp.wf()
        &&& forall|i: int, j: int|
            0 <= i < j < self.metadata@.len() ==> #[trigger] self.metadata@[i].0@
                != #[trigger] self.metadata@[j].0@
    }

    /// Build an entry with no metadata yet.
    pub fn new(timestamp: Timestamp, level: Level, source: Source, message: String) -> (r: Entry)
        requires
            timestamp.wf(),
        ensures
            r.wf(),
            r.timestamp == timestamp,
            r.level == level,
            r.source == source,
            r.message == message,
            r.metadata@.len() == 0,
    {
        Entry { timestamp, level, source, message, metadata: Vec::new() }
    }

    /// Attach one metadata pair. Returns false — and changes nothing — when
    /// the key is already present, so the keys stay distinct.
    pub fn add_metadata(&mut self, key: String, value: String) -> (added: bool)
        requires
            old(self).wf(),
        ensures
            final(self).wf(),
            added == (forall|i: int|
                0 <= i < old(self).metadata@.len() ==> #[trigger] old(self).metadata@[i].0@
                    != key@),
            added ==> final(self).metadata@ == old(self).metadata@.push((key, value)),
            !added ==> *final(self) == *old(self),
            final(self).timestamp == old(self).timestamp,
            final(self).level == old(self).level,
            final(self).source == old(self).source,
            final(self).message == old(self).message,
    {
        let mut i: usize = 0;
        while i < self.metadata.len()
            invariant
                i <= self.metadata@.len(),
                *self == *old(self),
                old(self).wf(),
                forall|j: int| 0 <= j < i ==> #[trigger] self.metadata@[j].0@ != key@,
            decreases self.metadata@.len() - i,
        {
            if self.metadata[i].0 == key {
                return false;
            }
            i = i + 1;
        }
        self.metadata.push((key, value));
        proof {
            assert(final(self).metadata@.drop_last() =~= old(self).metadata@);
        }
        true
    }
}

} // verus!
