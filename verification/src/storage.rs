//! Storage boundary.
//!
//! The simulation core is pure; persistence is an adapter. The model is a
//! snapshot plus an append-only event log. The reference adapter here keeps
//! both in memory; turning a world into snapshot text (and back) is the
//! codec's job and happens at the edge, outside this crate.

use crate::events::Event;
use crate::time::DayQuarter;
use vstd::prelude::*;

verus! {

#[derive(Debug)]
pub enum StorageError {
    /// Backend-specific failure, wrapped as text at the boundary.
    Backend(String),
    /// A snapshot or event payload failed to (de)serialize.
    Codec(String),
}

impl StorageError {
    /// The error as a human-readable line.
    pub fn message(&self) -> (s: String)
        ensures
            match self {
                StorageError::Backend(m) => s@ == "storage backend error: "@ + m@,
                StorageError::Codec(m) => s@ == "storage codec error: "@ + m@,
            },
    {
        match self {
            StorageError::Backend(m) => "storage backend error: ".to_owned().concat(m.as_str()),
            StorageError::Codec(m) => "storage codec error: ".to_owned().concat(m.as_str()),
        }
    }
}

/// The events of a log with `seq >= from`, in log order.
pub open spec fn events_from(log: Seq<Event>, from: u64) -> Seq<Event>
    decreases log.len(),
{
    if log.len() == 0 {
        Seq::empty()
    } else if log.last().seq >= from {
        events_from(log.drop_last(), from).push(log.last())
    } else {
        events_from(log.drop_last(), from)
    }
}

/// Persistence adapter for the strategic world: the latest snapshot, as the
/// text a codec wrote it in, and the append-only event log.
pub trait SimStore {
    /// Persist a snapshot's text.
    fn save_snapshot(&mut self, snapshot: String) -> Result<(), StorageError>;

    /// The most recent snapshot's text, if any.
    fn load_latest_snapshot(&mut self) -> Result<Option<String>, StorageError>;

    /// Append events. Events are immutable and ordered by `seq`; adapters
    /// may assume increasing `seq` values.
    fn append_events(&mut self, events: &[Event]) -> Result<(), StorageError>;

    /// Load all events with `seq >= from_seq`, in order.
    fn load_events_from(&mut self, from_seq: u64) -> Result<Vec<Event>, StorageError>;
}

/// In-memory store: the reference for adapter semantics.
#[derive(Debug)]
pub struct InMemoryStore {
    snapshot: Option<String>,
    events: Vec<Event>,
}

impl InMemoryStore {
    /// The stored snapshot text, if any.
    pub closed spec fn snapshot_view(&self) -> Option<Seq<char>> {
        match self.snapshot {
            Some(s) => Some(s@),
            None => None,
        }
    }

    /// The stored event log.
    pub closed spec fn log(&self) -> Seq<Event> {
        self.events@
    }

    pub fn new() -> (s: Self)
        ensures
            s.snapshot_view() is None,
            s.log().len() == 0,
    {
        InMemoryStore { snapshot: None, events: Vec::new() }
    }

}

impl SimStore for InMemoryStore {
    /// Keep a snapshot's text, replacing any earlier one.
    fn save_snapshot(&mut self, snapshot: String) -> (r: Result<(), StorageError>)
        ensures
            r is Ok,
            final(self).snapshot_view() == Some(snapshot@),
            final(self).log() == old(self).log(),
    {
        self.snapshot = Some(snapshot);
        Ok(())
    }

    /// The most recently kept snapshot's text, if any.
    fn load_latest_snapshot(&mut self) -> (r: Result<Option<String>, StorageError>)
        ensures
            *final(self) == *old(self),
            r matches Ok(x) && match x {
                Some(t) => old(self).snapshot_view() == Some(t@),
                None => old(self).snapshot_view() is None,
            },
    {
        match &self.snapshot {
            Some(t) => Ok(Some(t.clone())),
            None => Ok(None),
        }
    }

    /// Append events after those already stored; each stored entry is a
    /// clone of the given one.
    fn append_events(&mut self, events: &[Event]) -> (r: Result<(), StorageError>)
        ensures
            r is Ok,
            final(self).snapshot_view() == old(self).snapshot_view(),
            final(self).log().len() == old(self).log().len() + events@.len(),
            forall|i: int| 0 <= i < old(self).log().len() ==> #[trigger] final(self).log()[i] == old(self).log()[i],
            forall|i: int|
                0 <= i < events@.len() ==> cloned::<Event>(
                    events@[i],
                    #[trigger] final(self).log()[old(self).log().len() + i],
                ),
    {
        self.events.extend_from_slice(events);
        Ok(())
    }

    /// Every stored event with `seq >= from_seq`, in order (clones of the
    /// stored ones).
    fn load_events_from(&mut self, from_seq: u64) -> (r: Result<Vec<Event>, StorageError>)
        ensures
            *final(self) == *old(self),
            r matches Ok(v) && v@.len() == events_from(old(self).log(), from_seq).len() && forall|i: int|
                0 <= i < v@.len() ==> cloned::<Event>(events_from(old(self).log(), from_seq)[i], #[trigger] v@[i]),
    {
        let mut out: Vec<Event> = Vec::new();
        let mut i: usize = 0;
        while i < self.events.len()
            invariant
                i <= self.events@.len(),
                out@.len() == events_from(self.events@.take(i as int), from_seq).len(),
                forall|x: int|
                    0 <= x < out@.len() ==> cloned::<Event>(
                        events_from(self.events@.take(i as int), from_seq)[x],
                        #[trigger] out@[x],
                    ),
            decreases self.events@.len() - i,
        {
            proof {
                assert(self.events@.take(i + 1).drop_last() =~= self.events@.take(i as int));
                assert(self.events@.take(i + 1).last() == self.events@[i as int]);
            }
            let e = &self.events[i];
            if e.seq >= from_seq {
                let c = e.clone();
                out.push(c);
            }
            i = i + 1;
        }
        proof {
            assert(self.events@.take(self.events@.len() as int) =~= self.events@);
        }
        Ok(out)
    }
}


/// The text a quarter is stored as.
pub open spec fn quarter_text(q: DayQuarter) -> Seq<char> {
    match q {
        DayQuarter::Q1 => "Q1"@,
        DayQuarter::Q2 => "Q2"@,
        DayQuarter::Q3 => "Q3"@,
        DayQuarter::Q4 => "Q4"@,
    }
}

/// Read a stored quarter back: `Q1` to `Q4`, anything else a codec error
/// naming the text.
pub fn parse_quarter(s: &str) -> (r: Result<DayQuarter, StorageError>)
    ensures
        match r {
            Ok(q) => quarter_text(q) == s@,
            Err(StorageError::Codec(m)) => (forall|q: DayQuarter| quarter_text(q) != s@) && m@ == "unknown quarter \""@
                + s@ + "\""@,
            Err(StorageError::Backend(_)) => false,
        },
{
    let t = s.to_owned();
    let q1 = "Q1".to_owned();
    let q2 = "Q2".to_owned();
    let q3 = "Q3".to_owned();
    let q4 = "Q4".to_owned();
    if t == q1 {
        Ok(DayQuarter::Q1)
    } else if t == q2 {
        Ok(DayQuarter::Q2)
    } else if t == q3 {
        Ok(DayQuarter::Q3)
    } else if t == q4 {
        Ok(DayQuarter::Q4)
    } else {
        proof {
            assert forall|q: DayQuarter| quarter_text(q) != s@ by {
                match q {
                    DayQuarter::Q1 => {},
                    DayQuarter::Q2 => {},
                    DayQuarter::Q3 => {},
                    DayQuarter::Q4 => {},
                }
            }
        }
        Err(StorageError::Codec("unknown quarter \"".to_owned().concat(s).concat("\"")))
    }
}
} // verus!
