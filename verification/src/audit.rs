//! Entries of the access log.
use vstd::prelude::*;

verus! {

/// What an entry records.
#[derive(Debug, Clone, Copy, PartialEq, Eq)]
pub enum Outcome {
    /// A share was decrypted.
    Decrypted,
    /// A share could not be decrypted.
    Refused,
    /// A signature was produced.
    Signed,
}

/// One entry of the access log.
#[derive(Debug, Clone, Copy, PartialEq, Eq)]
pub struct Entry {
    /// Milliseconds since the Unix epoch.
    pub ts: u64,
    /// The attempt that the entry belongs to.
    pub attempt: u64,
    /// The share that the entry is about, if it is about one.
    pub shard: Option<u8>,
    /// What happened.
    pub outcome: Outcome,
}

impl Entry {
    /// The entry for a decryption outcome.
    pub open spec fn of_event(ts: u64, attempt: u64, event: (u8, bool)) -> Entry {
        Entry {
            ts,
            attempt,
            shard: Some(event.0),
            outcome: if event.1 {
                Outcome::Decrypted
            } else {
                Outcome::Refused
            },
        }
    }

    /// The entries for decryption outcomes, in their order.
    pub open spec fn of_events(ts: u64, attempt: u64, events: Seq<(u8, bool)>) -> Seq<Entry> {
        events.map_values(|event: (u8, bool)| Entry::of_event(ts, attempt, event))
    }

    /// A share was decrypted.
    pub fn ok(ts: u64, attempt: u64, id: u8) -> (entry: Entry)
        ensures
            entry == Entry::of_event(ts, attempt, (id, true)),
            entry.ts == ts && entry.attempt == attempt && entry.shard == Some(id),
            entry.outcome == Outcome::Decrypted,
    {
        Entry { ts, attempt, shard: Some(id), outcome: Outcome::Decrypted }
    }

    /// A share could not be decrypted.
    pub fn fail(ts: u64, attempt: u64, id: u8) -> (entry: Entry)
        ensures
            entry == Entry::of_event(ts, attempt, (id, false)),
            entry.ts == ts && entry.attempt == attempt && entry.shard == Some(id),
            entry.outcome == Outcome::Refused,
    {
        Entry { ts, attempt, shard: Some(id), outcome: Outcome::Refused }
    }

    /// A signature was produced.
    pub fn signed(ts: u64, attempt: u64) -> (entry: Entry)
        ensures
            entry == (Entry { ts, attempt, shard: None, outcome: Outcome::Signed }),
    {
        Entry { ts, attempt, shard: None, outcome: Outcome::Signed }
    }
}

/// Decryption outcomes have one entry each, in their order, with the share's id
/// and what happened.
pub proof fn events_have_their_entries(ts: u64, attempt: u64, events: Seq<(u8, bool)>)
    ensures
        Entry::of_events(ts, attempt, events).len() == events.len(),
        forall|i: int|
            0 <= i < events.len() ==> {
                let entry = #[trigger] Entry::of_events(ts, attempt, events)[i];
                &&& entry.ts == ts
                &&& entry.attempt == attempt
                &&& entry.shard == Some(events[i].0)
                &&& events[i].1 ==> entry.outcome == Outcome::Decrypted
                &&& !events[i].1 ==> entry.outcome == Outcome::Refused
            },
{
}

/// Appends an entry for each decryption outcome.
pub fn record(log: &mut Vec<Entry>, ts: u64, attempt: u64, events: &Vec<(u8, bool)>)
    ensures
        final(log)@ == old(log)@ + Entry::of_events(ts, attempt, events@),
        final(log)@.len() == old(log)@.len() + events@.len(),
        forall|i: int| 0 <= i < old(log)@.len() ==> #[trigger] final(log)@[i] == old(log)@[i],
        forall|i: int|
            0 <= i < events@.len() ==> {
                let entry = final(log)@[old(log)@.len() + i];
                &&& entry.ts == ts
                &&& entry.attempt == attempt
                &&& entry.shard == Some((#[trigger] events@[i]).0)
                &&& events@[i].1 ==> entry.outcome == Outcome::Decrypted
                &&& !events@[i].1 ==> entry.outcome == Outcome::Refused
            },
{
    let mut i: usize = 0;
    while i < events.len()
        invariant
            i <= events@.len(),
            log@ == old(log)@ + Entry::of_events(ts, attempt, events@.take(i as int)),
        decreases events@.len() - i,
    {
        let (id, ok) = events[i];
        let entry = if ok {
            Entry::ok(ts, attempt, id)
        } else {
            Entry::fail(ts, attempt, id)
        };
        log.push(entry);
        i += 1;
        proof {
            let done = events@.take(i as int);
            assert(done.drop_last() =~= events@.take(i - 1));
            assert(Entry::of_events(ts, attempt, done) =~= Entry::of_events(
                ts,
                attempt,
                events@.take(i - 1),
            ).push(entry));
        }
    }
    assert(events@.take(i as int) =~= events@);
}

} // verus!
