//! Log records and what replaying them does to a map.

use vstd::prelude::*;

verus! {

/// One mutation of the store, as the write-ahead log holds it.
#[derive(Debug, PartialEq, Eq)]
pub enum LogCommand {
    /// Bind `key` to `value`.
    Put { key: String, value: String },
    /// Unbind `key`.
    Remove { key: String },
}

/// The mathematical content of a [`LogCommand`].
pub enum Record {
    Put { key: Seq<char>, value: Seq<char> },
    Remove { key: Seq<char> },
}

impl View for LogCommand {
    type V = Record;

    open spec fn view(&self) -> Record {
        match *self {
            LogCommand::Put { key, value } => Record::Put { key: key@, value: value@ },
            LogCommand::Remove { key } => Record::Remove { key: key@ },
        }
    }
}

impl Clone for LogCommand {
    fn clone(&self) -> (res: LogCommand)
        ensures
            res == *self,
    {
        match self {
            LogCommand::Put { key, value } => LogCommand::Put {
                key: key.clone(),
                value: value.clone(),
            },
            LogCommand::Remove { key } => LogCommand::Remove { key: key.clone() },
        }
    }
}

impl Record {
    /// The key that the record is about.
    pub open spec fn key(self) -> Seq<char> {
        match self {
            Record::Put { key, .. } => key,
            Record::Remove { key } => key,
        }
    }

    /// What the key is bound to once the record is applied.
    pub open spec fn binding(self) -> Option<Seq<char>> {
        match self {
            Record::Put { value, .. } => Some(value),
            Record::Remove { .. } => None,
        }
    }
}

/// The map after one record is applied. Removing an absent key changes nothing.
pub open spec fn apply(map: Map<Seq<char>, Seq<char>>, record: Record) -> Map<Seq<char>, Seq<char>> {
    match record {
        Record::Put { key, value } => map.insert(key, value),
        Record::Remove { key } => map.remove(key),
    }
}

/// The map after the records are applied in order, first to last.
pub open spec fn replay(map: Map<Seq<char>, Seq<char>>, records: Seq<Record>) -> Map<
    Seq<char>,
    Seq<char>,
>
    decreases records.len(),
{
    if records.len() == 0 {
        map
    } else {
        apply(replay(map, records.drop_last()), records.last())
    }
}

/// What `key` is bound to in `map`, if anything.
pub open spec fn lookup(map: Map<Seq<char>, Seq<char>>, key: Seq<char>) -> Option<Seq<char>> {
    if map.contains_key(key) {
        Some(map[key])
    } else {
        None
    }
}

/// The binding that the last record about `key` leaves, or `None` where no
/// record is about `key`.
pub open spec fn last_write(records: Seq<Record>, key: Seq<char>) -> Option<Option<Seq<char>>>
    decreases records.len(),
{
    if records.len() == 0 {
        None
    } else if records.last().key() == key {
        Some(records.last().binding())
    } else {
        last_write(records.drop_last(), key)
    }
}

/// Replaying no record leaves the map as it is.
pub proof fn lemma_replay_nothing(map: Map<Seq<char>, Seq<char>>)
    ensures
        replay(map, Seq::empty()) == map,
{
}

/// Replaying a log with one more record at its end is replaying the log and
/// then applying that record.
pub proof fn lemma_replay_push(map: Map<Seq<char>, Seq<char>>, records: Seq<Record>, record: Record)
    ensures
        replay(map, records.push(record)) == apply(replay(map, records), record),
{
    assert(records.push(record).drop_last() =~= records);
}

/// A restart loses nothing: the map reached by applying the records of
/// `second`, one by one as they are logged, to the map that `first` replays
/// to, is the map that the whole log `first + second` replays to.
pub proof fn lemma_replay_concat(
    map: Map<Seq<char>, Seq<char>>,
    first: Seq<Record>,
    second: Seq<Record>,
)
    ensures
        replay(map, first + second) == replay(replay(map, first), second),
    decreases second.len(),
{
    if second.len() == 0 {
        assert(first + second =~= first);
    } else {
        lemma_replay_concat(map, first, second.drop_last());
        assert((first + second).drop_last() =~= first + second.drop_last());
    }
}

/// After a replay each key is bound as its last record left it, and a key
/// that no record is about is bound as before.
pub proof fn lemma_replay_lookup(
    map: Map<Seq<char>, Seq<char>>,
    records: Seq<Record>,
    key: Seq<char>,
)
    ensures
        lookup(replay(map, records), key) == match last_write(records, key) {
            Some(binding) => binding,
            None => lookup(map, key),
        },
    decreases records.len(),
{
    if records.len() > 0 {
        lemma_replay_lookup(map, records.drop_last(), key);
    }
}

/// Records about other keys leave a key bound as it was.
pub proof fn lemma_replay_other_keys(
    map: Map<Seq<char>, Seq<char>>,
    records: Seq<Record>,
    key: Seq<char>,
)
    requires
        forall|i: int| 0 <= i < records.len() ==> records[i].key() != key,
    ensures
        lookup(replay(map, records), key) == lookup(map, key),
    decreases records.len(),
{
    if records.len() > 0 {
        lemma_replay_other_keys(map, records.drop_last(), key);
    }
}

/// Writes to one key, in whatever order they were logged, leave the key
/// bound to the value of one of them: the one logged last.
pub proof fn lemma_replay_same_key(
    map: Map<Seq<char>, Seq<char>>,
    writes: Seq<Record>,
    key: Seq<char>,
)
    requires
        writes.len() > 0,
        forall|i: int| 0 <= i < writes.len() ==> writes[i] is Put && writes[i].key() == key,
    ensures
        lookup(replay(map, writes), key) == writes.last().binding(),
        exists|i: int|
            0 <= i < writes.len() && lookup(replay(map, writes), key) == Some(
                #[trigger] writes[i]->Put_value,
            ),
{
    lemma_replay_lookup(map, writes, key);
    assert(writes[writes.len() - 1] == writes.last());
}

/// Replaying a log a second time changes nothing. So a snapshot of the map
/// beside a log that is not yet truncated still recovers the map.
pub proof fn lemma_replay_idempotent(map: Map<Seq<char>, Seq<char>>, records: Seq<Record>)
    ensures
        replay(replay(map, records), records) == replay(map, records),
{
    let once = replay(map, records);
    let twice = replay(once, records);
    assert forall|key: Seq<char>| lookup(twice, key) == lookup(once, key) by {
        lemma_replay_lookup(map, records, key);
        lemma_replay_lookup(once, records, key);
    }
    lemma_same_lookups(twice, once);
}

/// Two maps that bind every key alike are the same map.
proof fn lemma_same_lookups(a: Map<Seq<char>, Seq<char>>, b: Map<Seq<char>, Seq<char>>)
    requires
        forall|key: Seq<char>| lookup(a, key) == lookup(b, key),
    ensures
        a == b,
{
    assert forall|key: Seq<char>| a.contains_key(key) == b.contains_key(key) by {
        assert(lookup(a, key) == lookup(b, key));
    }
    assert forall|key: Seq<char>| a.contains_key(key) implies a[key] == b[key] by {
        assert(lookup(a, key) == lookup(b, key));
    }
}

} // verus!
