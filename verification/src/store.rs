//! The durable store: the map, the operation in progress, and what the
//! snapshot and the write-ahead log hold.

use crate::error::KvError;
use crate::record::{
    apply, lemma_replay_idempotent, lemma_replay_push, lookup, replay, LogCommand, Record,
};
use crate::table::{distinct_keys, map_of, pairs_of, Table};
use vstd::prelude::*;

verus! {

/// What reading the snapshot file gave.
#[derive(Debug, PartialEq, Eq)]
pub enum SnapshotRead {
    /// There is no snapshot file.
    Absent,
    /// The file is there but could not be read or decoded.
    Unusable(KvError),
    /// The entries of the snapshot.
    Loaded(Vec<(String, String)>),
}

impl SnapshotRead {
    /// The map to start from. Without a usable snapshot it is empty.
    pub open spec fn contents(self) -> Map<Seq<char>, Seq<char>> {
        match self {
            SnapshotRead::Loaded(entries) => map_of(pairs_of(entries@)),
            _ => Map::empty(),
        }
    }

    /// The fault that made the snapshot unusable, if it is.
    pub open spec fn fault(self) -> Option<KvError> {
        match self {
            SnapshotRead::Unusable(fault) => Some(fault),
            _ => None,
        }
    }
}

/// The records of a log that was read without a failure.
pub open spec fn logged(outcomes: Seq<Result<LogCommand, KvError>>) -> Seq<Record> {
    Seq::new(outcomes.len(), |i: int| outcomes[i]->Ok_0@)
}

/// File work that the store asks its caller to do.
#[derive(Debug, PartialEq, Eq)]
pub enum Action {
    /// Append the record to the log and make it durable.
    Append(LogCommand),
    /// Replace the snapshot file, as one step, by one that holds these
    /// entries.
    WriteSnapshot(Vec<(String, String)>),
    /// Replace the log by an empty one.
    TruncateWal,
    /// Nothing more to do: the operation ended with this result.
    Finish(Result<(), KvError>),
}

/// The operation in progress.
#[derive(Debug, PartialEq, Eq)]
pub enum Phase {
    /// None: reads and writes may start.
    Normal,
    /// The record is being appended to the log. The map does not show it
    /// yet.
    Logging(LogCommand),
    /// Compaction is writing the snapshot.
    WritingSnapshot,
    /// Compaction has written the snapshot and is truncating the log.
    TruncatingLog,
}

struct State {
    map: Table,
    phase: Phase,
    snapshot: Ghost<Map<Seq<char>, Seq<char>>>,
    wal: Ghost<Seq<Record>>,
}

impl State {
    spec fn consistent(self) -> bool {
        &&& self.map.wf()
        &&& replay(self.snapshot@, self.wal@) == self.map.model()
        &&& self.phase is TruncatingLog ==> self.snapshot@ == self.map.model()
    }

    fn vacant() -> (res: State)
        ensures
            res.consistent(),
    {
        State {
            map: Table::new(),
            phase: Phase::Normal,
            snapshot: Ghost(Map::empty()),
            wal: Ghost(Seq::empty()),
        }
    }
}

/// A key-value store whose state survives a restart.
///
/// The store never touches a file. `set`, `remove` and `compact` start an
/// operation and return the first [`Action`] for the caller to perform;
/// [`KvStore::resume`] takes the outcome of that action and returns the next
/// one, until it returns [`Action::Finish`]. The caller lets no other
/// operation start in between.
pub struct KvStore {
    state: State,
    fault: Option<KvError>,
}

impl View for KvStore {
    type V = Map<Seq<char>, Seq<char>>;

    /// The map as readers see it.
    closed spec fn view(&self) -> Map<Seq<char>, Seq<char>> {
        self.state.map.model()
    }
}

impl KvStore {
    #[verifier::type_invariant]
    spec fn inv(self) -> bool {
        self.state.consistent()
    }

    /// The operation in progress.
    pub closed spec fn phase(&self) -> Phase {
        self.state.phase
    }

    /// What the snapshot file holds, read as a map, going by the outcomes
    /// that the store was told.
    pub closed spec fn snapshot(&self) -> Map<Seq<char>, Seq<char>> {
        self.state.snapshot@
    }

    /// The records that the log holds, oldest first, going by the outcomes
    /// that the store was told.
    pub closed spec fn wal(&self) -> Seq<Record> {
        self.state.wal@
    }

    /// A restart would find the map as it stands: replaying what the log
    /// holds over what the snapshot holds gives it.
    pub open spec fn recoverable(&self) -> bool {
        replay(self.snapshot(), self.wal()) == self@
    }

    /// The fault found in the snapshot when the store was opened, if any.
    pub closed spec fn spec_startup_fault(&self) -> Option<KvError> {
        self.fault
    }

    /// Opens the store from what was read from its files: the snapshot, and
    /// for each line of the log, in file order, the record it decodes to or
    /// the error met in reading or decoding it.
    ///
    /// An unusable snapshot counts as an empty one, and the store keeps the
    /// fault for the operator. The first failure in the log refuses the
    /// store: no record is ever skipped.
    pub fn new(snapshot: SnapshotRead, wal: Vec<Result<LogCommand, KvError>>) -> (res: Result<
        KvStore,
        KvError,
    >)
        ensures
            match res {
                Ok(store) => {
                    &&& forall|i: int| 0 <= i < wal.len() ==> wal[i] is Ok
                    &&& store@ == replay(snapshot.contents(), logged(wal@))
                    &&& store.snapshot() == snapshot.contents()
                    &&& store.wal() == logged(wal@)
                    &&& store.recoverable()
                    &&& store.phase() is Normal
                    &&& store.startup_fault() == snapshot.fault()
                },
                Err(error) => exists|i: int|
                    {
                        &&& 0 <= i < wal.len()
                        &&& #[trigger] wal[i] == Err::<LogCommand, KvError>(error)
                        &&& forall|j: int| 0 <= j < i ==> wal[j] is Ok
                    },
            },
    {
        let mut map = match &snapshot {
            SnapshotRead::Loaded(entries) => Table::from_entries(entries),
            _ => Table::new(),
        };
        let fault = match &snapshot {
            SnapshotRead::Unusable(fault) => Some(fault.clone()),
            _ => None,
        };
        let mut i: usize = 0;
        while i < wal.len()
            invariant
                i <= wal.len(),
                map.wf(),
                forall|j: int| 0 <= j < i ==> wal[j] is Ok,
                map.model() == replay(snapshot.contents(), logged(wal@).take(i as int)),
            decreases wal.len() - i,
        {
            match &wal[i] {
                Ok(command) => {
                    match command {
                        LogCommand::Put { key, value } => {
                            map.insert(key.clone(), value.clone());
                        },
                        LogCommand::Remove { key } => {
                            map.remove(key);
                        },
                    }
                },
                Err(error) => {
                    return Err(error.clone());
                },
            }
            proof {
                let records = logged(wal@);
                assert(records.take(i + 1).drop_last() =~= records.take(i as int));
            }
            i += 1;
        }
        assert(logged(wal@).take(i as int) =~= logged(wal@));
        Ok(
            KvStore {
                state: State {
                    map,
                    phase: Phase::Normal,
                    snapshot: Ghost(snapshot.contents()),
                    wal: Ghost(logged(wal@)),
                },
                fault,
            },
        )
    }

    /// Whether no operation is in progress.
    pub fn is_normal(&self) -> (res: bool)
        ensures
            res == (self.phase() is Normal),
    {
        match &self.state.phase {
            Phase::Normal => true,
            _ => false,
        }
    }

    /// The fault found in the snapshot when the store was opened, if any.
    /// The operator has to learn of it: what such a snapshot held is lost.
    #[verifier::when_used_as_spec(spec_startup_fault)]
    pub fn startup_fault(&self) -> (res: Option<KvError>)
        ensures
            res == self.spec_startup_fault(),
    {
        match &self.fault {
            Some(fault) => Some(fault.clone()),
            None => None,
        }
    }

    /// The value that `key` is bound to, if any. The log plays no part.
    pub fn get(&self, key: String) -> (res: Option<String>)
        ensures
            match res {
                Some(value) => lookup(self@, key@) == Some(value@),
                None => lookup(self@, key@) is None,
            },
    {
        proof {
            use_type_invariant(self);
        }
        self.state.map.get(&key)
    }

    /// Starts binding `key` to `value`: asks for the record to be logged.
    /// The map changes only when [`KvStore::resume`] hears that the log has
    /// taken the record.
    pub fn set(&mut self, key: String, value: String) -> (action: Action)
        requires
            old(self).phase() is Normal,
        ensures
            action matches Action::Append(command) && command@ == (Record::Put {
                key: key@,
                value: value@,
            }),
            final(self).phase() matches Phase::Logging(command) && command@ == (Record::Put {
                key: key@,
                value: value@,
            }),
            final(self)@ == old(self)@,
            final(self).snapshot() == old(self).snapshot(),
            final(self).wal() == old(self).wal(),
            final(self).startup_fault() == old(self).startup_fault(),
            final(self).recoverable(),
    {
        proof {
            use_type_invariant(&*self);
        }
        let logged = LogCommand::Put { key: key.clone(), value: value.clone() };
        let mut state = State::vacant();
        std::mem::swap(&mut state, &mut self.state);
        state.phase = Phase::Logging(LogCommand::Put { key, value });
        self.state = state;
        Action::Append(logged)
    }

    /// Starts unbinding `key`: asks for the record to be logged, whether or
    /// not the key is bound. The map changes only when [`KvStore::resume`]
    /// hears that the log has taken the record.
    pub fn remove(&mut self, key: String) -> (action: Action)
        requires
            old(self).phase() is Normal,
        ensures
            action matches Action::Append(command) && command@ == (Record::Remove { key: key@ }),
            final(self).phase() matches Phase::Logging(command) && command@ == (Record::Remove {
                key: key@,
            }),
            final(self)@ == old(self)@,
            final(self).snapshot() == old(self).snapshot(),
            final(self).wal() == old(self).wal(),
            final(self).startup_fault() == old(self).startup_fault(),
            final(self).recoverable(),
    {
        proof {
            use_type_invariant(&*self);
        }
        let logged = LogCommand::Remove { key: key.clone() };
        let mut state = State::vacant();
        std::mem::swap(&mut state, &mut self.state);
        state.phase = Phase::Logging(LogCommand::Remove { key });
        self.state = state;
        Action::Append(logged)
    }

    /// Starts a compaction: asks for a snapshot of the map as it stands.
    /// The log is truncated only after [`KvStore::resume`] hears that the
    /// snapshot was written.
    pub fn compact(&mut self) -> (action: Action)
        requires
            old(self).phase() is Normal,
        ensures
            action matches Action::WriteSnapshot(entries) && distinct_keys(pairs_of(entries@))
                && map_of(pairs_of(entries@)) == old(self)@,
            final(self).phase() is WritingSnapshot,
            final(self)@ == old(self)@,
            final(self).snapshot() == old(self).snapshot(),
            final(self).wal() == old(self).wal(),
            final(self).startup_fault() == old(self).startup_fault(),
            final(self).recoverable(),
    {
        proof {
            use_type_invariant(&*self);
        }
        let entries = self.state.map.entries();
        let mut state = State::vacant();
        std::mem::swap(&mut state, &mut self.state);
        state.phase = Phase::WritingSnapshot;
        self.state = state;
        Action::WriteSnapshot(entries)
    }

    /// Takes the outcome of the action that was asked for last and says
    /// what comes next.
    ///
    /// A failed action ends the operation with that error and changes
    /// nothing: the map stays as it was when the log did not take the
    /// record, and the log is not truncated when the snapshot was not
    /// written. When the log has taken a record, the record is applied to
    /// the map; removing a key that was not bound then ends with
    /// `KeyNotFound`, the record staying in the log.
    pub fn resume(&mut self, outcome: Result<(), KvError>) -> (action: Action)
        requires
            !(old(self).phase() is Normal),
        ensures
            final(self).startup_fault() == old(self).startup_fault(),
            final(self).recoverable(),
            outcome matches Err(error) ==> {
                &&& action == Action::Finish(Err(error))
                &&& final(self).phase() is Normal
                &&& final(self)@ == old(self)@
                &&& final(self).snapshot() == old(self).snapshot()
                &&& final(self).wal() == old(self).wal()
            },
            outcome is Ok ==> match old(self).phase() {
                Phase::Logging(command) => {
                    &&& final(self).phase() is Normal
                    &&& final(self)@ == apply(old(self)@, command@)
                    &&& final(self).snapshot() == old(self).snapshot()
                    &&& final(self).wal() == old(self).wal().push(command@)
                    &&& match command {
                        LogCommand::Remove { key } if !old(self)@.contains_key(key@) => action
                            matches Action::Finish(Err(KvError::KeyNotFound(missing)))
                            && missing@ == key@,
                        _ => action == Action::Finish(Ok(())),
                    }
                },
                Phase::WritingSnapshot => {
                    &&& action == Action::TruncateWal
                    &&& final(self).phase() is TruncatingLog
                    &&& final(self)@ == old(self)@
                    &&& final(self).snapshot() == old(self)@
                    &&& final(self).wal() == old(self).wal()
                },
                Phase::TruncatingLog => {
                    &&& action == Action::Finish(Ok(()))
                    &&& final(self).phase() is Normal
                    &&& final(self)@ == old(self)@
                    &&& final(self).snapshot() == old(self)@
                    &&& final(self).wal() == Seq::<Record>::empty()
                },
                Phase::Normal => true,
            },
    {
        proof {
            use_type_invariant(&*self);
        }
        let mut state = State::vacant();
        std::mem::swap(&mut state, &mut self.state);
        let State { mut map, phase, snapshot, wal } = state;
        let ghost before = map.model();
        match outcome {
            Err(error) => {
                self.state = State { map, phase: Phase::Normal, snapshot, wal };
                Action::Finish(Err(error))
            },
            Ok(()) => match phase {
                Phase::Logging(command) => {
                    proof {
                        lemma_replay_push(snapshot@, wal@, command@);
                    }
                    let result = match command {
                        LogCommand::Put { key, value } => {
                            map.insert(key, value);
                            Ok(())
                        },
                        LogCommand::Remove { key } => {
                            if map.remove(&key) {
                                Ok(())
                            } else {
                                Err(KvError::KeyNotFound(key))
                            }
                        },
                    };
                    self.state =
                    State { map, phase: Phase::Normal, snapshot, wal: Ghost(wal@.push(command@)) };
                    Action::Finish(result)
                },
                Phase::WritingSnapshot => {
                    proof {
                        lemma_replay_idempotent(snapshot@, wal@);
                    }
                    self.state =
                    State { map, phase: Phase::TruncatingLog, snapshot: Ghost(before), wal };
                    Action::TruncateWal
                },
                Phase::TruncatingLog => {
                    self.state =
                    State { map, phase: Phase::Normal, snapshot, wal: Ghost(Seq::empty()) };
                    Action::Finish(Ok(()))
                },
                Phase::Normal => {
                    self.state = State { map, phase: Phase::Normal, snapshot, wal };
                    Action::Finish(Ok(()))
                },
            },
        }
    }
}

/// A restart reproduces the state. Every operation leaves the store
/// recoverable; a store opened from the snapshot and the log that such a
/// store has left then shows the map that the store showed.
pub proof fn lemma_restart_reproduces(
    store: KvStore,
    snapshot: SnapshotRead,
    log: Seq<Result<LogCommand, KvError>>,
    reopened: KvStore,
)
    requires
        store.recoverable(),
        snapshot.contents() == store.snapshot(),
        logged(log) == store.wal(),
        reopened@ == replay(snapshot.contents(), logged(log)),
    ensures
        reopened@ == store@,
{
}

/// Once the log is empty, as a finished compaction leaves it, the snapshot
/// alone holds the map.
pub proof fn lemma_snapshot_alone_recovers(store: KvStore)
    requires
        store.recoverable(),
        store.wal() == Seq::<Record>::empty(),
    ensures
        store.snapshot() == store@,
{
}

} // verus!
