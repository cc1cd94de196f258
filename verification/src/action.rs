//! What the store asks of the file system, and what it notes once that is done.

use crate::keydir::{keys_bounded, Index, Keydir, Loc};
use crate::record::MAX_KV;
use vstd::prelude::*;

verus! {

/// One operation on the files of a store.
#[derive(Debug)]
pub enum Action {
    /// Open the segment for appending; create it where there is none.
    OpenAppend { id: u64 },
    /// Open the segment for reading.
    OpenReader { id: u64 },
    /// Close every segment that is open for reading.
    CloseReaders,
    /// Append the bytes to the segment.
    Append { id: u64, bytes: Vec<u8> },
    /// Bring what was appended to the segment to stable storage.
    Sync { id: u64 },
    /// Bring the directory's own entries to stable storage.
    SyncDir,
    /// Delete the segment.
    Remove { id: u64 },
}

/// The mathematical form of an action.
pub enum Act {
    OpenAppend { id: u64 },
    OpenReader { id: u64 },
    CloseReaders,
    Append { id: u64, bytes: Seq<u8> },
    Sync { id: u64 },
    SyncDir,
    Remove { id: u64 },
}

impl View for Action {
    type V = Act;

    open spec fn view(&self) -> Act {
        match *self {
            Action::OpenAppend { id } => Act::OpenAppend { id },
            Action::OpenReader { id } => Act::OpenReader { id },
            Action::CloseReaders => Act::CloseReaders,
            Action::Append { id, bytes } => Act::Append { id, bytes: bytes@ },
            Action::Sync { id } => Act::Sync { id },
            Action::SyncDir => Act::SyncDir,
            Action::Remove { id } => Act::Remove { id },
        }
    }
}

/// What an action that succeeded changes in memory.
pub enum Effect {
    /// Nothing.
    Nothing,
    /// There is a new segment `id`, still empty.
    Created { id: u64 },
    /// The segment `id`, still empty, is the active one.
    Rolled { id: u64 },
    /// The segment `id` is open for reading.
    Reading { id: u64 },
    /// No segment is open for reading.
    NotReading,
    /// The active segment grew by `len` bytes, and the value of `key` is at `loc`.
    Put { key: Vec<u8>, loc: Loc, len: u64 },
    /// The active segment grew by `len` bytes, and `key` is gone.
    Gone { key: Vec<u8>, len: u64 },
    /// The segment `id`, still empty, is the active one and open for reading, and
    /// the index is a new one.
    Compacted { id: u64, keydir: Keydir },
    /// The segment `id` is gone.
    Removed { id: u64 },
}

/// The mathematical form of an effect.
pub enum Eff {
    Nothing,
    Created { id: u64 },
    Rolled { id: u64 },
    Reading { id: u64 },
    NotReading,
    Put { key: Seq<u8>, loc: Loc, len: u64 },
    Gone { key: Seq<u8>, len: u64 },
    Compacted { id: u64, index: Index },
    Removed { id: u64 },
}

impl View for Effect {
    type V = Eff;

    open spec fn view(&self) -> Eff {
        match *self {
            Effect::Nothing => Eff::Nothing,
            Effect::Created { id } => Eff::Created { id },
            Effect::Rolled { id } => Eff::Rolled { id },
            Effect::Reading { id } => Eff::Reading { id },
            Effect::NotReading => Eff::NotReading,
            Effect::Put { key, loc, len } => Eff::Put { key: key@, loc, len },
            Effect::Gone { key, len } => Eff::Gone { key: key@, len },
            Effect::Compacted { id, keydir } => Eff::Compacted { id, index: keydir@ },
            Effect::Removed { id } => Eff::Removed { id },
        }
    }
}

impl Effect {
    /// An index that the effect brings is in order.
    pub open spec fn wf(&self) -> bool {
        match *self {
            Effect::Compacted { id, keydir } => keydir.wf() && keys_bounded(keydir@),
            _ => true,
        }
    }
}

/// An action, and the effect that it has once it succeeded.
pub struct Step {
    pub action: Action,
    pub effect: Effect,
}

/// The mathematical form of a step.
pub struct Move {
    pub act: Act,
    pub eff: Eff,
}

impl View for Step {
    type V = Move;

    open spec fn view(&self) -> Move {
        Move { act: self.action@, eff: self.effect@ }
    }
}

/// The mathematical form of a list of steps.
pub open spec fn moves(steps: Seq<Step>) -> Seq<Move> {
    steps.map_values(|s: Step| s@)
}

/// Every index that the steps bring is in order.
pub open spec fn all_wf(steps: Seq<Step>) -> bool {
    forall|i: int| 0 <= i < steps.len() ==> (#[trigger] steps[i]).effect.wf()
}

/// Whether the operation that a step belongs to fails with it. A segment that
/// compaction cannot delete is left behind; any other failure ends the operation.
pub open spec fn needed(act: Act) -> bool {
    !(act is Remove)
}

impl Step {
    /// Whether the operation that this step belongs to fails with it.
    pub fn is_needed(&self) -> (r: bool)
        ensures
            r == needed(self@.act),
    {
        !matches!(self.action, Action::Remove { .. })
    }
}

/// What a store holds in memory.
pub struct State {
    /// The segment that is appended to.
    pub active_id: u64,
    /// Its length.
    pub active_len: u64,
    /// Whether nothing more may be appended to it, since it ends in a torn or corrupt
    /// record or may do so.
    pub spent: bool,
    /// The highest number of a segment so far.
    pub last_id: u64,
    /// The segments.
    pub segments: Set<u64>,
    /// The segments that are open for reading.
    pub readers: Set<u64>,
    /// The index.
    pub index: Index,
    /// The length at which the active segment is left for a new one.
    pub seg_cap: u64,
    /// Whether every write is brought to stable storage before it returns.
    pub sync_writes: bool,
}

/// The state after an effect.
pub open spec fn affected(state: State, eff: Eff) -> State {
    match eff {
        Eff::Nothing => state,
        Eff::Created { id } => State {
            last_id: id,
            segments: state.segments.insert(id),
            ..state
        },
        Eff::Rolled { id } => State { active_id: id, active_len: 0, spent: false, ..state },
        Eff::Reading { id } => State { readers: state.readers.insert(id), ..state },
        Eff::NotReading => State { readers: Set::empty(), ..state },
        Eff::Put { key, loc, len } => State {
            active_len: (state.active_len + len) as u64,
            index: state.index.insert(key, loc),
            ..state
        },
        Eff::Gone { key, len } => State {
            active_len: (state.active_len + len) as u64,
            index: state.index.remove(key),
            ..state
        },
        Eff::Compacted { id, index } => State {
            active_id: id,
            active_len: 0,
            spent: false,
            readers: state.readers.insert(id),
            index,
            ..state
        },
        Eff::Removed { id } => State {
            segments: state.segments.remove(id),
            readers: state.readers.remove(id),
            ..state
        },
    }
}

/// The next write goes to a new segment: the active one has reached its length, or may
/// end in a torn record, or a segment with a higher number was created and, in the
/// order of their numbers, would hide what is written to this one.
pub open spec fn full(state: State) -> bool {
    state.active_len >= state.seg_cap || state.spent || state.active_id != state.last_id
}

/// The state after a step of a write failed, where the active segment was then found to be
/// `len` bytes long. If that is not the length noted, it may end in part of a record, and
/// nothing more may be appended to it.
pub open spec fn after_failure(state: State, len: Option<u64>) -> State {
    State { spent: state.spent || len != Some(state.active_len), ..state }
}

/// The effect keeps the active segment's length within 64 bits and every key within
/// `MAX_KV`.
pub open spec fn fits(state: State, eff: Eff) -> bool {
    match eff {
        Eff::Put { key, len, .. } => state.active_len + len <= u64::MAX && key.len() <= MAX_KV,
        Eff::Gone { len, .. } => state.active_len + len <= u64::MAX,
        _ => true,
    }
}

} // verus!
