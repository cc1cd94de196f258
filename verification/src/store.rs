//! The storage engine: an append-only log with an index in memory.
//!
//! A write appends a record to the active segment and notes in the index where the
//! value stands. A read looks the place up and reads it. The engine itself touches
//! no file. Each operation says which steps are to be taken, in their order; whoever
//! takes them reports each one that succeeded with `Store::done`, and stops at the
//! first that fails. Where that was a step of a write, it is reported with
//! `Store::failed`.

use crate::action::{
    affected, after_failure, all_wf, fits, full, moves, Act, Action, Eff, Effect, Move, State, Step,
};
use crate::keydir::{keys_bounded, lists, Entry, Index, Keydir, Loc};
use crate::record::{encode, encoded, HEADER, MAX_KV};
use crate::segment::place_of;
use crate::sorting::{
    ascending, insert_sorted, lemma_sorted_is, lemma_sorted_listing, sorted, strictly_ascending,
};
use std::collections::HashSet;
use vstd::prelude::*;
use vstd::slice::slice_to_vec;

verus! {

broadcast use vstd::std_specs::hash::group_hash_axioms;

/// Why the store itself refuses an operation.
#[derive(Clone, Copy, Debug, PartialEq, Eq, Structural)]
pub enum StoreError {
    /// The key or the value to be set is above `MAX_KV`.
    Oversize,
    /// The index claims a value above `MAX_KV`.
    ValueTooLong,
    /// A segment could not be read to a point where it can be trusted to end.
    Unreadable,
}

impl StoreError {
    /// The error in words.
    pub fn message(&self) -> (text: &'static str)
        ensures
            text@ == match *self {
                StoreError::Oversize => "key or value exceeds MAX_KV"@,
                StoreError::ValueTooLong => "value length exceeds MAX_KV"@,
                StoreError::Unreadable => "segment could not be read"@,
            },
    {
        match self {
            StoreError::Oversize => "key or value exceeds MAX_KV",
            StoreError::ValueTooLong => "value length exceeds MAX_KV",
            StoreError::Unreadable => "segment could not be read",
        }
    }
}

/// An embedded key-value store: the part of it that is held in memory.
pub struct Store {
    active_id: u64,
    active_len: u64,
    spent: bool,
    last_id: u64,
    segments: HashSet<u64>,
    readers: HashSet<u64>,
    keydir: Keydir,
    seg_cap: u64,
    sync_writes: bool,
}

impl View for Store {
    type V = State;

    closed spec fn view(&self) -> State {
        State {
            active_id: self.active_id,
            active_len: self.active_len,
            spent: self.spent,
            last_id: self.last_id,
            segments: self.segments@,
            readers: self.readers@,
            index: self.keydir@,
            seg_cap: self.seg_cap,
            sync_writes: self.sync_writes,
        }
    }
}

/// The steps that leave a full active segment for a new one. Both the old segment and
/// the new one's name are brought to stable storage before anything is written.
pub open spec fn roll_moves(state: State) -> Seq<Move> {
    if !full(state) {
        Seq::empty()
    } else {
        let id = (state.last_id + 1) as u64;
        seq![
            Move { act: Act::Sync { id: state.active_id }, eff: Eff::Nothing },
            Move { act: Act::OpenAppend { id }, eff: Eff::Created { id } },
            Move { act: Act::SyncDir, eff: Eff::Rolled { id } },
            Move { act: Act::OpenReader { id }, eff: Eff::Reading { id } },
        ]
    }
}

/// The segment that the next write goes to.
pub open spec fn target_id(state: State) -> u64 {
    if !full(state) {
        state.active_id
    } else {
        (state.last_id + 1) as u64
    }
}

/// The offset that the next write goes to.
pub open spec fn target_pos(state: State) -> u64 {
    if !full(state) {
        state.active_len
    } else {
        0
    }
}

/// There is a number for the segment, and an offset, that a write of `len` bytes
/// goes to.
pub open spec fn room(state: State, len: int) -> bool {
    if !full(state) {
        state.active_len + len <= u64::MAX
    } else {
        state.last_id < u64::MAX
    }
}

/// The step that brings a write to stable storage, where every write is.
pub open spec fn sync_moves(state: State) -> Seq<Move> {
    if state.sync_writes {
        seq![Move { act: Act::Sync { id: target_id(state) }, eff: Eff::Nothing }]
    } else {
        Seq::empty()
    }
}

/// The steps of setting `key` to `val`.
pub open spec fn set_moves(state: State, key: Seq<u8>, val: Seq<u8>) -> Seq<Move> {
    let rec = encoded(key, Some(val));
    roll_moves(state) + seq![
        Move {
            act: Act::Append { id: target_id(state), bytes: rec },
            eff: Eff::Put {
                key,
                loc: place_of(target_id(state), target_pos(state) as int, key, val),
                len: rec.len() as u64,
            },
        },
    ] + sync_moves(state)
}

/// The steps of deleting `key`.
pub open spec fn delete_moves(state: State, key: Seq<u8>) -> Seq<Move> {
    let rec = encoded(key, None);
    roll_moves(state) + seq![
        Move {
            act: Act::Append { id: target_id(state), bytes: rec },
            eff: Eff::Gone { key, len: rec.len() as u64 },
        },
    ] + sync_moves(state)
}

/// The step that opens the segment `id` for reading, unless it is open.
pub open spec fn open_moves(state: State, id: u64) -> Seq<Move> {
    if state.readers.contains(id) {
        Seq::empty()
    } else {
        seq![Move { act: Act::OpenReader { id }, eff: Eff::Reading { id } }]
    }
}

/// The step that brings all that was written to stable storage.
pub open spec fn flush_move(state: State) -> Move {
    Move { act: Act::Sync { id: state.active_id }, eff: Eff::Nothing }
}

/// The state with every write brought to stable storage before it returns, or not.
pub open spec fn with_sync(state: State, on: bool) -> State {
    State { sync_writes: on, ..state }
}

/// A key and a value of these lengths may be set.
pub open spec fn within_limits(klen: nat, vlen: nat) -> bool {
    klen <= MAX_KV && vlen <= MAX_KV
}

/// Keys and values of any length up to 256 MiB may be set, and no longer ones.
pub proof fn law_limits_of_set(klen: nat, vlen: nat)
    ensures
        within_limits(klen, vlen) <==> klen <= 268_435_456 && vlen <= 268_435_456,
{
}

/// The place that is read for a value at `loc`, unless the value is above
/// `MAX_KV`.
pub open spec fn readable(loc: Loc) -> Result<Loc, StoreError> {
    if loc.val_len > MAX_KV {
        Err(StoreError::ValueTooLong)
    } else {
        Ok(loc)
    }
}

impl Store {
    /// The index is in order.
    pub closed spec fn indexed(&self) -> bool {
        self.keydir.wf()
    }

    /// The index is in order, and no key is above `MAX_KV`.
    pub open spec fn wf(&self) -> bool {
        self.indexed() && keys_bounded(self@.index)
    }

    /// A store put together from its parts.
    pub(crate) fn assembled(
        active_id: u64,
        active_len: u64,
        spent: bool,
        segments: HashSet<u64>,
        readers: HashSet<u64>,
        keydir: Keydir,
        seg_cap: u64,
    ) -> (store: Store)
        requires
            keydir.wf(),
            keys_bounded(keydir@),
        ensures
            store.wf(),
            store@ == (State {
                active_id,
                active_len,
                spent,
                last_id: active_id,
                segments: segments@,
                readers: readers@,
                index: keydir@,
                seg_cap,
                sync_writes: false,
            }),
    {
        Store {
            active_id,
            active_len,
            spent,
            last_id: active_id,
            segments,
            readers,
            keydir,
            seg_cap,
            sync_writes: false,
        }
    }

    /// Whether the next write goes to a new segment.
    fn is_full(&self) -> (r: bool)
        ensures
            r == full(self@),
    {
        self.active_len >= self.seg_cap || self.spent || self.active_id != self.last_id
    }

    /// Appends the steps that leave a full active segment for a new one.
    fn roll_if_needed(&self, steps: &mut Vec<Step>)
        requires
            full(self@) ==> self@.last_id < u64::MAX,
            all_wf(old(steps)@),
        ensures
            moves(final(steps)@) == moves(old(steps)@) + roll_moves(self@),
            all_wf(final(steps)@),
    {
        if self.is_full() {
            let id = self.last_id + 1;
            steps.push(Step { action: Action::Sync { id: self.active_id }, effect: Effect::Nothing });
            steps.push(Step { action: Action::OpenAppend { id }, effect: Effect::Created { id } });
            steps.push(Step { action: Action::SyncDir, effect: Effect::Rolled { id } });
            steps.push(Step { action: Action::OpenReader { id }, effect: Effect::Reading { id } });
        }
        assert(moves(steps@) =~= moves(old(steps)@) + roll_moves(self@));
    }

    /// The steps of setting `key` to `val`. A key or a value above `MAX_KV` is
    /// refused.
    pub fn set(&self, key: &[u8], val: &[u8]) -> (r: Result<Vec<Step>, StoreError>)
        requires
            self.wf(),
            key@.len() <= MAX_KV && val@.len() <= MAX_KV ==> room(
                self@,
                HEADER + key@.len() + val@.len(),
            ),
        ensures
            match r {
                Ok(steps) => key@.len() <= MAX_KV && val@.len() <= MAX_KV && moves(steps@)
                    == set_moves(self@, key@, val@) && all_wf(steps@),
                Err(e) => e == StoreError::Oversize && (key@.len() > MAX_KV || val@.len() > MAX_KV),
            },
            r is Ok <==> within_limits(key@.len(), val@.len()),
    {
        if key.len() > MAX_KV || val.len() > MAX_KV {
            return Err(StoreError::Oversize);
        }
        let mut steps: Vec<Step> = Vec::new();
        self.roll_if_needed(&mut steps);
        let rolls = self.is_full();
        let id = if rolls {
            self.last_id + 1
        } else {
            self.active_id
        };
        let start = if rolls {
            0
        } else {
            self.active_len
        };
        let bytes = encode(key, Some(val));
        let len = bytes.len() as u64;
        let loc = Loc {
            file_id: id,
            val_pos: start + HEADER as u64 + key.len() as u64,
            val_len: val.len() as u32,
        };
        steps.push(
            Step {
                action: Action::Append { id, bytes },
                effect: Effect::Put { key: slice_to_vec(key), loc, len },
            },
        );
        if self.sync_writes {
            steps.push(Step { action: Action::Sync { id }, effect: Effect::Nothing });
        }
        assert(moves(steps@) =~= set_moves(self@, key@, val@));
        Ok(steps)
    }

    /// The steps of deleting `key`, or `None` where the key is not there and nothing
    /// is to be done.
    pub fn delete(&self, key: &[u8]) -> (r: Option<Vec<Step>>)
        requires
            self.wf(),
            self@.index.contains_key(key@) ==> room(self@, HEADER + key@.len()),
        ensures
            match r {
                Some(steps) => self@.index.contains_key(key@) && moves(steps@) == delete_moves(
                    self@,
                    key@,
                ) && all_wf(steps@),
                None => !self@.index.contains_key(key@),
            },
    {
        if self.keydir.get(key).is_none() {
            return None;
        }
        let mut steps: Vec<Step> = Vec::new();
        self.roll_if_needed(&mut steps);
        let id = if self.is_full() {
            self.last_id + 1
        } else {
            self.active_id
        };
        let bytes = encode(key, None);
        let len = bytes.len() as u64;
        steps.push(
            Step {
                action: Action::Append { id, bytes },
                effect: Effect::Gone { key: slice_to_vec(key), len },
            },
        );
        if self.sync_writes {
            steps.push(Step { action: Action::Sync { id }, effect: Effect::Nothing });
        }
        assert(moves(steps@) =~= delete_moves(self@, key@));
        Some(steps)
    }

    /// How the value at `loc` is read: the steps to be taken first, and then the
    /// place that is read, unless the value is above `MAX_KV`.
    pub fn read_value(&self, loc: Loc) -> (r: (Vec<Step>, Result<Loc, StoreError>))
        ensures
            moves(r.0@) == open_moves(self@, loc.file_id),
            all_wf(r.0@),
            r.1 == readable(loc),
    {
        let mut steps: Vec<Step> = Vec::new();
        let id = loc.file_id;
        if !self.readers.contains(&id) {
            steps.push(Step { action: Action::OpenReader { id }, effect: Effect::Reading { id } });
        }
        assert(moves(steps@) =~= open_moves(self@, id));
        if loc.val_len as usize > MAX_KV {
            (steps, Err(StoreError::ValueTooLong))
        } else {
            (steps, Ok(loc))
        }
    }

    /// How the value of `key` is read (see `read_value`), or `None` where the key is
    /// not there.
    pub fn get(&self, key: &[u8]) -> (r: Option<(Vec<Step>, Result<Loc, StoreError>)>)
        requires
            self.wf(),
        ensures
            match r {
                Some((steps, place)) => self@.index.contains_key(key@) && moves(steps@)
                    == open_moves(self@, self@.index[key@].file_id) && all_wf(steps@) && place
                    == readable(self@.index[key@]),
                None => !self@.index.contains_key(key@),
            },
    {
        match self.keydir.get(key) {
            None => None,
            Some(loc) => Some(self.read_value(loc)),
        }
    }

    /// The step that brings all that was written to stable storage.
    pub fn flush(&self) -> (step: Step)
        ensures
            step@ == flush_move(self@),
            step@ == (Move { act: Act::Sync { id: self@.active_id }, eff: Eff::Nothing }),
            step.effect.wf(),
    {
        Step { action: Action::Sync { id: self.active_id }, effect: Effect::Nothing }
    }

    /// Notes the effect of a step whose action succeeded.
    pub fn done(&mut self, effect: Effect)
        requires
            old(self).wf(),
            effect.wf(),
            fits(old(self)@, effect@),
        ensures
            final(self).wf(),
            final(self)@ == affected(old(self)@, effect@),
    {
        match effect {
            Effect::Nothing => {},
            Effect::Created { id } => {
                self.last_id = id;
                self.segments.insert(id);
            },
            Effect::Rolled { id } => {
                self.active_id = id;
                self.active_len = 0;
                self.spent = false;
            },
            Effect::Reading { id } => {
                self.readers.insert(id);
            },
            Effect::NotReading => {
                self.readers.clear();
            },
            Effect::Put { key, loc, len } => {
                self.active_len = self.active_len + len;
                self.keydir.insert(key, loc);
            },
            Effect::Gone { key, len } => {
                self.active_len = self.active_len + len;
                self.keydir.remove(key.as_slice());
            },
            Effect::Compacted { id, keydir } => {
                self.active_id = id;
                self.active_len = 0;
                self.spent = false;
                self.readers.insert(id);
                self.keydir = keydir;
            },
            Effect::Removed { id } => {
                self.segments.remove(&id);
                self.readers.remove(&id);
            },
        }
    }

    /// Notes that a step of a write failed. `len` is the length that the active segment
    /// has now, if it can be found. Where it is the length noted, the store goes on with
    /// the segment; else the segment may end in part of a record, and nothing more is
    /// appended to it.
    pub fn failed(&mut self, len: Option<u64>)
        requires
            old(self).wf(),
        ensures
            final(self).wf(),
            final(self)@ == after_failure(old(self)@, len),
    {
        let same = match len {
            Some(len) => len == self.active_len,
            None => false,
        };
        if !same {
            self.spent = true;
        }
    }

    /// Whether `done` can take the effect.
    pub fn accepts(&self, effect: &Effect) -> (r: bool)
        ensures
            r == fits(self@, effect@),
    {
        match effect {
            Effect::Put { key, loc, len } => *len <= u64::MAX - self.active_len && key.len()
                <= MAX_KV,
            Effect::Gone { key, len } => *len <= u64::MAX - self.active_len,
            _ => true,
        }
    }

    /// Whether a write of `len` bytes has a segment number and an offset to go to.
    pub fn has_room(&self, len: u64) -> (r: bool)
        ensures
            r == room(self@, len as int),
    {
        if self.is_full() {
            self.last_id < u64::MAX
        } else {
            len <= u64::MAX - self.active_len
        }
    }

    /// Turns on or off that every write is brought to stable storage before it
    /// returns. It is off in a store that was just opened.
    pub fn set_sync_writes(&mut self, on: bool)
        requires
            old(self).wf(),
        ensures
            final(self).wf(),
            final(self)@ == with_sync(old(self)@, on),
            final(self)@ == (State { sync_writes: on, ..old(self)@ }),
    {
        self.sync_writes = on;
    }

    /// The number of live keys.
    pub fn len(&self) -> (n: usize)
        requires
            self.wf(),
        ensures
            self@.index.dom().finite(),
            n == self@.index.dom().len(),
    {
        self.keydir.len()
    }

    /// Whether there is no live key.
    pub fn is_empty(&self) -> (r: bool)
        requires
            self.wf(),
        ensures
            r == (self@.index == Index::empty()),
    {
        let r = self.len() == 0;
        proof {
            if r {
                assert(self@.index =~= Index::empty());
            } else {
                assert(Index::empty().dom() =~= Set::<Seq<u8>>::empty());
            }
        }
        r
    }

    /// Every live key with its place.
    pub(crate) fn entries(&self) -> (list: Vec<Entry>)
        requires
            self.wf(),
        ensures
            lists(list@, self@.index),
    {
        self.keydir.entries()
    }

    /// The segments, in ascending order.
    pub(crate) fn segments(&self) -> (ids: Vec<u64>)
        ensures
            ids@ == sorted(self@.segments),
            strictly_ascending(ids@),
            ids@.to_set() == self@.segments,
    {
        let mut ids: Vec<u64> = Vec::new();
        let ghost mut seen: Seq<u64> = Seq::empty();
        for id in it: self.segments.iter()
            invariant
                it.seq().unref().to_set() == self.segments@,
                it.seq().no_duplicates(),
                seen == it.seq().unref().take(it.index() as int),
                it.index() == it.seq().len() ==> seen.to_set() == self.segments@,
                ascending(ids@),
                ids@.to_multiset() == seen.to_multiset(),
        {
            broadcast use vstd::seq_lib::group_to_multiset_ensures;

            insert_sorted(&mut ids, *id);
            proof {
                seen = seen.push(*id);
            }
            assert(it.index() + 1 == it.seq().len() ==> seen =~= it.seq().unref());
        }
        proof {
            lemma_sorted_listing(ids@, seen);
            lemma_sorted_is(ids@);
        }
        ids
    }

    /// The segment that is appended to.
    pub fn active_id(&self) -> (id: u64)
        ensures
            id == self@.active_id,
    {
        self.active_id
    }

    /// The highest number of a segment so far.
    pub fn last_id(&self) -> (id: u64)
        ensures
            id == self@.last_id,
    {
        self.last_id
    }

    /// The number of segments.
    pub fn segment_count(&self) -> (n: usize)
        ensures
            n == self@.segments.len(),
    {
        self.segments.len()
    }
}

} // verus!
