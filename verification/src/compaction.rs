//! Compaction: every live value is copied into one fresh segment, the old segments
//! are deleted, and a new empty segment becomes the active one.

use crate::action::{all_wf, moves, Act, Action, Eff, Effect, Move, State, Step};
use crate::keydir::{keys_bounded, lists, Entry, Index, Keydir, Loc};
use crate::record::{encode, encoded, HEADER, MAX_KV};
use crate::sorting::sorted;
use crate::store::Store;
use vstd::prelude::*;
use vstd::slice::slice_to_vec;

verus! {

/// A compaction under way.
pub struct Compaction {
    merged_id: u64,
    old_ids: Vec<u64>,
    entries: Vec<Entry>,
    at: usize,
    pos: u64,
    keydir: Keydir,
}

/// How far a compaction is.
pub struct Copying {
    /// The segment that the live values are copied into.
    pub merged_id: u64,
    /// The segments before it, in ascending order.
    pub old_ids: Seq<u64>,
    /// The live keys with the places that their values have so far, in the order in
    /// which they are copied.
    pub entries: Seq<Entry>,
    /// How many of them have been copied.
    pub at: int,
}

impl View for Compaction {
    type V = Copying;

    closed spec fn view(&self) -> Copying {
        Copying {
            merged_id: self.merged_id,
            old_ids: self.old_ids@,
            entries: self.entries@,
            at: self.at as int,
        }
    }
}

/// The offset in the merged segment of the record of the `n`th key.
pub open spec fn merged_pos(entries: Seq<Entry>, n: int) -> int
    decreases n,
{
    if n <= 0 {
        0
    } else {
        merged_pos(entries, n - 1) + HEADER + entries[n - 1].key@.len() + entries[n - 1].loc.val_len
    }
}

/// The place in the merged segment of the value of the `n`th key.
pub open spec fn merged_loc(id: u64, entries: Seq<Entry>, n: int) -> Loc {
    Loc {
        file_id: id,
        val_pos: (merged_pos(entries, n) + HEADER + entries[n].key@.len()) as u64,
        val_len: entries[n].loc.val_len,
    }
}

/// The index of the first `n` keys in the merged segment.
pub open spec fn merged_index(id: u64, entries: Seq<Entry>, n: int) -> Index
    decreases n,
{
    if n <= 0 {
        Index::empty()
    } else {
        merged_index(id, entries, n - 1).insert(
            entries[n - 1].key@,
            merged_loc(id, entries, n - 1),
        )
    }
}

/// The deletion of each of the segments.
pub open spec fn remove_moves(ids: Seq<u64>) -> Seq<Move> {
    ids.map_values(|id: u64| Move { act: Act::Remove { id }, eff: Eff::Removed { id } })
}

/// The steps that begin a compaction.
pub open spec fn begin_moves(merged_id: u64) -> Seq<Move> {
    seq![Move { act: Act::OpenAppend { id: merged_id }, eff: Eff::Created { id: merged_id } }]
}

/// The step that copies a key with its value.
pub open spec fn copy_move(merged_id: u64, key: Seq<u8>, val: Seq<u8>) -> Move {
    Move { act: Act::Append { id: merged_id, bytes: encoded(key, Some(val)) }, eff: Eff::Nothing }
}

/// The steps that seal the merged segment: it is brought to stable storage, the next
/// active segment is created, and the names of both are brought there too.
pub open spec fn seal_moves(merged_id: u64) -> Seq<Move> {
    let active_id = (merged_id + 1) as u64;
    seq![
        Move { act: Act::Sync { id: merged_id }, eff: Eff::Nothing },
        Move { act: Act::OpenAppend { id: active_id }, eff: Eff::Created { id: active_id } },
        Move { act: Act::SyncDir, eff: Eff::Nothing },
    ]
}

/// The steps by which the store moves over to the merged segment, with an empty active
/// one behind it. From then on it needs none of the old segments.
pub open spec fn switch_moves(merged_id: u64, index: Index) -> Seq<Move> {
    let active_id = (merged_id + 1) as u64;
    seq![
        Move { act: Act::CloseReaders, eff: Eff::NotReading },
        Move { act: Act::OpenReader { id: merged_id }, eff: Eff::Reading { id: merged_id } },
        Move {
            act: Act::OpenReader { id: active_id },
            eff: Eff::Compacted { id: active_id, index },
        },
    ]
}

/// The step after the old segments were deleted: their names are gone for good.
pub open spec fn settle_moves() -> Seq<Move> {
    seq![Move { act: Act::SyncDir, eff: Eff::Nothing }]
}

/// The steps that are left once every live value was copied.
pub open spec fn finish_moves(merged_id: u64, old_ids: Seq<u64>, index: Index) -> Seq<Move> {
    seal_moves(merged_id) + switch_moves(merged_id, index) + remove_moves(old_ids) + settle_moves()
}

/// The offsets in the merged segment stay within 64 bits with the next value in it.
pub open spec fn next_fits(c: Copying) -> bool {
    c.at < c.entries.len() ==> merged_pos(c.entries, c.at + 1) <= u64::MAX
}

/// Where all live records together are within 64 bits, the next value fits, however many
/// were copied.
pub proof fn law_next_value_fits(c: Copying)
    requires
        0 <= c.at <= c.entries.len(),
        total_len(c.entries) <= u64::MAX,
    ensures
        next_fits(c),
{
    if c.at < c.entries.len() {
        lemma_total_len(c.entries, c.at + 1);
    }
}

/// The length of the records for these keys and values.
pub open spec fn total_len(entries: Seq<Entry>) -> int
    decreases entries.len(),
{
    if entries.len() == 0 {
        0
    } else {
        let last = entries.last();
        total_len(entries.drop_last()) + 12 + last.key@.len() + last.loc.val_len
    }
}

proof fn lemma_total_len(entries: Seq<Entry>, n: int)
    requires
        0 <= n <= entries.len(),
    ensures
        merged_pos(entries, n) <= total_len(entries),
        n == entries.len() ==> merged_pos(entries, n) == total_len(entries),
    decreases entries.len(), n,
{
    let less = entries.drop_last();
    if n == entries.len() && n > 0 {
        lemma_total_len(less, n - 1);
        lemma_same_pos(entries, less, n - 1);
    } else if n < entries.len() {
        lemma_total_len(less, n);
        lemma_same_pos(entries, less, n);
    }
}

proof fn lemma_same_pos(a: Seq<Entry>, b: Seq<Entry>, n: int)
    requires
        0 <= n <= a.len(),
        n <= b.len(),
        forall|i: int| 0 <= i < n ==> #[trigger] a[i] == b[i],
    ensures
        merged_pos(a, n) == merged_pos(b, n),
    decreases n,
{
    if n > 0 {
        lemma_same_pos(a, b, n - 1);
        assert(a[n - 1] == b[n - 1]);
    }
}

/// There are numbers for the two segments that a compaction creates.
pub open spec fn compactable(state: State) -> bool {
    state.last_id < u64::MAX - 1
}

/// A compaction is refused only where numbers above 64 bits would be needed.
pub proof fn law_compaction_has_numbers(state: State)
    ensures
        compactable(state) <==> state.last_id + 2 <= u64::MAX,
{
}

impl Store {
    /// Begins to merge every live key into one fresh segment, with the step that
    /// creates it.
    pub fn compact(&self) -> (r: (Compaction, Step))
        requires
            self.wf(),
            self@.last_id < u64::MAX - 1,
        ensures
            r.0.wf(),
            r.0@.merged_id == self@.last_id + 1,
            r.0@.old_ids == sorted(self@.segments),
            r.0@.at == 0,
            lists(r.0@.entries, self@.index),
            seq![r.1@] == begin_moves(r.0@.merged_id),
            r.1.effect.wf(),
    {
        let merged_id = self.last_id() + 1;
        let compaction = Compaction {
            merged_id,
            old_ids: self.segments(),
            entries: self.entries(),
            at: 0,
            pos: 0,
            keydir: Keydir::new(),
        };
        let step = Step {
            action: Action::OpenAppend { id: merged_id },
            effect: Effect::Created { id: merged_id },
        };
        assert(seq![step@] =~= begin_moves(merged_id));
        (compaction, step)
    }

    /// Whether there are numbers for the two segments that a compaction creates.
    pub fn can_compact(&self) -> (r: bool)
        ensures
            r == compactable(self@),
            r == (self@.last_id < u64::MAX - 1),
    {
        self.last_id() < u64::MAX - 1
    }
}

impl Compaction {
    /// What was copied is indexed in the merged segment.
    pub closed spec fn indexed(&self) -> bool {
        &&& self.keydir.wf()
        &&& self.keydir@ == merged_index(self.merged_id, self.entries@, self.at as int)
        &&& self.pos == merged_pos(self.entries@, self.at as int)
        &&& self.at <= self.entries@.len()
    }

    /// What was copied is indexed in the merged segment, there is a number for the
    /// segment after it, and no key is above `MAX_KV`.
    pub open spec fn wf(&self) -> bool {
        &&& self.indexed()
        &&& self@.merged_id < u64::MAX
        &&& 0 <= self@.at <= self@.entries.len()
        &&& forall|i: int|
            0 <= i < self@.entries.len() ==> (#[trigger] self@.entries[i]).key@.len() <= MAX_KV
    }

    /// The place of the value that is to be copied next, or `None` where all have
    /// been.
    pub fn next(&self) -> (loc: Option<Loc>)
        requires
            self.wf(),
        ensures
            loc == (if self@.at < self@.entries.len() {
                Some(self@.entries[self@.at].loc)
            } else {
                None
            }),
    {
        if self.at < self.entries.len() {
            Some(self.entries[self.at].loc)
        } else {
            None
        }
    }

    /// Whether the offsets in the merged segment stay within 64 bits with the next
    /// value in it.
    pub fn has_room(&self) -> (r: bool)
        requires
            self.wf(),
        ensures
            r == next_fits(self@),
            r == (self@.at < self@.entries.len() ==> merged_pos(self@.entries, self@.at + 1)
                <= u64::MAX),
    {
        if self.at >= self.entries.len() {
            return true;
        }
        let key_len = self.entries[self.at].key.len() as u64;
        let val_len = self.entries[self.at].loc.val_len as u64;
        assert(key_len == self@.entries[self@.at].key@.len());
        HEADER as u64 + key_len + val_len <= u64::MAX - self.pos
    }

    /// Copies the next key with its value, which was read as `val`.
    pub fn copy(&mut self, val: &[u8]) -> (step: Step)
        requires
            old(self).wf(),
            old(self)@.at < old(self)@.entries.len(),
            val@.len() == old(self)@.entries[old(self)@.at].loc.val_len,
            merged_pos(old(self)@.entries, old(self)@.at + 1) <= u64::MAX,
        ensures
            final(self).wf(),
            final(self)@ == (Copying { at: old(self)@.at + 1, ..old(self)@ }),
            step@ == copy_move(
                old(self)@.merged_id,
                old(self)@.entries[old(self)@.at].key@,
                val@,
            ),
            step.effect.wf(),
    {
        let key = slice_to_vec(self.entries[self.at].key.as_slice());
        assert(key@ == self@.entries[self@.at].key@);
        let bytes = encode(key.as_slice(), Some(val));
        let loc = Loc {
            file_id: self.merged_id,
            val_pos: self.pos + HEADER as u64 + key.len() as u64,
            val_len: val.len() as u32,
        };
        self.pos = self.pos + bytes.len() as u64;
        self.keydir.insert(key, loc);
        assert(self.at < self.entries.len());
        self.at += 1;
        Step { action: Action::Append { id: self.merged_id, bytes }, effect: Effect::Nothing }
    }

    /// The steps that are left once every live value was copied. Only after the
    /// merged segment and its name are on stable storage are the old segments deleted.
    pub fn finish(self) -> (steps: Vec<Step>)
        requires
            self.wf(),
            self@.at == self@.entries.len(),
        ensures
            moves(steps@) == finish_moves(
                self@.merged_id,
                self@.old_ids,
                merged_index(self@.merged_id, self@.entries, self@.at),
            ),
            all_wf(steps@),
    {
        let merged_id = self.merged_id;
        let active_id = merged_id + 1;
        let old_ids = self.old_ids;
        let ghost index = self.keydir@;
        let ghost first = seal_moves(merged_id) + switch_moves(merged_id, index);
        proof {
            lemma_merged_bounded(self.merged_id, self.entries@, self.at as int);
        }
        let mut steps: Vec<Step> = Vec::new();
        steps.push(Step { action: Action::Sync { id: merged_id }, effect: Effect::Nothing });
        steps.push(
            Step {
                action: Action::OpenAppend { id: active_id },
                effect: Effect::Created { id: active_id },
            },
        );
        steps.push(Step { action: Action::SyncDir, effect: Effect::Nothing });
        steps.push(Step { action: Action::CloseReaders, effect: Effect::NotReading });
        steps.push(
            Step {
                action: Action::OpenReader { id: merged_id },
                effect: Effect::Reading { id: merged_id },
            },
        );
        steps.push(
            Step {
                action: Action::OpenReader { id: active_id },
                effect: Effect::Compacted { id: active_id, keydir: self.keydir },
            },
        );
        assert(moves(steps@) =~= first + remove_moves(old_ids@.take(0)));
        let mut i: usize = 0;
        while i < old_ids.len()
            invariant
                i <= old_ids@.len(),
                moves(steps@) == first + remove_moves(old_ids@.take(i as int)),
                all_wf(steps@),
            decreases old_ids@.len() - i,
        {
            let id = old_ids[i];
            let ghost before = steps@;
            steps.push(Step { action: Action::Remove { id }, effect: Effect::Removed { id } });
            assert(remove_moves(old_ids@.take(i + 1)) =~= remove_moves(old_ids@.take(i as int)).push(
                Move { act: Act::Remove { id }, eff: Eff::Removed { id } },
            ));
            assert(moves(steps@) =~= moves(before).push(steps@.last()@));
            assert(moves(steps@) =~= first + remove_moves(old_ids@.take(i + 1)));
            i += 1;
        }
        assert(old_ids@.take(i as int) =~= old_ids@);
        let ghost before = steps@;
        steps.push(Step { action: Action::SyncDir, effect: Effect::Nothing });
        assert(moves(steps@) =~= moves(before) + settle_moves());
        steps
    }
}

proof fn lemma_merged_bounded(id: u64, entries: Seq<Entry>, n: int)
    requires
        0 <= n <= entries.len(),
        forall|i: int| 0 <= i < entries.len() ==> (#[trigger] entries[i]).key@.len() <= MAX_KV,
    ensures
        keys_bounded(merged_index(id, entries, n)),
    decreases n,
{
    if n > 0 {
        lemma_merged_bounded(id, entries, n - 1);
    }
}

} // verus!
