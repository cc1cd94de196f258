//! Opening a store: every segment is replayed, in the order of their numbers, to
//! rebuild the index.

use crate::action::{Act, Action, State};
use crate::keydir::{keys_bounded, Index, Keydir};
use crate::naming::{seg_id, segment_id};
use crate::record::{
    front, key_len, le32_at, lemma_front_cut, lemma_front_extends, lemma_front_kept, push_bytes, read_le32,
    val_len, Front, HEADER, MAX_KV, MAX_RECORD, TOMBSTONE,
};
use crate::segment::{
    applied, clean, ends_in_header, folded, lemma_folded_first, replay, replay_front, replayed,
    scan, scan_end, Rec,
};
use crate::sorting::{ascending, insert_sorted};
use crate::store::{Store, StoreError};
use std::collections::HashSet;
use vstd::prelude::*;
use vstd::slice::slice_to_vec;

verus! {

broadcast use vstd::std_specs::hash::group_hash_axioms;

/// The numbers of the segments among the files of a directory.
pub open spec fn found(names: Seq<String>) -> Seq<u64>
    decreases names.len(),
{
    if names.len() == 0 {
        Seq::empty()
    } else {
        match seg_id(names.last()@) {
            Some(id) => found(names.drop_last()).push(id),
            None => found(names.drop_last()),
        }
    }
}

/// A store that is being opened.
pub struct Opening {
    ids: Vec<u64>,
    at: usize,
    keydir: Keydir,
    segments: HashSet<u64>,
    readers: HashSet<u64>,
    torn: bool,
    pos: u64,
    header: Vec<u8>,
    seg_cap: u64,
}

/// How far the opening of a store is.
pub struct Progress {
    /// The segments, in the order in which they are replayed.
    pub ids: Seq<u64>,
    /// How many of them have been replayed.
    pub at: int,
    /// The index that they gave.
    pub index: Index,
    /// The segments that are open for reading.
    pub readers: Set<u64>,
    /// Whether the last of them that was replayed ends in a torn or corrupt record.
    pub torn: bool,
    /// Where the next record of the segment that is being replayed begins.
    pub pos: int,
    /// The header of that record, where it has been read, and else nothing.
    pub header: Seq<u8>,
    pub seg_cap: u64,
}

impl View for Opening {
    type V = Progress;

    closed spec fn view(&self) -> Progress {
        Progress {
            ids: self.ids@,
            at: self.at as int,
            index: self.keydir@,
            readers: self.readers@,
            torn: self.torn,
            pos: self.pos as int,
            header: self.header@,
            seg_cap: self.seg_cap,
        }
    }
}

/// The segment that is appended to: the one with the highest number, or the first
/// of a new store.
pub open spec fn active_of(ids: Seq<u64>) -> u64 {
    if ids.len() == 0 {
        1
    } else {
        ids.last()
    }
}

/// The progress after the next segment was read as `bytes`.
pub open spec fn advanced(p: Progress, bytes: Seq<u8>) -> Progress {
    Progress {
        at: p.at + 1,
        index: replayed(p.index, p.ids[p.at], bytes),
        readers: p.readers.insert(p.ids[p.at]),
        torn: !clean(bytes),
        pos: 0,
        header: Seq::empty(),
        ..p
    }
}

/// No part of the next segment has been read.
pub open spec fn between_segments(p: Progress) -> bool {
    p.pos == 0 && p.header.len() == 0
}

/// The length of the piece of the segment that is to be read next: a header, or what
/// the header that was read claims to follow it.
pub open spec fn piece_len(p: Progress) -> int {
    if p.header.len() == 0 {
        HEADER as int
    } else {
        key_len(p.header) + val_len(p.header)
    }
}

/// The progress after the segment that is being replayed came to its end, which is torn
/// or corrupt or neither.
pub open spec fn over(p: Progress, torn: bool) -> Progress {
    Progress {
        at: p.at + 1,
        readers: p.readers.insert(p.ids[p.at]),
        torn,
        pos: 0,
        header: Seq::empty(),
        ..p
    }
}

/// The piece ends the segment in a header, or where one should have begun.
pub open spec fn short_header(p: Progress, piece: Seq<u8>) -> bool {
    p.header.len() == 0 && piece.len() < HEADER
}

/// The progress after the next piece of the segment was read as `piece`.
pub open spec fn fed(p: Progress, piece: Seq<u8>) -> Progress {
    if p.header.len() == 0 {
        if piece.len() < HEADER {
            over(p, piece.len() > 0)
        } else if key_len(piece) > MAX_KV || val_len(piece) > MAX_KV {
            over(p, true)
        } else {
            Progress { header: piece, ..p }
        }
    } else {
        match front(p.header + piece) {
            Front::Whole { key, val, len } => Progress {
                index: applied(p.index, p.ids[p.at], Rec { pos: p.pos, key, val }),
                pos: p.pos + len,
                header: Seq::empty(),
                ..p
            },
            _ => over(p, true),
        }
    }
}

/// The next piece of a segment that holds `bytes`, or as much of it as there is.
pub open spec fn piece_of(p: Progress, bytes: Seq<u8>) -> Seq<u8> {
    let rest = bytes.skip(p.pos + p.header.len());
    if rest.len() < piece_len(p) {
        rest
    } else {
        rest.take(piece_len(p))
    }
}

/// The progress after the next segment was read piece by piece and held `bytes`, and
/// whether it came to its end in a header.
pub open spec fn streamed(p: Progress, bytes: Seq<u8>) -> (Progress, bool)
    decreases bytes.len() - p.pos, HEADER - p.header.len(),
{
    let piece = piece_of(p, bytes);
    let next = fed(p, piece);
    if next.at != p.at {
        (next, short_header(p, piece))
    } else if p.pos <= next.pos <= bytes.len() && (p.pos < next.pos || p.header.len()
        < next.header.len() <= HEADER) {
        streamed(next, bytes)
    } else {
        (next, false)
    }
}

/// How far an opening is that just began.
pub open spec fn unopened(ids: Seq<u64>, seg_cap: u64) -> Progress {
    Progress {
        ids,
        at: 0,
        index: Index::empty(),
        readers: Set::empty(),
        torn: false,
        pos: 0,
        header: Seq::empty(),
        seg_cap,
    }
}

/// Reading a segment from the offset of one of its records on.
proof fn lemma_streamed(p: Progress, bytes: Seq<u8>)
    requires
        0 <= p.pos <= bytes.len(),
        p.header.len() == 0,
    ensures
        streamed(p, bytes) == (
            Progress {
                index: folded(p.index, p.ids[p.at], scan(bytes, p.pos)),
                ..over(p, scan_end(bytes, p.pos) != bytes.len())
            },
            bytes.len() - scan_end(bytes, p.pos) < HEADER,
        ),
    decreases bytes.len() - p.pos,
{
    let id = p.ids[p.at];
    let rest = bytes.skip(p.pos);
    let head = piece_of(p, bytes);
    let p1 = fed(p, head);
    let none = Seq::<Rec>::empty();
    assert(p.header =~= Seq::empty());
    assert(folded(p.index, id, none) == p.index);
    if rest.len() < HEADER {
        assert(scan(bytes, p.pos) == none);
    } else {
        assert(head =~= rest.take(HEADER as int));
        assert(key_len(head) == key_len(rest) && val_len(head) == val_len(rest));
        if key_len(rest) <= MAX_KV && val_len(rest) <= MAX_KV {
            lemma_streamed_body(p, p1, bytes);
            let piece = piece_of(p1, bytes);
            let p2 = fed(p1, piece);
            assert(streamed(p, bytes) == streamed(p1, bytes));
            if let Front::Whole { key, val, len } = front(rest) {
                let rec = Rec { pos: p.pos, key, val };
                lemma_front_extends(rest, Seq::empty());
                assert(streamed(p1, bytes) == streamed(p2, bytes));
                lemma_streamed(p2, bytes);
                lemma_folded_first(p.index, id, rec, scan(bytes, p.pos + len));
            } else {
                assert(scan(bytes, p.pos) == none);
            }
        } else {
            assert(scan(bytes, p.pos) == none);
        }
    }
}

/// What follows a header is read as it would be together with it.
proof fn lemma_streamed_body(p: Progress, p1: Progress, bytes: Seq<u8>)
    requires
        0 <= p.pos,
        p.pos + HEADER <= bytes.len(),
        p1 == (Progress { header: bytes.skip(p.pos).take(HEADER as int), ..p }),
    ensures
        ({
            let rest = bytes.skip(p.pos);
            let all = p1.header + piece_of(p1, bytes);
            &&& front(rest) is Whole ==> front(all) == front(rest)
            &&& front(all) is Whole ==> front(all) == front(rest)
        }),
{
    let rest = bytes.skip(p.pos);
    let head = p1.header;
    let len = HEADER + key_len(rest) + val_len(rest);
    let all = head + piece_of(p1, bytes);
    assert(key_len(head) == key_len(rest) && val_len(head) == val_len(rest));
    assert(bytes.skip(p.pos + HEADER) =~= rest.skip(HEADER as int));
    if rest.len() < len {
        assert(all =~= rest);
    } else {
        assert(all =~= rest.take(len));
        if front(rest) is Whole {
            lemma_front_kept(rest, len);
        }
        if front(all) is Whole {
            lemma_front_cut(rest, len);
        }
    }
}

/// Replaying a segment piece by piece, as it is read, comes to the same as replaying it
/// as a whole, and breaks off in a header on the same bytes.
pub proof fn law_pieces_replay_the_segment(p: Progress, bytes: Seq<u8>)
    requires
        between_segments(p),
    ensures
        streamed(p, bytes) == (advanced(p, bytes), ends_in_header(bytes)),
{
    lemma_streamed(p, bytes);
}

/// The next record has an offset to stand at.
pub open spec fn next_stands(p: Progress) -> bool {
    p.pos + MAX_RECORD <= u64::MAX
}

/// A segment can be read on wherever the longest record would still end within 64 bits.
pub proof fn law_next_record_stands(p: Progress)
    ensures
        next_stands(p) <==> p.pos + 12 + 2 * 256 * 1024 * 1024 <= u64::MAX,
{
}

/// No piece is asked for that is longer than a key and a value may be, whatever the bytes
/// of a segment claim: a header that claims more ends the segment.
pub proof fn law_pieces_are_bounded(p: Progress, piece: Seq<u8>)
    requires
        p.header.len() == 0 || piece_len(p) <= 2 * MAX_KV,
    ensures
        piece_len(fed(p, piece)) <= 2 * MAX_KV,
        p.header.len() == 0 && piece.len() == 12 && (le32_at(piece, 4) > MAX_KV || (le32_at(
            piece,
            8,
        ) > MAX_KV && le32_at(piece, 8) != 0xffff_ffff)) ==> fed(p, piece).at == p.at + 1 && fed(
            p,
            piece,
        ).torn && fed(p, piece).index == p.index,
{
}

/// The memory of a store once every segment was replayed and the active one found
/// to be `active_len` bytes long. A torn or corrupt record at its end stays where it
/// is, and nothing is written behind it.
pub open spec fn finished(p: Progress, active_len: u64) -> State {
    State {
        active_id: active_of(p.ids),
        active_len,
        spent: p.torn,
        last_id: active_of(p.ids),
        segments: p.readers.insert(active_of(p.ids)),
        readers: p.readers.insert(active_of(p.ids)),
        index: p.index,
        seg_cap: p.seg_cap,
        sync_writes: false,
    }
}

/// The actions that end the opening of a store with these segments.
pub open spec fn last_acts(ids: Seq<u64>) -> Seq<Act> {
    let id = active_of(ids);
    seq![Act::OpenAppend { id }, Act::SyncDir, Act::OpenReader { id }]
}

impl Store {
    /// Begins to open the store in a directory that holds files with these names.
    /// `seg_cap` is the length in bytes at which the active segment is left for a
    /// new one.
    pub fn open(names: &[String], seg_cap: u64) -> (opening: Opening)
        ensures
            opening.wf(),
            ascending(opening@.ids),
            opening@.ids.to_multiset() == found(names@).to_multiset(),
            opening@ == unopened(opening@.ids, seg_cap),
    {
        let mut ids: Vec<u64> = Vec::new();
        let mut i: usize = 0;
        while i < names.len()
            invariant
                i <= names@.len(),
                ascending(ids@),
                ids@.to_multiset() == found(names@.take(i as int)).to_multiset(),
            decreases names@.len() - i,
        {
            let id = segment_id(names[i].as_str());
            proof {
                broadcast use vstd::seq_lib::group_to_multiset_ensures;

                let so_far = names@.take(i + 1);
                assert(so_far.drop_last() =~= names@.take(i as int));
                assert(so_far.last() == names@[i as int]);
            }
            if let Some(id) = id {
                insert_sorted(&mut ids, id);
                proof {
                    broadcast use vstd::seq_lib::group_to_multiset_ensures;

                    assert(ids@.to_multiset() =~= found(names@.take(i + 1)).to_multiset());
                }
            }
            i += 1;
        }
        assert(names@.take(i as int) =~= names@);
        Opening {
            ids,
            at: 0,
            keydir: Keydir::new(),
            segments: HashSet::new(),
            readers: HashSet::new(),
            torn: false,
            pos: 0,
            header: Vec::new(),
            seg_cap,
        }
    }
}

impl Opening {
    /// The index is in order, no key is above `MAX_KV`, no more segments were replayed
    /// than there are, and those that were are open for reading.
    pub closed spec fn wf(&self) -> bool {
        &&& self.keydir.wf()
        &&& keys_bounded(self.keydir@)
        &&& self.at <= self.ids@.len()
        &&& self.segments@ == self.readers@
        &&& self.header@.len() > 0 ==> {
            &&& self.header@.len() == HEADER
            &&& key_len(self.header@) <= MAX_KV
            &&& val_len(self.header@) <= MAX_KV
        }
    }

    /// The segment that is to be read next, or `None` where all have been.
    pub fn next(&self) -> (id: Option<u64>)
        requires
            self.wf(),
        ensures
            0 <= self@.at <= self@.ids.len(),
            id == (if self@.at < self@.ids.len() {
                Some(self@.ids[self@.at])
            } else {
                None
            }),
    {
        if self.at < self.ids.len() {
            Some(self.ids[self.at])
        } else {
            None
        }
    }

    /// Replays the next segment, of which `bytes` could be read; `complete` says
    /// whether that is all of it. Gives the action that is to follow. Where reading
    /// broke off in a header, opening the store fails.
    pub fn replay(&mut self, bytes: &[u8], complete: bool) -> (r: Result<Action, StoreError>)
        requires
            old(self).wf(),
            old(self)@.at < old(self)@.ids.len(),
            between_segments(old(self)@),
        ensures
            final(self).wf(),
            final(self)@ == advanced(old(self)@, bytes@),
            match r {
                Ok(action) => (complete || !ends_in_header(bytes@)) && action@
                    == (Act::OpenReader { id: old(self)@.ids[old(self)@.at] }),
                Err(e) => !complete && ends_in_header(bytes@) && e == StoreError::Unreadable,
            },
    {
        let id = self.ids[self.at];
        let (ok, whole) = replay(bytes, complete, id, &mut self.keydir);
        assert(self.header@ =~= Seq::empty());
        self.end_segment(!whole);
        if ok {
            Ok(Action::OpenReader { id })
        } else {
            Err(StoreError::Unreadable)
        }
    }

    /// The length of the next piece of the segment: that of a header, or of what the
    /// header that was read claims to follow it.
    pub fn wanted(&self) -> (len: usize)
        requires
            self.wf(),
        ensures
            len == piece_len(self@),
    {
        if self.header.len() == 0 {
            HEADER
        } else {
            let header = self.header.as_slice();
            let vlen = read_le32(header, 8);
            read_le32(header, 4) as usize + if vlen == TOMBSTONE {
                0
            } else {
                vlen as usize
            }
        }
    }

    /// Whether the next record has an offset to stand at.
    pub fn has_room(&self) -> (r: bool)
        ensures
            r == next_stands(self@),
            r == (self@.pos + MAX_RECORD <= u64::MAX),
    {
        self.pos <= u64::MAX - MAX_RECORD
    }

    /// Replays the next piece of the segment, of which `piece` could be read; `complete`
    /// says whether the segment ends where fewer bytes than asked for came, or reading
    /// broke off. Gives the action that is to follow where the segment is over. Where
    /// reading broke off in a header, opening the store fails.
    pub fn feed(&mut self, piece: &[u8], complete: bool) -> (r: Result<Option<Action>, StoreError>)
        requires
            old(self).wf(),
            old(self)@.at < old(self)@.ids.len(),
            old(self)@.pos + MAX_RECORD <= u64::MAX,
            piece@.len() <= piece_len(old(self)@),
        ensures
            final(self).wf(),
            final(self)@ == fed(old(self)@, piece@),
            match r {
                Ok(None) => final(self)@.at == old(self)@.at,
                Ok(Some(action)) => final(self)@.at == old(self)@.at + 1 && (complete
                    || !short_header(old(self)@, piece@)) && action@ == (Act::OpenReader {
                    id: old(self)@.ids[old(self)@.at],
                }),
                Err(e) => !complete && short_header(old(self)@, piece@) && e
                    == StoreError::Unreadable,
            },
    {
        let id = self.ids[self.at];
        if self.header.len() == 0 {
            if piece.len() < HEADER {
                self.end_segment(piece.len() > 0);
                return if complete {
                    Ok(Some(Action::OpenReader { id }))
                } else {
                    Err(StoreError::Unreadable)
                };
            }
            let vlen = read_le32(piece, 8);
            if read_le32(piece, 4) as usize > MAX_KV || (vlen != TOMBSTONE && vlen as usize
                > MAX_KV) {
                self.end_segment(true);
                return Ok(Some(Action::OpenReader { id }));
            }
            self.header = slice_to_vec(piece);
            return Ok(None);
        }
        let mut record: Vec<u8> = Vec::new();
        push_bytes(&mut record, self.header.as_slice());
        push_bytes(&mut record, piece);
        assert(record@ =~= self.header@ + piece@);
        match replay_front(record.as_slice(), self.pos, id, &mut self.keydir) {
            Some(len) => {
                self.pos = self.pos + len as u64;
                self.header = Vec::new();
                Ok(None)
            },
            None => {
                self.end_segment(true);
                Ok(Some(Action::OpenReader { id }))
            },
        }
    }

    /// Leaves the segment that is being replayed.
    fn end_segment(&mut self, torn: bool)
        requires
            old(self).wf(),
            old(self)@.at < old(self)@.ids.len(),
        ensures
            final(self).wf(),
            final(self)@ == over(old(self)@, torn),
    {
        let id = self.ids[self.at];
        self.segments.insert(id);
        self.readers.insert(id);
        self.torn = torn;
        self.pos = 0;
        self.header = Vec::new();
        assert(self.at < self.ids.len());
        self.at += 1;
    }

    /// The segment that will be appended to.
    pub fn active_id(&self) -> (id: u64)
        ensures
            id == active_of(self@.ids),
    {
        if self.ids.len() == 0 {
            1
        } else {
            self.ids[self.ids.len() - 1]
        }
    }

    /// The actions that are left once every segment was replayed: the active segment
    /// is opened for appending, which creates the first one of a new store, its name is
    /// brought to stable storage, and it is opened for reading.
    pub fn last_actions(&self) -> (actions: Vec<Action>)
        ensures
            actions@.map_values(|a: Action| a@) == last_acts(self@.ids),
    {
        let id = self.active_id();
        let actions = vec![
            Action::OpenAppend { id },
            Action::SyncDir,
            Action::OpenReader { id },
        ];
        assert(actions@.map_values(|a: Action| a@) =~= last_acts(self@.ids));
        actions
    }

    /// The store, once every segment was replayed and the active one found to be
    /// `active_len` bytes long.
    pub fn finish(self, active_len: u64) -> (store: Store)
        requires
            self.wf(),
            self@.at == self@.ids.len(),
        ensures
            store.wf(),
            store@ == finished(self@, active_len),
    {
        let id = self.active_id();
        let mut segments = self.segments;
        segments.insert(id);
        let mut readers = self.readers;
        readers.insert(id);
        Store::assembled(
            id,
            active_len,
            self.torn,
            segments,
            readers,
            self.keydir,
            self.seg_cap,
        )
    }
}

} // verus!
