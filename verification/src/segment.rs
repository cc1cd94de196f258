//! Segments: the files that the log is cut into.

use crate::crc::checksum;
use crate::keydir::{keys_bounded, Index, Keydir, Loc};
use crate::record::{
    encoded, front, key_len, law_only_records_are_read, law_record_round_trip, law_torn_record_is_rejected, lemma_encoded_len,
    lemma_front_cut, lemma_front_extends, lemma_front_kept, read_le32, val_len, value_bytes, Front,
    HEADER, MAX_KV, TOMBSTONE,
};
use vstd::prelude::*;
use vstd::slice::slice_subrange;
use vstd::slice::slice_to_vec;

verus! {

/// A record at its offset in a segment. `val` is `None` for a deletion.
pub struct Rec {
    pub pos: int,
    pub key: Seq<u8>,
    pub val: Option<Seq<u8>>,
}

/// The records of a segment from the offset `pos` on, up to the first that is torn
/// or corrupt.
pub open spec fn scan(bytes: Seq<u8>, pos: int) -> Seq<Rec>
    decreases bytes.len() - pos,
{
    if 0 <= pos <= bytes.len() {
        match front(bytes.skip(pos)) {
            Front::Whole { key, val, len } => {
                if 0 < len <= bytes.len() - pos {
                    seq![Rec { pos, key, val }] + scan(bytes, pos + len)
                } else {
                    Seq::empty()
                }
            },
            _ => Seq::empty(),
        }
    } else {
        Seq::empty()
    }
}

/// The offset at which `scan` stops.
pub open spec fn scan_end(bytes: Seq<u8>, pos: int) -> int
    decreases bytes.len() - pos,
{
    if 0 <= pos <= bytes.len() {
        match front(bytes.skip(pos)) {
            Front::Whole { key, val, len } => {
                if 0 < len <= bytes.len() - pos {
                    scan_end(bytes, pos + len)
                } else {
                    pos
                }
            },
            _ => pos,
        }
    } else {
        pos
    }
}

/// The segment is records from end to end.
pub open spec fn clean(bytes: Seq<u8>) -> bool {
    scan_end(bytes, 0) == bytes.len()
}

/// The segment ended where a header should have begun or gone on.
pub open spec fn ends_in_header(bytes: Seq<u8>) -> bool {
    bytes.len() - scan_end(bytes, 0) < HEADER
}

/// The place of the value of a record at `pos` in the segment `id`.
pub open spec fn place_of(id: u64, pos: int, key: Seq<u8>, val: Seq<u8>) -> Loc {
    Loc { file_id: id, val_pos: (pos + HEADER + key.len()) as u64, val_len: val.len() as u32 }
}

/// The index after one more record of the segment `id`.
pub open spec fn applied(index: Index, id: u64, rec: Rec) -> Index {
    match rec.val {
        Some(val) => index.insert(rec.key, place_of(id, rec.pos, rec.key, val)),
        None => index.remove(rec.key),
    }
}

/// The index after the records of the segment `id`, in their order.
pub open spec fn folded(index: Index, id: u64, recs: Seq<Rec>) -> Index
    decreases recs.len(),
{
    if recs.len() == 0 {
        index
    } else {
        applied(folded(index, id, recs.drop_last()), id, recs.last())
    }
}

/// The index after replaying the segment `id`, which holds `bytes`.
pub open spec fn replayed(index: Index, id: u64, bytes: Seq<u8>) -> Index {
    folded(index, id, scan(bytes, 0))
}

/// Folds the record at the front of `bytes`, which stands at `pos` in the segment
/// `file_id`, into the index. Gives its length, or `None` where no whole record stands
/// there, which leaves the index as it was.
pub(crate) fn replay_front(bytes: &[u8], pos: u64, file_id: u64, keydir: &mut Keydir) -> (r: Option<
    usize,
>)
    requires
        old(keydir).wf(),
        pos + bytes@.len() <= u64::MAX,
    ensures
        final(keydir).wf(),
        keys_bounded(old(keydir)@) ==> keys_bounded(final(keydir)@),
        match front(bytes@) {
            Front::Whole { key, val, len } => r == Some(len as usize) && HEADER <= len
                <= bytes@.len() && final(keydir)@ == applied(
                old(keydir)@,
                file_id,
                Rec { pos: pos as int, key, val },
            ),
            _ => r is None && final(keydir)@ == old(keydir)@,
        },
{
    if bytes.len() < HEADER {
        return None;
    }
    let sum = read_le32(bytes, 0);
    let klen32 = read_le32(bytes, 4);
    let vlen32 = read_le32(bytes, 8);
    let tomb = vlen32 == TOMBSTONE;
    let klen = klen32 as usize;
    let vlen = if tomb {
        0
    } else {
        vlen32 as usize
    };
    if klen > MAX_KV || vlen > MAX_KV {
        return None;
    }
    let len: usize = HEADER + klen + vlen;
    if bytes.len() < len || checksum(slice_subrange(bytes, 4, len)) != sum {
        return None;
    }
    let key = slice_subrange(bytes, HEADER, HEADER + klen);
    if tomb {
        keydir.remove(key);
    } else {
        let val_pos = pos + (HEADER + klen) as u64;
        keydir.insert(slice_to_vec(key), Loc { file_id, val_pos, val_len: vlen as u32 });
    }
    Some(len)
}

/// Folds the records of the segment `file_id` into the index, up to the first that
/// is torn or corrupt. `bytes` is what could be read of the segment; `complete`
/// says whether that is all of it or reading broke off. Where it broke off in a
/// header the segment cannot be trusted to end there, and the first result is `false`.
/// The second tells whether the records reach to the end of the bytes.
pub fn replay(bytes: &[u8], complete: bool, file_id: u64, keydir: &mut Keydir) -> (r: (bool,
    bool))
    requires
        old(keydir).wf(),
    ensures
        final(keydir).wf(),
        final(keydir)@ == replayed(old(keydir)@, file_id, bytes@),
        keys_bounded(old(keydir)@) ==> keys_bounded(final(keydir)@),
        r.0 == (complete || !ends_in_header(bytes@)),
        r.1 == clean(bytes@),
{
    let mut pos: usize = 0;
    let ghost mut done: Seq<Rec> = Seq::empty();
    loop
        invariant
            keydir.wf(),
            pos <= bytes@.len(),
            done + scan(bytes@, pos as int) == scan(bytes@, 0),
            scan_end(bytes@, pos as int) == scan_end(bytes@, 0),
            keydir@ == folded(old(keydir)@, file_id, done),
            keys_bounded(old(keydir)@) ==> keys_bounded(keydir@),
        decreases bytes@.len() - pos,
    {
        let left = bytes.len() - pos;
        let rest = slice_subrange(bytes, pos, bytes.len());
        assert(rest@ =~= bytes@.skip(pos as int));
        if left < HEADER {
            return (complete, left == 0);
        }
        match replay_front(rest, pos as u64, file_id, keydir) {
            None => {
                return (true, false);
            },
            Some(len) => {
                proof {
                    let rec = Rec {
                        pos: pos as int,
                        key: front(rest@)->key,
                        val: front(rest@)->val,
                    };
                    assert(scan(bytes@, pos as int) == seq![rec] + scan(bytes@, pos + len));
                    assert(done.push(rec) + scan(bytes@, pos + len) =~= scan(bytes@, 0));
                    assert(done.push(rec).drop_last() =~= done);
                    done = done.push(rec);
                }
                pos += len;
            },
        }
    }
}

/// The records of a segment may be folded in one by one, from the first on.
pub proof fn lemma_folded_first(index: Index, id: u64, rec: Rec, recs: Seq<Rec>)
    ensures
        folded(index, id, seq![rec] + recs) == folded(applied(index, id, rec), id, recs),
    decreases recs.len(),
{
    let all = seq![rec] + recs;
    if recs.len() == 0 {
        assert(all.drop_last() =~= Seq::empty());
        assert(folded(index, id, all.drop_last()) == index);
    } else {
        lemma_folded_first(index, id, rec, recs.drop_last());
        assert(all.drop_last() =~= seq![rec] + recs.drop_last());
    }
}

/// The bytes that a record takes.
pub open spec fn rec_len(rec: Rec) -> int {
    HEADER + rec.key.len() + value_bytes(rec.val).len()
}

/// The record stands in the segment where it says, with lengths in bounds.
pub open spec fn stands_in(rec: Rec, bytes: Seq<u8>) -> bool {
    &&& 0 <= rec.pos
    &&& rec.pos + rec_len(rec) <= bytes.len()
    &&& rec.key.len() <= MAX_KV
    &&& value_bytes(rec.val).len() <= MAX_KV
    &&& bytes.subrange(rec.pos + HEADER + rec.key.len(), rec.pos + rec_len(rec)) == value_bytes(
        rec.val,
    )
}

/// Every record that a scan finds stands in the segment where the scan says.
pub proof fn lemma_scan_stands(bytes: Seq<u8>, pos: int)
    ensures
        forall|i: int|
            0 <= i < scan(bytes, pos).len() ==> stands_in(#[trigger] scan(bytes, pos)[i], bytes),
    decreases bytes.len() - pos,
{
    if 0 <= pos <= bytes.len() {
        let rest = bytes.skip(pos);
        if let Front::Whole { key, val, len } = front(rest) {
            lemma_front_extends(rest, Seq::empty());
            lemma_scan_stands(bytes, pos + len);
            let rec = Rec { pos, key, val };
            assert(key.len() == key_len(rest));
            assert(value_bytes(val).len() == val_len(rest));
            assert(bytes.subrange(pos + HEADER + key.len(), pos + len) =~= rest.subrange(
                HEADER + key.len(),
                len,
            ));
            assert(value_bytes(val) =~= rest.subrange(HEADER + key.len(), len));
            let tail = scan(bytes, pos + len);
            assert(scan(bytes, pos) == seq![rec] + tail);
            assert forall|i: int| 0 <= i < scan(bytes, pos).len() implies stands_in(
                #[trigger] scan(bytes, pos)[i],
                bytes,
            ) by {
                if i > 0 {
                    assert(scan(bytes, pos)[i] == tail[i - 1]);
                }
            }
        }
    }
}

/// Bytes behind whole records do not change how those records are read.
proof fn lemma_scan_extends(bytes: Seq<u8>, more: Seq<u8>, pos: int)
    requires
        0 <= pos <= bytes.len(),
        scan_end(bytes, pos) == bytes.len(),
    ensures
        scan(bytes + more, pos) == scan(bytes, pos) + scan(bytes + more, bytes.len() as int),
        scan_end(bytes + more, pos) == scan_end(bytes + more, bytes.len() as int),
    decreases bytes.len() - pos,
{
    let all = bytes + more;
    if pos < bytes.len() {
        let rest = bytes.skip(pos);
        assert(all.skip(pos) =~= rest + more);
        if let Front::Whole { key, val, len } = front(rest) {
            lemma_front_extends(rest, more);
            lemma_scan_extends(bytes, more, pos + len);
            let rec = seq![Rec { pos, key, val }];
            assert(scan(bytes, pos) == rec + scan(bytes, pos + len));
            assert(scan(all, pos) == rec + scan(all, pos + len));
            assert(rec + (scan(bytes, pos + len) + scan(all, bytes.len() as int)) =~= (rec + scan(
                bytes,
                pos + len,
            )) + scan(all, bytes.len() as int));
        }
    } else {
        assert(bytes.skip(pos).len() == 0);
        assert(scan(bytes, pos) =~= Seq::empty());
        assert(Seq::<Rec>::empty() + scan(all, pos) =~= scan(all, pos));
    }
}

/// Whatever follows whole records, be it a torn or a corrupt one, leaves them as
/// they are: a replay begins with exactly these records.
pub proof fn law_damage_keeps_earlier_records(bytes: Seq<u8>, more: Seq<u8>)
    requires
        clean(bytes),
    ensures
        scan(bytes + more, 0).take(scan(bytes, 0).len() as int) == scan(bytes, 0),
{
    lemma_scan_extends(bytes, more, 0);
    assert(scan(bytes + more, 0).take(scan(bytes, 0).len() as int) =~= scan(bytes, 0));
}

/// Appending one whole record to whole records appends it to what is replayed.
proof fn lemma_scan_append(bytes: Seq<u8>, key: Seq<u8>, val: Option<Seq<u8>>)
    requires
        clean(bytes),
        key.len() <= MAX_KV,
        value_bytes(val).len() <= MAX_KV,
    ensures
        clean(bytes + encoded(key, val)),
        scan(bytes + encoded(key, val), 0) == scan(bytes, 0).push(
            Rec { pos: bytes.len() as int, key, val },
        ),
{
    let rec = encoded(key, val);
    let all = bytes + rec;
    let at = bytes.len() as int;
    lemma_scan_extends(bytes, rec, 0);
    law_record_round_trip(key, val, Seq::empty());
    lemma_encoded_len(key, val);
    assert(all.skip(at) =~= rec + Seq::<u8>::empty());
    assert(all.skip(all.len() as int).len() == 0);
    assert(scan(all, all.len() as int) =~= Seq::empty());
    assert(scan_end(all, all.len() as int) == all.len());
    assert(scan(all, at) =~= seq![Rec { pos: at, key, val }]);
    assert(scan(all, 0) =~= scan(bytes, 0).push(Rec { pos: at, key, val }));
}

/// Replaying a segment to which a record for `key` and `val` was appended is
/// replaying the segment and then giving `key` the place of that value.
pub proof fn law_replay_appended_set(
    index: Index,
    id: u64,
    bytes: Seq<u8>,
    key: Seq<u8>,
    val: Seq<u8>,
)
    requires
        clean(bytes),
        key.len() <= MAX_KV,
        val.len() <= MAX_KV,
    ensures
        clean(bytes + encoded(key, Some(val))),
        replayed(index, id, bytes + encoded(key, Some(val))) == replayed(index, id, bytes).insert(
            key,
            place_of(id, bytes.len() as int, key, val),
        ),
{
    lemma_scan_append(bytes, key, Some(val));
    assert(scan(bytes + encoded(key, Some(val)), 0).drop_last() =~= scan(bytes, 0));
}

/// Replaying a segment to which a deletion of `key` was appended is replaying the
/// segment and then dropping `key`.
pub proof fn law_replay_appended_delete(index: Index, id: u64, bytes: Seq<u8>, key: Seq<u8>)
    requires
        clean(bytes),
        key.len() <= MAX_KV,
    ensures
        clean(bytes + encoded(key, None)),
        replayed(index, id, bytes + encoded(key, None)) == replayed(index, id, bytes).remove(key),
{
    lemma_scan_append(bytes, key, None);
    assert(scan(bytes + encoded(key, None), 0).drop_last() =~= scan(bytes, 0));
}

/// A half-written record at the end of a segment is discarded: the replay gives
/// what it gave before that write began.
pub proof fn law_torn_write_is_discarded(
    index: Index,
    id: u64,
    bytes: Seq<u8>,
    key: Seq<u8>,
    val: Option<Seq<u8>>,
    n: int,
)
    requires
        clean(bytes),
        key.len() <= MAX_KV,
        value_bytes(val).len() <= MAX_KV,
        0 <= n < encoded(key, val).len(),
    ensures
        replayed(index, id, bytes + encoded(key, val).take(n)) == replayed(index, id, bytes),
{
    let torn = encoded(key, val).take(n);
    lemma_scan_extends(bytes, torn, 0);
    law_torn_record_is_rejected(key, val, n);
    assert((bytes + torn).skip(bytes.len() as int) =~= torn);
    assert(scan(bytes + torn, 0) =~= scan(bytes, 0));
}

proof fn lemma_scan_cut(bytes: Seq<u8>, n: int, pos: int)
    requires
        0 <= pos <= n <= bytes.len(),
    ensures
        ({
            let kept = scan(bytes.take(n), pos);
            let all = scan(bytes, pos);
            &&& kept.len() <= all.len()
            &&& kept == all.take(kept.len() as int)
            &&& kept.len() < all.len() ==> all[kept.len() as int].pos + rec_len(
                all[kept.len() as int],
            ) > n
        }),
    decreases n - pos,
{
    let cut = bytes.take(n);
    let rest = bytes.skip(pos);
    assert(cut.skip(pos) =~= rest.take(n - pos));
    match front(cut.skip(pos)) {
        Front::Whole { key, val, len } => {
            lemma_front_cut(rest, n - pos);
            lemma_scan_cut(bytes, n, pos + len);
            let rec = seq![Rec { pos, key, val }];
            assert(scan(cut, pos) == rec + scan(cut, pos + len));
            assert(scan(bytes, pos) == rec + scan(bytes, pos + len));
            let kept = scan(cut, pos);
            assert(kept =~= scan(bytes, pos).take(kept.len() as int));
        },
        _ => {
            assert(scan(cut, pos) =~= scan(bytes, pos).take(0));
            if scan(bytes, pos).len() > 0 {
                if let Front::Whole { key, val, len } = front(rest) {
                    lemma_front_extends(rest, Seq::empty());
                    assert(key.len() == key_len(rest));
                    assert(value_bytes(val).len() == val_len(rest));
                    assert(scan(bytes, pos)[0] == Rec { pos, key, val });
                    if len <= n - pos {
                        lemma_front_kept(rest, n - pos);
                    }
                }
            }
        },
    }
}

/// Wherever a crash cuts a segment off, a replay finds exactly the records that
/// were whole before the cut, and nothing else.
pub proof fn law_cut_keeps_whole_records(bytes: Seq<u8>, n: int)
    requires
        0 <= n <= bytes.len(),
    ensures
        ({
            let kept = scan(bytes.take(n), 0);
            let all = scan(bytes, 0);
            &&& kept.len() <= all.len()
            &&& kept == all.take(kept.len() as int)
            &&& kept.len() < all.len() ==> all[kept.len() as int].pos + rec_len(
                all[kept.len() as int],
            ) > n
        }),
{
    lemma_scan_cut(bytes, n, 0);
}

/// Where the bytes of a segment end, behind whole records, with fewer bytes than a header
/// has, the end counts as one in a header; with more bytes, which are no whole record, it
/// does not. Only what is records from end to end is clean.
pub proof fn law_end_in_header(bytes: Seq<u8>, tail: Seq<u8>)
    requires
        clean(bytes),
        !(front(tail) is Whole),
    ensures
        ends_in_header(bytes + tail) <==> tail.len() < 12,
        clean(bytes + tail) <==> tail.len() == 0,
        scan(bytes + tail, 0) == scan(bytes, 0),
{
    lemma_scan_extends(bytes, tail, 0);
    assert((bytes + tail).skip(bytes.len() as int) =~= tail);
    assert(scan(bytes + tail, 0) =~= scan(bytes, 0));
}

/// A record that is replayed was written as such: its bytes stand at its offset.
pub proof fn law_only_records_are_replayed(bytes: Seq<u8>, i: int)
    requires
        0 <= i < scan(bytes, 0).len(),
    ensures
        ({
            let rec = scan(bytes, 0)[i];
            let len = encoded(rec.key, rec.val).len();
            &&& 0 <= rec.pos
            &&& rec.pos + len <= bytes.len()
            &&& bytes.subrange(rec.pos, rec.pos + len) == encoded(rec.key, rec.val)
            &&& rec.pos == (if i == 0 {
                0
            } else {
                let before = scan(bytes, 0)[i - 1];
                before.pos + encoded(before.key, before.val).len()
            })
        }),
{
    lemma_scan_encoded(bytes, 0, i);
}

proof fn lemma_scan_encoded(bytes: Seq<u8>, pos: int, i: int)
    requires
        0 <= pos <= bytes.len(),
        0 <= i < scan(bytes, pos).len(),
    ensures
        ({
            let rec = scan(bytes, pos)[i];
            let len = encoded(rec.key, rec.val).len();
            &&& pos <= rec.pos
            &&& rec.pos + len <= bytes.len()
            &&& bytes.subrange(rec.pos, rec.pos + len) == encoded(rec.key, rec.val)
            &&& rec.pos == (if i == 0 {
                pos
            } else {
                let before = scan(bytes, pos)[i - 1];
                before.pos + encoded(before.key, before.val).len()
            })
        }),
    decreases bytes.len() - pos,
{
    let rest = bytes.skip(pos);
    if let Front::Whole { key, val, len } = front(rest) {
        lemma_front_extends(rest, Seq::empty());
        law_only_records_are_read(rest);
        let tail = scan(bytes, pos + len);
        assert(scan(bytes, pos) == seq![Rec { pos, key, val }] + tail);
        if i == 0 {
            assert(bytes.subrange(pos, pos + len) =~= rest.take(len));
        } else {
            lemma_scan_encoded(bytes, pos + len, i - 1);
            assert(scan(bytes, pos)[i] == tail[i - 1]);
            if i > 1 {
                assert(scan(bytes, pos)[i - 1] == tail[i - 2]);
            }
        }
    }
}

} // verus!
