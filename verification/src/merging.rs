//! What compaction means for the values of a store.

use crate::action::{fits, needed, Act, Eff, Move, State};
use crate::compaction::{
    begin_moves, copy_move, finish_moves, merged_index, merged_loc, merged_pos, remove_moves,
    seal_moves, settle_moves, switch_moves,
};
use crate::disk::{
    all_open, all_placed, broken_off, can_crash, contents, crashed, durable, in_step, kept,
    lemma_empty_segment, lemma_grown, lemma_rebuilt_add, lemma_rebuilt_push, lemma_rebuilt_same,
    lemma_reopened_placed, lemma_run_add, lemma_run_one, lemma_sorted_last, live, placed, rebuilt,
    reopened, run, sized, stepped, stored, value_at, Disk, World,
};
use crate::keydir::{lists, Entry, Index};
use crate::record::{encoded, lemma_encoded_len, HEADER, MAX_KV};
use crate::segment::{
    clean, folded, law_replay_appended_set, law_torn_write_is_discarded, replayed, scan, Rec,
};
use crate::sorting::{lemma_sorted, lemma_sorted_is, sorted, strictly_ascending};
use crate::store::open_moves;
use vstd::prelude::*;

verus! {

/// The segment that a compaction merges the live values into.
pub open spec fn merged_id(state: State) -> u64 {
    (state.last_id + 1) as u64
}

/// The steps that copy the first `n` values.
pub open spec fn copy_moves(disk: Disk, id: u64, entries: Seq<Entry>, n: int) -> Seq<Move> {
    Seq::new(
        n as nat,
        |i: int| copy_move(id, entries[i].key@, value_at(disk, entries[i].loc)),
    )
}

/// The steps of a compaction that copies the live keys in the order of `entries`.
pub open spec fn compact_moves(world: World, entries: Seq<Entry>) -> Seq<Move> {
    let id = merged_id(world.state);
    let n = entries.len() as int;
    begin_moves(id) + copy_moves(world.disk, id, entries, n) + finish_moves(
        id,
        sorted(world.state.segments),
        merged_index(id, entries, n),
    )
}

/// The records of the first `n` keys, one behind the other.
pub open spec fn merged_bytes(disk: Disk, entries: Seq<Entry>, n: int) -> Seq<u8>
    decreases n,
{
    if n <= 0 {
        Seq::empty()
    } else {
        merged_bytes(disk, entries, n - 1) + encoded(
            entries[n - 1].key@,
            Some(value_at(disk, entries[n - 1].loc)),
        )
    }
}

/// A compaction of the store can be carried out in the order of `entries`: they are
/// its live keys, and the numbers that it needs fit into 64 bits.
pub open spec fn can_merge(world: World, entries: Seq<Entry>) -> bool {
    &&& in_step(world)
    &&& lists(entries, world.state.index)
    &&& world.state.last_id < u64::MAX - 1
    &&& merged_pos(entries, entries.len() as int) <= u64::MAX
}

/// An index in which the first `n` keys have their places in the merged segment.
pub open spec fn moved(index: Index, id: u64, entries: Seq<Entry>, n: int) -> Index
    decreases n,
{
    if n <= 0 {
        index
    } else {
        moved(index, id, entries, n - 1).insert(
            entries[n - 1].key@,
            merged_loc(id, entries, n - 1),
        )
    }
}

proof fn lemma_merged_index(id: u64, entries: Seq<Entry>, n: int)
    ensures
        merged_index(id, entries, n) == moved(Index::empty(), id, entries, n),
    decreases n,
{
    if n > 0 {
        lemma_merged_index(id, entries, n - 1);
    }
}

/// Offsets in the merged segment grow.
pub proof fn lemma_pos_grows(entries: Seq<Entry>, a: int, b: int)
    requires
        0 <= a <= b,
    ensures
        0 <= merged_pos(entries, a) <= merged_pos(entries, b),
    decreases b,
{
    if a < b {
        lemma_pos_grows(entries, a, b - 1);
    } else if a > 0 {
        lemma_pos_grows(entries, a - 1, a - 1);
    }
}

/// `key` is the key of one of the first `n` entries.
spec fn among(entries: Seq<Entry>, n: int, key: Seq<u8>) -> bool {
    exists|i: int| 0 <= i < n && (#[trigger] entries[i]).key@ == key
}

/// The place that a key of the first `n` has.
proof fn lemma_moved_one(index: Index, id: u64, entries: Seq<Entry>, n: int, i: int)
    requires
        0 <= i < n <= entries.len(),
        forall|a: int, b: int|
            0 <= a < b < entries.len() ==> (#[trigger] entries[a]).key@ != (
            #[trigger] entries[b]).key@,
    ensures
        moved(index, id, entries, n).contains_key(entries[i].key@),
        moved(index, id, entries, n)[entries[i].key@] == merged_loc(id, entries, i),
    decreases n,
{
    if i < n - 1 {
        lemma_moved_one(index, id, entries, n - 1, i);
        assert(entries[i].key@ != entries[n - 1].key@);
    }
}

/// A key that is not among the first `n` is left as it is.
proof fn lemma_not_moved(index: Index, id: u64, entries: Seq<Entry>, n: int, key: Seq<u8>)
    requires
        0 <= n <= entries.len(),
        forall|i: int| 0 <= i < n ==> (#[trigger] entries[i]).key@ != key,
    ensures
        moved(index, id, entries, n).contains_key(key) == index.contains_key(key),
        moved(index, id, entries, n)[key] == index[key],
    decreases n,
{
    if n > 0 {
        lemma_not_moved(index, id, entries, n - 1, key);
        assert(entries[n - 1].key@ != key);
    }
}

proof fn lemma_moved(index: Index, id: u64, entries: Seq<Entry>, n: int)
    requires
        0 <= n <= entries.len(),
        forall|i: int, j: int|
            0 <= i < j < entries.len() ==> (#[trigger] entries[i]).key@ != (
            #[trigger] entries[j]).key@,
    ensures
        forall|i: int|
            0 <= i < n ==> moved(index, id, entries, n)[(#[trigger] entries[i]).key@] == merged_loc(
                id,
                entries,
                i,
            ),
        forall|key: Seq<u8>| #[trigger]
            moved(index, id, entries, n).contains_key(key) <==> index.contains_key(key) || among(
                entries,
                n,
                key,
            ),
        forall|key: Seq<u8>|
            !among(entries, n, key) ==> #[trigger] moved(index, id, entries, n)[key] == index[key],
{
    let after = moved(index, id, entries, n);
    assert forall|i: int| 0 <= i < n implies after[(#[trigger] entries[i]).key@] == merged_loc(
        id,
        entries,
        i,
    ) by {
        lemma_moved_one(index, id, entries, n, i);
    }
    assert forall|key: Seq<u8>| #[trigger] after.contains_key(key) <==> index.contains_key(key)
        || among(entries, n, key) by {
        if among(entries, n, key) {
            let i = choose|i: int| 0 <= i < n && (#[trigger] entries[i]).key@ == key;
            lemma_moved_one(index, id, entries, n, i);
        } else {
            lemma_not_moved(index, id, entries, n, key);
        }
    }
    assert forall|key: Seq<u8>| !among(entries, n, key) implies #[trigger] after[key]
        == index[key] by {
        lemma_not_moved(index, id, entries, n, key);
    }
}

proof fn lemma_entry_placed(world: World, entries: Seq<Entry>, i: int)
    requires
        can_merge(world, entries),
        0 <= i < entries.len(),
    ensures
        placed(world.disk, entries[i].loc),
        entries[i].key@.len() <= MAX_KV,
        world.state.index.contains_key(entries[i].key@),
        world.state.index[entries[i].key@] == entries[i].loc,
        value_at(world.disk, entries[i].loc).len() == entries[i].loc.val_len,
{
    assert(world.state.index.contains_key(entries[i].key@));
}

/// Replaying the merged segment gives the copied keys their new places.
pub proof fn lemma_merged(world: World, entries: Seq<Entry>, index: Index, n: int)
    requires
        can_merge(world, entries),
        0 <= n <= entries.len(),
    ensures
        merged_bytes(world.disk, entries, n).len() == merged_pos(entries, n),
        clean(merged_bytes(world.disk, entries, n)),
        replayed(index, merged_id(world.state), merged_bytes(world.disk, entries, n)) == moved(
            index,
            merged_id(world.state),
            entries,
            n,
        ),
    decreases n,
{
    let id = merged_id(world.state);
    if n == 0 {
        lemma_empty_segment(index, id);
    } else {
        lemma_merged(world, entries, index, n - 1);
        lemma_entry_placed(world, entries, n - 1);
        lemma_pos_grows(entries, n, entries.len() as int);
        let key = entries[n - 1].key@;
        let val = value_at(world.disk, entries[n - 1].loc);
        lemma_encoded_len(key, Some(val));
        law_replay_appended_set(index, id, merged_bytes(world.disk, entries, n - 1), key, val);
    }
}

/// The merged segment holds the copied values at their new places.
#[verifier::rlimit(40)]
proof fn lemma_merged_value(world: World, entries: Seq<Entry>, n: int, i: int)
    requires
        can_merge(world, entries),
        0 <= i < n <= entries.len(),
    ensures
        ({
            let start = merged_pos(entries, i) + HEADER + entries[i].key@.len();
            let end = start + entries[i].loc.val_len;
            let bytes = merged_bytes(world.disk, entries, n);
            &&& 0 <= start <= end <= bytes.len()
            &&& bytes.subrange(start, end) == value_at(world.disk, entries[i].loc)
        }),
    decreases n,
{
    let bytes = merged_bytes(world.disk, entries, n);
    let before = merged_bytes(world.disk, entries, n - 1);
    let start = merged_pos(entries, i) + HEADER + entries[i].key@.len();
    let end = start + entries[i].loc.val_len;
    lemma_merged(world, entries, Index::empty(), n);
    lemma_merged(world, entries, Index::empty(), n - 1);
    lemma_entry_placed(world, entries, i);
    lemma_pos_grows(entries, i, i);
    if i < n - 1 {
        lemma_merged_value(world, entries, n - 1, i);
        assert(bytes.subrange(start, end) =~= before.subrange(start, end));
    } else {
        let val = value_at(world.disk, entries[i].loc);
        lemma_encoded_len(entries[i].key@, Some(val));
        assert(bytes.subrange(start, end) =~= val);
    }
}

/// Where the key of an entry is after the first `n` were moved.
proof fn lemma_moved_at(index: Index, id: u64, entries: Seq<Entry>, n: int, i: int)
    requires
        0 <= i < entries.len(),
        0 <= n <= entries.len(),
        forall|a: int, b: int|
            0 <= a < b < entries.len() ==> (#[trigger] entries[a]).key@ != (
            #[trigger] entries[b]).key@,
    ensures
        ({
            let after = moved(index, id, entries, n);
            let key = entries[i].key@;
            if i < n {
                after.contains_key(key) && after[key] == merged_loc(id, entries, i)
            } else {
                after.contains_key(key) == index.contains_key(key) && after[key] == index[key]
            }
        }),
{
    let key = entries[i].key@;
    lemma_moved(index, id, entries, n);
    if i < n {
        assert(among(entries, n, key));
    } else {
        assert(!among(entries, n, key));
    }
}

/// A value that was copied is where the merged index says.
proof fn lemma_copied_value(
    world: World,
    entries: Seq<Entry>,
    disk: Disk,
    n: int,
    tail: Seq<u8>,
    i: int,
)
    requires
        can_merge(world, entries),
        0 <= i < n <= entries.len(),
        disk[merged_id(world.state)] == merged_bytes(world.disk, entries, n) + tail,
    ensures
        value_at(disk, merged_loc(merged_id(world.state), entries, i)) == value_at(
            world.disk,
            entries[i].loc,
        ),
{
    let id = merged_id(world.state);
    lemma_entry_placed(world, entries, i);
    lemma_merged_value(world, entries, n, i);
    lemma_pos_grows(entries, i + 1, entries.len() as int);
    lemma_pos_grows(entries, 0, i);
    let start = merged_pos(entries, i) + HEADER + entries[i].key@.len();
    let end = start + entries[i].loc.val_len;
    assert(disk[id].subrange(start, end) =~= merged_bytes(world.disk, entries, n).subrange(
        start,
        end,
    ));
}

/// A live key has its value in the merged segment if its record is among the first `n`
/// there, and where `base` says if not.
proof fn lemma_same_value(
    world: World,
    entries: Seq<Entry>,
    base: Index,
    disk: Disk,
    n: int,
    tail: Seq<u8>,
    key: Seq<u8>,
)
    requires
        can_merge(world, entries),
        0 <= n <= entries.len(),
        disk[merged_id(world.state)] == merged_bytes(world.disk, entries, n) + tail,
        world.state.index.contains_key(key),
        n < entries.len() ==> contents(disk, base).contains_key(key) && contents(disk, base)[key]
            == live(world)[key],
    ensures
        ({
            let after = moved(base, merged_id(world.state), entries, n);
            &&& after.contains_key(key)
            &&& value_at(disk, after[key]) == value_at(world.disk, world.state.index[key])
        }),
{
    let j = choose|j: int| 0 <= j < entries.len() && (#[trigger] entries[j]).key@ == key;
    lemma_entry_placed(world, entries, j);
    lemma_moved_at(base, merged_id(world.state), entries, n, j);
    if j < n {
        lemma_copied_value(world, entries, disk, n, tail, j);
    }
}

/// Files in which every live key has its value: the merged segment begins with the
/// records of the first `n` keys, and either these are all of the live keys, or opening a
/// store finds the live values in the old segments, which are still there.
proof fn lemma_same_values(
    world: World,
    entries: Seq<Entry>,
    base: Index,
    disk: Disk,
    n: int,
    tail: Seq<u8>,
)
    requires
        can_merge(world, entries),
        0 <= n <= entries.len(),
        disk[merged_id(world.state)] == merged_bytes(world.disk, entries, n) + tail,
        n == entries.len() || live(world).submap_of(contents(disk, base)),
    ensures
        live(world).submap_of(contents(disk, moved(base, merged_id(world.state), entries, n))),
        within(base, world.state.index) ==> contents(
            disk,
            moved(base, merged_id(world.state), entries, n),
        ) == live(world),
{
    let id = merged_id(world.state);
    let index = world.state.index;
    let after = moved(base, id, entries, n);
    let values = contents(disk, after);
    assert forall|key: Seq<u8>| #[trigger] live(world).contains_key(key) implies
        values.contains_key(key) && live(world)[key] == values[key] by {
        if n < entries.len() {
            assert(contents(disk, base).contains_key(key));
        }
        lemma_same_value(world, entries, base, disk, n, tail, key);
    }
    if within(base, index) {
        lemma_moved(base, id, entries, n);
        assert forall|key: Seq<u8>| values.contains_key(key) implies live(world).contains_key(
            key,
        ) by {
            assert(after.contains_key(key));
            if among(entries, n, key) {
                let i = choose|i: int| 0 <= i < n && (#[trigger] entries[i]).key@ == key;
                lemma_entry_placed(world, entries, i);
            } else {
                assert(base.contains_key(key));
            }
        }
        assert(values =~= live(world));
    }
}

/// The keys of one index are among those of another.
spec fn within(a: Index, b: Index) -> bool {
    forall|key: Seq<u8>| #[trigger] a.contains_key(key) ==> b.contains_key(key)
}

proof fn lemma_folded_within(a: Index, b: Index, id: u64, recs: Seq<Rec>)
    requires
        within(a, b),
    ensures
        within(folded(a, id, recs), folded(b, id, recs)),
    decreases recs.len(),
{
    if recs.len() > 0 {
        lemma_folded_within(a, b, id, recs.drop_last());
    }
}

proof fn lemma_rebuilt_within(a: Index, b: Index, disk: Disk, ids: Seq<u64>)
    requires
        within(a, b),
    ensures
        within(rebuilt(a, disk, ids), rebuilt(b, disk, ids)),
    decreases ids.len(),
{
    if ids.len() > 0 {
        lemma_rebuilt_within(a, b, disk, ids.drop_last());
        lemma_folded_within(
            rebuilt(a, disk, ids.drop_last()),
            rebuilt(b, disk, ids.drop_last()),
            ids.last(),
            scan(disk[ids.last()], 0),
        );
    }
}

/// Replaying only the later segments finds no key that replaying all does not find.
proof fn lemma_later_segments(disk: Disk, ids: Seq<u64>, r: int)
    requires
        0 <= r <= ids.len(),
    ensures
        within(
            rebuilt(Index::empty(), disk, ids.skip(r)),
            rebuilt(Index::empty(), disk, ids),
        ),
{
    let first = rebuilt(Index::empty(), disk, ids.take(r));
    lemma_rebuilt_add(Index::empty(), disk, ids.take(r), ids.skip(r));
    assert(ids.take(r) + ids.skip(r) =~= ids);
    lemma_rebuilt_within(Index::empty(), first, disk, ids.skip(r));
}

/// The files in the middle of a compaction: the first `r` old segments are deleted,
/// the merged segment holds `bytes`, and the next active segment is there or not.
pub open spec fn between(world: World, r: int, bytes: Seq<u8>, next: bool) -> Disk {
    let id = merged_id(world.state);
    let kept = world.disk.remove_keys(sorted(world.disk.dom()).take(r).to_set());
    if next {
        kept.insert(id, bytes).insert((id + 1) as u64, Seq::empty())
    } else {
        kept.insert(id, bytes)
    }
}

proof fn lemma_between(world: World, r: int, bytes: Seq<u8>, next: bool)
    requires
        in_step(world),
        world.state.last_id < u64::MAX - 1,
        0 <= r <= sorted(world.disk.dom()).len(),
    ensures
        ({
            let id = merged_id(world.state);
            let old_ids = sorted(world.disk.dom()).skip(r);
            let disk = between(world, r, bytes, next);
            &&& sorted(disk.dom()) == if next {
                old_ids + seq![id, (id + 1) as u64]
            } else {
                old_ids + seq![id]
            }
            &&& disk[id] == bytes
            &&& forall|i: int|
                0 <= i < old_ids.len() ==> disk[#[trigger] old_ids[i]] == world.disk[old_ids[i]]
            &&& r == 0 ==> forall|x: u64| #[trigger]
                world.disk.contains_key(x) ==> disk[x] == world.disk[x]
        }),
{
    let id = merged_id(world.state);
    let all = sorted(world.disk.dom());
    let gone = all.take(r);
    let old_ids = all.skip(r);
    let disk = between(world, r, bytes, next);
    lemma_sorted(world.disk.dom());
    let list = if next {
        old_ids + seq![id, (id + 1) as u64]
    } else {
        old_ids + seq![id]
    };
    assert forall|i: int| 0 <= i < all.len() implies world.disk.contains_key(#[trigger] all[i])
        && all[i] < id by {
        assert(all.to_set().contains(all[i]));
    }
    assert forall|i: int| 0 <= i < old_ids.len() implies !gone.contains(#[trigger] old_ids[i]) by {
        if gone.contains(old_ids[i]) {
            let j = choose|j: int| 0 <= j < gone.len() && gone[j] == old_ids[i];
            assert(all[j] == all[r + i]);
        }
    }
    assert(strictly_ascending(list)) by {
        assert forall|i: int, j: int| 0 <= i < j < list.len() implies list[i] < list[j] by {
            if j < old_ids.len() {
                assert(all[r + i] < all[r + j]);
            } else if i < old_ids.len() {
                assert(list[i] == all[r + i]);
            }
        }
    }
    assert(list.to_set() =~= disk.dom()) by {
        assert forall|x: u64| list.contains(x) <==> disk.contains_key(x) by {
            if list.contains(x) {
                let i = choose|i: int| 0 <= i < list.len() && list[i] == x;
                if i < old_ids.len() {
                    assert(x == old_ids[i] && x == all[r + i]);
                    assert(!gone.to_set().contains(x));
                }
            }
            if disk.contains_key(x) {
                if x == id {
                    assert(list[old_ids.len() as int] == x);
                } else if next && x == id + 1 {
                    assert(list[old_ids.len() as int + 1] == x);
                } else {
                    assert(world.disk.contains_key(x) && !gone.contains(x));
                    assert(all.to_set().contains(x));
                    let i = choose|i: int| 0 <= i < all.len() && all[i] == x;
                    if i < r {
                        assert(gone[i] == x);
                    }
                    assert(list[i - r] == x);
                }
            }
        }
    }
    lemma_sorted_is(list);
    assert forall|i: int| 0 <= i < old_ids.len() implies disk[#[trigger] old_ids[i]]
        == world.disk[old_ids[i]] by {
        assert(old_ids[i] == all[r + i]);
        assert(!gone.to_set().contains(old_ids[i]));
    }
    if r == 0 {
        assert(gone.to_set() =~= Set::empty());
    }
}

/// The index that replaying the old segments gives, without the first `r`.
spec fn without(world: World, r: int) -> Index {
    rebuilt(Index::empty(), world.disk, sorted(world.disk.dom()).skip(r))
}

/// The bytes behind the records of the first `n` keys play no part in a replay.
spec fn ignored(world: World, entries: Seq<Entry>, n: int, tail: Seq<u8>, r: int) -> bool {
    let bytes = merged_bytes(world.disk, entries, n);
    replayed(without(world, r), merged_id(world.state), bytes + tail) == replayed(
        without(world, r),
        merged_id(world.state),
        bytes,
    )
}

/// The index that opening a store gives, if the segments `old_ids` come before the
/// merged one.
proof fn lemma_replay_order(disk: Disk, old_ids: Seq<u64>, id: u64, next: bool)
    requires
        id < u64::MAX,
        next ==> disk[(id + 1) as u64] == Seq::<u8>::empty(),
    ensures
        ({
            let base = rebuilt(Index::empty(), disk, old_ids);
            let ids = if next {
                old_ids + seq![id, (id + 1) as u64]
            } else {
                old_ids + seq![id]
            };
            rebuilt(Index::empty(), disk, ids) == replayed(base, id, disk[id])
        }),
{
    let base = rebuilt(Index::empty(), disk, old_ids);
    lemma_rebuilt_push(Index::empty(), disk, old_ids, id);
    assert(old_ids.push(id) =~= old_ids + seq![id]);
    if next {
        lemma_rebuilt_push(Index::empty(), disk, old_ids.push(id), (id + 1) as u64);
        assert(old_ids.push(id).push((id + 1) as u64) =~= old_ids + seq![id, (id + 1) as u64]);
        lemma_empty_segment(replayed(base, id, disk[id]), (id + 1) as u64);
    }
}

/// The index that opening a store on the files in the middle of a compaction gives.
/// `tail` is what a copy that was cut off left behind.
proof fn lemma_between_index(
    world: World,
    entries: Seq<Entry>,
    n: int,
    tail: Seq<u8>,
    r: int,
    next: bool,
)
    requires
        can_merge(world, entries),
        0 <= n <= entries.len(),
        0 <= r <= sorted(world.disk.dom()).len(),
        ignored(world, entries, n, tail, r),
    ensures
        reopened(between(world, r, merged_bytes(world.disk, entries, n) + tail, next)) == moved(
            without(world, r),
            merged_id(world.state),
            entries,
            n,
        ),
{
    let id = merged_id(world.state);
    let bytes = merged_bytes(world.disk, entries, n) + tail;
    let disk = between(world, r, bytes, next);
    let old_ids = sorted(world.disk.dom()).skip(r);
    lemma_between(world, r, bytes, next);
    lemma_rebuilt_same(Index::empty(), disk, world.disk, old_ids);
    lemma_replay_order(disk, old_ids, id, next);
    lemma_merged(world, entries, without(world, r), n);
}

/// Opening a store on the files in the middle of a compaction gives every live key its
/// value.
proof fn lemma_between_values(
    world: World,
    entries: Seq<Entry>,
    n: int,
    tail: Seq<u8>,
    r: int,
    next: bool,
)
    requires
        can_merge(world, entries),
        live(world).submap_of(stored(world.disk)),
        0 <= n <= entries.len(),
        0 <= r <= sorted(world.disk.dom()).len(),
        r > 0 ==> n == entries.len(),
        ignored(world, entries, n, tail, r),
    ensures
        ({
            let disk = between(world, r, merged_bytes(world.disk, entries, n) + tail, next);
            &&& live(world).submap_of(stored(disk))
            &&& live(world) == stored(world.disk) ==> stored(disk) == live(world)
        }),
{
    let bytes = merged_bytes(world.disk, entries, n) + tail;
    let disk = between(world, r, bytes, next);
    let all = sorted(world.disk.dom());
    let base = without(world, r);
    lemma_between(world, r, bytes, next);
    lemma_between_index(world, entries, n, tail, r, next);
    lemma_later_segments(world.disk, all, r);
    if r == 0 {
        assert(all.skip(r) =~= all);
        lemma_reopened_placed(world.disk);
        assert forall|id: u64| #[trigger] world.disk.contains_key(id) implies disk.contains_key(id)
            && world.disk[id].is_prefix_of(disk[id]) by {
            assert(sorted(world.disk.dom()).take(0).to_set() =~= Set::empty());
            assert(disk[id] == world.disk[id]);
        }
        lemma_grown(world.disk, disk, reopened(world.disk));
        assert(contents(disk, base) == stored(world.disk));
    }
    lemma_same_values(world, entries, base, disk, n, tail);
    if live(world) == stored(world.disk) {
        assert forall|key: Seq<u8>| #[trigger] base.contains_key(key) implies
            world.state.index.contains_key(key) by {
            assert(reopened(world.disk).contains_key(key));
            assert(stored(world.disk).contains_key(key));
            assert(live(world).contains_key(key));
        }
    }
}

/// The memory in the middle of a compaction whose merged segment was created, and, where
/// `next`, the active segment behind it.
pub open spec fn copying(state: State, next: bool) -> State {
    let id = merged_id(state);
    if next {
        State {
            last_id: (id + 1) as u64,
            segments: state.segments.insert(id).insert((id + 1) as u64),
            ..state
        }
    } else {
        State { last_id: id, segments: state.segments.insert(id), ..state }
    }
}

/// The memory after a store moved over to the merged segment.
pub open spec fn switched(state: State, index: Index) -> State {
    let id = merged_id(state);
    State {
        active_id: (id + 1) as u64,
        active_len: 0,
        spent: false,
        readers: set![id, (id + 1) as u64],
        index,
        ..copying(state, true)
    }
}

/// The memory after segments were deleted.
pub open spec fn removed(state: State, ids: Set<u64>) -> State {
    State {
        segments: state.segments.difference(ids),
        readers: state.readers.difference(ids),
        ..state
    }
}

/// Files and memory after the first `n` values were copied.
pub proof fn lemma_copying(world: World, entries: Seq<Entry>, n: int)
    requires
        can_merge(world, entries),
        0 <= n <= entries.len(),
    ensures
        run(
            world,
            begin_moves(merged_id(world.state)) + copy_moves(
                world.disk,
                merged_id(world.state),
                entries,
                n,
            ),
        ) == (World {
            disk: between(world, 0, merged_bytes(world.disk, entries, n), false),
            state: copying(world.state, false),
        }),
    decreases n,
{
    let id = merged_id(world.state);
    let bytes = merged_bytes(world.disk, entries, n);
    let copies = copy_moves(world.disk, id, entries, n);
    let none = sorted(world.disk.dom()).take(0).to_set();
    assert(none =~= Set::empty());
    assert(world.disk.remove_keys(none) =~= world.disk);
    assert(!world.disk.contains_key(id));
    if n == 0 {
        assert(begin_moves(id) + copies =~= begin_moves(id));
        lemma_run_one(world, begin_moves(id)[0]);
    } else {
        let before = copy_moves(world.disk, id, entries, n - 1);
        let last = copy_move(id, entries[n - 1].key@, value_at(world.disk, entries[n - 1].loc));
        lemma_copying(world, entries, n - 1);
        assert((begin_moves(id) + copies).drop_last() =~= begin_moves(id) + before);
        assert((begin_moves(id) + copies).last() == last);
        assert(between(world, 0, merged_bytes(world.disk, entries, n - 1), false).insert(id, bytes)
            =~= between(world, 0, bytes, false));
    }
}

/// Files and memory after the first `s` steps that seal the merged segment.
pub proof fn lemma_sealing(world: World, bytes: Seq<u8>, s: int)
    requires
        in_step(world),
        world.state.last_id < u64::MAX - 1,
        0 <= s <= 3,
    ensures
        run(
            World { disk: between(world, 0, bytes, false), state: copying(world.state, false) },
            seal_moves(merged_id(world.state)).take(s),
        ) == (World {
            disk: between(world, 0, bytes, s >= 2),
            state: copying(world.state, s >= 2),
        }),
    decreases s,
{
    let id = merged_id(world.state);
    let steps = seal_moves(id);
    let none = sorted(world.disk.dom()).take(0).to_set();
    assert(none =~= Set::empty());
    assert(world.disk.remove_keys(none) =~= world.disk);
    assert(!world.disk.contains_key((id + 1) as u64));
    if s > 0 {
        lemma_sealing(world, bytes, s - 1);
        assert(steps.take(s).drop_last() =~= steps.take(s - 1));
        assert(steps.take(s).last() == steps[s - 1]);
    } else {
        assert(steps.take(0) =~= Seq::empty());
    }
}

/// Files and memory after the first `s` steps by which the store moves over to the merged
/// segment.
pub proof fn lemma_switching(world: World, disk: Disk, index: Index, s: int)
    requires
        world.state.last_id < u64::MAX - 1,
        0 <= s <= 3,
    ensures
        ({
            let id = merged_id(world.state);
            let from = World { disk, state: copying(world.state, true) };
            let after = run(from, switch_moves(id, index).take(s));
            &&& after.disk == disk
            &&& s < 3 ==> after.state == (State {
                readers: if s == 0 {
                    world.state.readers
                } else if s == 1 {
                    Set::empty()
                } else {
                    set![id]
                },
                ..from.state
            })
            &&& s == 3 ==> after.state == switched(world.state, index)
        }),
    decreases s,
{
    let id = merged_id(world.state);
    let steps = switch_moves(id, index);
    if s > 0 {
        lemma_switching(world, disk, index, s - 1);
        assert(steps.take(s).drop_last() =~= steps.take(s - 1));
        assert(steps.take(s).last() == steps[s - 1]);
        assert(Set::<u64>::empty().insert(id) =~= set![id]);
        assert(set![id].insert((id + 1) as u64) =~= set![id, (id + 1) as u64]);
    } else {
        assert(steps.take(0) =~= Seq::empty());
    }
}

/// Files and memory after the first `r` old segments were deleted.
pub proof fn lemma_removing(world: World, bytes: Seq<u8>, state: State, r: int)
    requires
        in_step(world),
        world.state.last_id < u64::MAX - 1,
        0 <= r <= sorted(world.disk.dom()).len(),
    ensures
        run(
            World { disk: between(world, 0, bytes, true), state },
            remove_moves(sorted(world.disk.dom())).take(r),
        ) == (World {
            disk: between(world, r, bytes, true),
            state: removed(state, sorted(world.disk.dom()).take(r).to_set()),
        }),
    decreases r,
{
    let id = merged_id(world.state);
    let all = sorted(world.disk.dom());
    let steps = remove_moves(all);
    if r > 0 {
        lemma_removing(world, bytes, state, r - 1);
        assert(steps.take(r).drop_last() =~= steps.take(r - 1));
        assert(steps.take(r).last() == steps[r - 1]);
        lemma_sorted(world.disk.dom());
        assert(all.to_set().contains(all[r - 1]));
        assert(world.disk.contains_key(all[r - 1]));
        let less = all.take(r - 1);
        let more = all.take(r);
        assert(more.to_set() =~= less.to_set().insert(all[r - 1])) by {
            assert forall|x: u64| more.contains(x) <==> less.contains(x) || x == all[r - 1] by {
                if less.contains(x) {
                    let i = choose|i: int| 0 <= i < less.len() && less[i] == x;
                    assert(more[i] == x);
                }
                if more.contains(x) {
                    let i = choose|i: int| 0 <= i < more.len() && more[i] == x;
                    if i < r - 1 {
                        assert(less[i] == x);
                    }
                }
                assert(more[r - 1] == all[r - 1]);
            }
        }
        assert(between(world, r - 1, bytes, true).remove(all[r - 1]) =~= between(
            world,
            r,
            bytes,
            true,
        ));
        let before = removed(state, less.to_set());
        let after = removed(state, more.to_set());
        assert(before.segments.remove(all[r - 1]) =~= after.segments);
        assert(before.readers.remove(all[r - 1]) =~= after.readers);
    } else {
        assert(steps.take(0) =~= Seq::empty());
        assert(all.take(0).to_set() =~= Set::empty());
        assert(state.segments.difference(Set::empty()) =~= state.segments);
        assert(state.readers.difference(Set::empty()) =~= state.readers);
    }
}

/// The segments in the middle of a compaction.
pub proof fn lemma_between_dom(world: World, r: int, bytes: Seq<u8>, next: bool)
    requires
        in_step(world),
        world.state.last_id < u64::MAX - 1,
        0 <= r <= sorted(world.disk.dom()).len(),
    ensures
        ({
            let id = merged_id(world.state);
            let gone = sorted(world.disk.dom()).take(r).to_set();
            let disk = between(world, r, bytes, next);
            &&& disk.dom() == copying(world.state, next).segments.difference(gone)
            &&& disk.contains_key(id)
            &&& disk[id] == bytes
            &&& next ==> disk.contains_key((id + 1) as u64) && disk[(id + 1) as u64] == Seq::<
                u8,
            >::empty()
            &&& !gone.contains(id) && !gone.contains((id + 1) as u64)
            &&& forall|x: u64| #[trigger]
                disk.contains_key(x) ==> x <= copying(world.state, next).last_id
            &&& bytes.len() <= u64::MAX ==> sized(disk)
        }),
{
    let id = merged_id(world.state);
    let all = sorted(world.disk.dom());
    let gone = all.take(r).to_set();
    let disk = between(world, r, bytes, next);
    lemma_sorted(world.disk.dom());
    assert forall|x: u64| gone.contains(x) implies world.disk.contains_key(x) by {
        let part = all.take(r);
        let i = choose|i: int| 0 <= i < part.len() && part[i] == x;
        assert(all.to_set().contains(all[i]));
    }
    assert(disk.dom() =~= copying(world.state, next).segments.difference(gone));
    assert(disk.dom().finite()) by {
        assert(world.disk.dom().insert(id).insert((id + 1) as u64).finite());
        assert(disk.dom().subset_of(world.disk.dom().insert(id).insert((id + 1) as u64)));
        vstd::set_lib::lemma_set_subset_finite(
            world.disk.dom().insert(id).insert((id + 1) as u64),
            disk.dom(),
        );
    }
    if bytes.len() <= u64::MAX {
        assert forall|x: u64| #[trigger] disk.contains_key(x) implies disk[x].len()
            <= u64::MAX by {
            if x != id && !(next && x == id + 1) {
                assert(world.disk.contains_key(x));
            }
        }
    }
}

/// As long as the store did not move over, it has its values, whatever was copied.
proof fn lemma_before_switch(
    world: World,
    entries: Seq<Entry>,
    n: int,
    tail: Seq<u8>,
    next: bool,
    readers: Set<u64>,
)
    requires
        can_merge(world, entries),
        live(world).submap_of(stored(world.disk)),
        0 <= n <= entries.len(),
        ignored(world, entries, n, tail, 0),
        (merged_bytes(world.disk, entries, n) + tail).len() <= u64::MAX,
        readers.subset_of(world.disk.dom().insert(merged_id(world.state))),
    ensures
        ({
            let after = World {
                disk: between(world, 0, merged_bytes(world.disk, entries, n) + tail, next),
                state: State { readers, ..copying(world.state, next) },
            };
            &&& kept(after)
            &&& live(after) == live(world)
            &&& live(world) == stored(world.disk) ==> durable(after)
        }),
{
    let bytes = merged_bytes(world.disk, entries, n) + tail;
    let disk = between(world, 0, bytes, next);
    let gone = sorted(world.disk.dom()).take(0).to_set();
    assert(gone =~= Set::empty());
    lemma_between_dom(world, 0, bytes, next);
    lemma_between_values(world, entries, n, tail, 0, next);
    assert(copying(world.state, next).segments.difference(gone) =~= copying(
        world.state,
        next,
    ).segments);
    assert forall|id: u64| #[trigger] world.disk.contains_key(id) implies disk.contains_key(id)
        && world.disk[id].is_prefix_of(disk[id]) by {
        assert(disk[id] == world.disk[id]);
    }
    lemma_grown(world.disk, disk, world.state.index);
}

/// Once the store moved over to the merged segment, it has its values, whichever of the
/// first old segments are deleted.
proof fn lemma_after_switch(world: World, entries: Seq<Entry>, r: int)
    requires
        can_merge(world, entries),
        live(world).submap_of(stored(world.disk)),
        0 <= r <= sorted(world.disk.dom()).len(),
    ensures
        ({
            let n = entries.len() as int;
            let index = merged_index(merged_id(world.state), entries, n);
            let after = World {
                disk: between(world, r, merged_bytes(world.disk, entries, n), true),
                state: removed(
                    switched(world.state, index),
                    sorted(world.disk.dom()).take(r).to_set(),
                ),
            };
            &&& kept(after)
            &&& live(after) == live(world)
            &&& live(world) == stored(world.disk) ==> durable(after)
        }),
{
    let id = merged_id(world.state);
    let n = entries.len() as int;
    let bytes = merged_bytes(world.disk, entries, n);
    let index = merged_index(id, entries, n);
    let disk = between(world, r, bytes, true);
    let gone = sorted(world.disk.dom()).take(r).to_set();
    assert(bytes + Seq::empty() =~= bytes);
    lemma_merged(world, entries, Index::empty(), n);
    lemma_between_dom(world, r, bytes, true);
    lemma_between_values(world, entries, n, Seq::empty(), r, true);
    lemma_merged_placed(world, entries, disk);
    lemma_merged_index(id, entries, n);
    lemma_same_values(world, entries, Index::empty(), disk, n, Seq::empty());
    lemma_empty_segment(Index::empty(), (id + 1) as u64);
    assert(set![id, (id + 1) as u64].difference(gone) =~= set![id, (id + 1) as u64]);
}

/// Every value lies within the merged segment.
proof fn lemma_merged_placed(world: World, entries: Seq<Entry>, disk: Disk)
    requires
        can_merge(world, entries),
        disk.contains_key(merged_id(world.state)),
        disk[merged_id(world.state)] == merged_bytes(world.disk, entries, entries.len() as int),
    ensures
        all_placed(disk, merged_index(merged_id(world.state), entries, entries.len() as int)),
{
    let id = merged_id(world.state);
    let n = entries.len() as int;
    let index = merged_index(id, entries, n);
    lemma_merged_index(id, entries, n);
    lemma_moved(Index::empty(), id, entries, n);
    assert forall|key: Seq<u8>| #[trigger] index.contains_key(key) implies key.len() <= MAX_KV
        && placed(disk, index[key]) by {
        assert(among(entries, n, key));
        let i = choose|i: int| 0 <= i < n && (#[trigger] entries[i]).key@ == key;
        lemma_entry_placed(world, entries, i);
        lemma_merged_value(world, entries, n, i);
        lemma_pos_grows(entries, i + 1, n);
        lemma_pos_grows(entries, 0, i);
        assert(index[key] == merged_loc(id, entries, i));
    }
}

/// Files and memory where a compaction broke off.
spec fn stopped(world: World, entries: Seq<Entry>, done: int, torn: int) -> World {
    broken_off(world, compact_moves(world, entries), done, torn)
}

/// The store has its values, and so have the files; where these held nothing else, they
/// still do not.
spec fn intact(world: World, after: World) -> bool {
    &&& kept(after)
    &&& live(after) == live(world)
    &&& live(world) == stored(world.disk) ==> durable(after)
}

/// A compaction that breaks off after `i` copies and `torn` bytes of the next one.
proof fn lemma_stopped_in_copy(world: World, entries: Seq<Entry>, i: int, torn: int)
    requires
        kept(world),
        can_merge(world, entries),
        0 <= i < entries.len(),
        can_crash(compact_moves(world, entries), i + 1, torn),
    ensures
        intact(world, stopped(world, entries, i + 1, torn)),
{
    let id = merged_id(world.state);
    let steps = compact_moves(world, entries);
    let key = entries[i].key@;
    let val = value_at(world.disk, entries[i].loc);
    let before = merged_bytes(world.disk, entries, i);
    let tail = encoded(key, Some(val)).take(torn);
    let after = stopped(world, entries, i + 1, torn);
    assert(steps.take(i + 1) =~= begin_moves(id) + copy_moves(world.disk, id, entries, i));
    assert(steps[i + 1] == copy_move(id, key, val));
    lemma_copying(world, entries, i);
    assert(after.disk =~= between(world, 0, before + tail, false));
    lemma_torn_copy(world, entries, i, torn, world.state.readers);
}

/// A compaction that breaks off after `s` of the steps that seal the merged segment.
#[verifier::rlimit(40)]
proof fn lemma_stopped_in_seal(world: World, entries: Seq<Entry>, s: int, torn: int)
    requires
        kept(world),
        can_merge(world, entries),
        0 <= s <= 3,
    ensures
        intact(world, stopped(world, entries, entries.len() + 1 + s, torn)),
        run(world, compact_moves(world, entries).take(entries.len() + 1 + s)) == (World {
            disk: between(
                world,
                0,
                merged_bytes(world.disk, entries, entries.len() as int),
                s >= 2,
            ),
            state: copying(world.state, s >= 2),
        }),
{
    let id = merged_id(world.state);
    let n = entries.len() as int;
    let steps = compact_moves(world, entries);
    let bytes = merged_bytes(world.disk, entries, n);
    let begun = begin_moves(id) + copy_moves(world.disk, id, entries, n);
    lemma_copying(world, entries, n);
    assert(steps.take(n + 1 + s) =~= begun + seal_moves(id).take(s));
    lemma_run_add(world, begun, seal_moves(id).take(s));
    lemma_sealing(world, bytes, s);
    lemma_merged(world, entries, Index::empty(), n);
    assert(bytes + Seq::empty() =~= bytes);
    lemma_before_switch(world, entries, n, Seq::empty(), s >= 2, world.state.readers);
    assert(!(steps[n + 1 + s].act is Append));
}

/// A compaction that breaks off after `s` of the steps by which the store moves over.
proof fn lemma_stopped_in_switch(world: World, entries: Seq<Entry>, s: int, torn: int)
    requires
        kept(world),
        can_merge(world, entries),
        0 <= s <= 3,
    ensures
        intact(world, stopped(world, entries, entries.len() + 4 + s, torn)),
        s == 3 ==> run(world, compact_moves(world, entries).take(entries.len() + 4 + s)) == (World {
            disk: between(world, 0, merged_bytes(world.disk, entries, entries.len() as int), true),
            state: switched(
                world.state,
                merged_index(merged_id(world.state), entries, entries.len() as int),
            ),
        }),
{
    let id = merged_id(world.state);
    let n = entries.len() as int;
    let steps = compact_moves(world, entries);
    let bytes = merged_bytes(world.disk, entries, n);
    let index = merged_index(id, entries, n);
    let disk = between(world, 0, bytes, true);
    let none = sorted(world.disk.dom()).take(0).to_set();
    lemma_stopped_in_seal(world, entries, 3, torn);
    assert(steps.take(n + 4 + s) =~= steps.take(n + 4) + switch_moves(id, index).take(s));
    lemma_run_add(world, steps.take(n + 4), switch_moves(id, index).take(s));
    lemma_switching(world, disk, index, s);
    lemma_merged(world, entries, Index::empty(), n);
    assert(bytes + Seq::empty() =~= bytes);
    assert(!(steps[n + 4 + s].act is Append));
    if s < 3 {
        let readers = run(world, steps.take(n + 4 + s)).state.readers;
        lemma_before_switch(world, entries, n, Seq::empty(), true, readers);
    } else {
        lemma_after_switch(world, entries, 0);
        assert(none =~= Set::empty());
        let state = switched(world.state, index);
        assert(state.segments.difference(none) =~= state.segments);
        assert(state.readers.difference(none) =~= state.readers);
    }
}

/// A compaction that breaks off after `r` old segments were deleted.
proof fn lemma_stopped_in_removal(world: World, entries: Seq<Entry>, r: int, torn: int)
    requires
        kept(world),
        can_merge(world, entries),
        0 <= r <= sorted(world.disk.dom()).len(),
    ensures
        intact(world, stopped(world, entries, entries.len() + 7 + r, torn)),
        run(world, compact_moves(world, entries).take(entries.len() + 7 + r)) == (World {
            disk: between(world, r, merged_bytes(world.disk, entries, entries.len() as int), true),
            state: removed(
                switched(
                    world.state,
                    merged_index(merged_id(world.state), entries, entries.len() as int),
                ),
                sorted(world.disk.dom()).take(r).to_set(),
            ),
        }),
{
    let id = merged_id(world.state);
    let n = entries.len() as int;
    let steps = compact_moves(world, entries);
    let bytes = merged_bytes(world.disk, entries, n);
    let index = merged_index(id, entries, n);
    let all = sorted(world.disk.dom());
    lemma_stopped_in_switch(world, entries, 3, torn);
    assert(steps.take(n + 7 + r) =~= steps.take(n + 7) + remove_moves(all).take(r));
    lemma_run_add(world, steps.take(n + 7), remove_moves(all).take(r));
    lemma_removing(world, bytes, switched(world.state, index), r);
    lemma_after_switch(world, entries, r);
    assert(!(steps[n + 7 + r].act is Append));
}

/// Wherever a compaction breaks off.
proof fn lemma_stopped(world: World, entries: Seq<Entry>, done: int, torn: int)
    requires
        kept(world),
        can_merge(world, entries),
        can_crash(compact_moves(world, entries), done, torn),
    ensures
        intact(world, stopped(world, entries, done, torn)),
{
    let n = entries.len() as int;
    let k = sorted(world.disk.dom()).len() as int;
    let steps = compact_moves(world, entries);
    if done == 0 {
        assert(steps.take(0) =~= Seq::empty());
        assert(run(world, Seq::empty()) == world);
    } else if done <= n {
        lemma_stopped_in_copy(world, entries, done - 1, torn);
    } else if done <= n + 4 {
        lemma_stopped_in_seal(world, entries, done - n - 1, torn);
    } else if done <= n + 7 {
        lemma_stopped_in_switch(world, entries, done - n - 4, torn);
    } else if done <= n + 7 + k {
        lemma_stopped_in_removal(world, entries, done - n - 7, torn);
    } else {
        lemma_stopped_in_removal(world, entries, k, torn);
        assert(steps.take(done) =~= steps.take(n + 7 + k) + settle_moves());
        lemma_run_add(world, steps.take(n + 7 + k), settle_moves());
        lemma_run_one(run(world, steps.take(n + 7 + k)), settle_moves()[0]);
        assert(settle_moves() =~= seq![settle_moves()[0]]);
    }
}

/// Wherever a crash interrupts a compaction, opening the store again gives every key
/// its value, and, where it gave no other key before, no other key.
pub proof fn law_crash_during_compaction(
    world: World,
    entries: Seq<Entry>,
    done: int,
    torn: int,
)
    requires
        kept(world),
        can_merge(world, entries),
        can_crash(compact_moves(world, entries), done, torn),
    ensures
        ({
            let disk = crashed(world, compact_moves(world, entries), done, torn);
            &&& live(world).submap_of(stored(disk))
            &&& durable(world) ==> stored(disk) == live(world)
        }),
{
    lemma_stopped(world, entries, done, torn);
}

/// Wherever a compaction fails, be it that a value cannot be copied or a later step
/// cannot be taken, the store goes on with all of its values, and what is written to it
/// from then on is found again.
pub proof fn law_failed_compaction(world: World, entries: Seq<Entry>, done: int, torn: int)
    requires
        kept(world),
        can_merge(world, entries),
        can_crash(compact_moves(world, entries), done, torn),
    ensures
        ({
            let after = broken_off(world, compact_moves(world, entries), done, torn);
            &&& kept(after)
            &&& live(after) == live(world)
            &&& durable(world) ==> durable(after)
        }),
{
    lemma_stopped(world, entries, done, torn);
}

/// Compaction keeps the value of every key. It leaves one segment with exactly one
/// record for each live key, and an empty active segment; overwritten values and
/// deletions take no more space. Opening the store on these files finds what the
/// store itself holds.
pub proof fn law_compaction_keeps_values(world: World, entries: Seq<Entry>)
    requires
        can_merge(world, entries),
    ensures
        ({
            let after = run(world, compact_moves(world, entries));
            let id = merged_id(world.state);
            &&& durable(after)
            &&& live(after) == live(world)
            &&& after.disk.dom() == set![id, (id + 1) as u64]
            &&& after.disk[id] == merged_bytes(world.disk, entries, entries.len() as int)
            &&& after.disk[(id + 1) as u64] == Seq::<u8>::empty()
            &&& all_open(after)
            &&& after.state.active_id == id + 1
            &&& after.state.seg_cap == world.state.seg_cap
            &&& after.state.sync_writes == world.state.sync_writes
        }),
{
    let id = merged_id(world.state);
    let n = entries.len() as int;
    let k = sorted(world.disk.dom()).len() as int;
    let bytes = merged_bytes(world.disk, entries, n);
    let index = merged_index(id, entries, n);
    let after = run(world, compact_moves(world, entries));
    lemma_compacted(world, entries);
    lemma_compacted_disk(world, bytes);
    lemma_merged(world, entries, Index::empty(), n);
    lemma_merged_index(id, entries, n);
    assert(bytes + Seq::empty() =~= bytes);
    assert(sorted(world.disk.dom()).skip(k) =~= Seq::empty());
    lemma_between_index(world, entries, n, Seq::empty(), k, true);
    lemma_same_values(world, entries, Index::empty(), after.disk, n, Seq::empty());
    lemma_empty_segment(Index::empty(), (id + 1) as u64);
    lemma_merged_placed(world, entries, after.disk);
    lemma_between_dom(world, k, bytes, true);
    let gone = sorted(world.disk.dom()).take(k).to_set();
    assert(set![id, (id + 1) as u64].difference(gone) =~= set![id, (id + 1) as u64]);
}

/// Files and memory after a compaction.
#[verifier::rlimit(40)]
proof fn lemma_compacted(world: World, entries: Seq<Entry>)
    requires
        can_merge(world, entries),
    ensures
        ({
            let id = merged_id(world.state);
            let n = entries.len() as int;
            let all = sorted(world.disk.dom());
            run(world, compact_moves(world, entries)) == (World {
                disk: between(world, all.len() as int, merged_bytes(world.disk, entries, n), true),
                state: removed(
                    switched(world.state, merged_index(id, entries, n)),
                    all.take(all.len() as int).to_set(),
                ),
            })
        }),
{
    let id = merged_id(world.state);
    let n = entries.len() as int;
    let all = sorted(world.disk.dom());
    let k = all.len() as int;
    let bytes = merged_bytes(world.disk, entries, n);
    let index = merged_index(id, entries, n);
    let begun = begin_moves(id) + copy_moves(world.disk, id, entries, n);
    let state = switched(world.state, index);
    let w1 = World { disk: between(world, 0, bytes, false), state: copying(world.state, false) };
    let w2 = World { disk: between(world, 0, bytes, true), state: copying(world.state, true) };
    let w3 = World { disk: between(world, 0, bytes, true), state };
    let w4 = World {
        disk: between(world, k, bytes, true),
        state: removed(state, all.take(k).to_set()),
    };
    let seal = seal_moves(id);
    let switch = switch_moves(id, index);
    let remove = remove_moves(all);
    lemma_copying(world, entries, n);
    lemma_run_add(world, begun, seal + switch + remove + settle_moves());
    lemma_run_add(w1, seal + switch + remove, settle_moves());
    lemma_run_add(w1, seal + switch, remove);
    lemma_run_add(w1, seal, switch);
    lemma_sealing(world, bytes, 3);
    assert(seal.take(3) =~= seal);
    lemma_switching(world, between(world, 0, bytes, true), index, 3);
    assert(switch.take(3) =~= switch);
    lemma_removing(world, bytes, state, k);
    assert(remove.take(k) =~= remove);
    lemma_run_one(w4, settle_moves()[0]);
    assert(settle_moves() =~= seq![settle_moves()[0]]);
}

/// The segments that are left after a compaction.
proof fn lemma_compacted_disk(world: World, bytes: Seq<u8>)
    requires
        in_step(world),
        world.state.last_id < u64::MAX - 1,
    ensures
        ({
            let id = merged_id(world.state);
            let disk = between(world, sorted(world.disk.dom()).len() as int, bytes, true);
            &&& disk.dom() == set![id, (id + 1) as u64]
            &&& disk[id] == bytes
            &&& disk[(id + 1) as u64] == Seq::<u8>::empty()
        }),
{
    let id = merged_id(world.state);
    let all = sorted(world.disk.dom());
    lemma_sorted(world.disk.dom());
    assert(all.take(all.len() as int) =~= all);
    assert(between(world, all.len() as int, bytes, true).dom() =~= set![id, (id + 1) as u64]);
}

/// Before the first old segment is deleted, the merged segment, with every copy in it,
/// has been brought to stable storage, and then the directory's entry for it.
pub proof fn law_compaction_syncs_before_removing(world: World, entries: Seq<Entry>)
    requires
        can_merge(world, entries),
    ensures
        ({
            let steps = compact_moves(world, entries);
            let at = entries.len() as int + 1;
            &&& steps[at].act == (Act::Sync { id: merged_id(world.state) })
            &&& steps[at + 2].act == Act::SyncDir
            &&& forall|i: int|
                0 <= i < steps.len() && (#[trigger] steps[i]).act is Append ==> i < at
                    && steps[i].act->Append_id == merged_id(world.state)
            &&& forall|i: int|
                0 <= i < steps.len() && (#[trigger] steps[i]).act is Remove ==> at + 2 < i
        }),
{
}

/// The steps of a compaction of which only the deletions of `gone` succeeded.
pub open spec fn partial_moves(world: World, entries: Seq<Entry>, gone: Seq<u64>) -> Seq<Move> {
    let id = merged_id(world.state);
    let n = entries.len() as int;
    begin_moves(id) + copy_moves(world.disk, id, entries, n) + finish_moves(
        id,
        gone,
        merged_index(id, entries, n),
    )
}

/// Old segments that cannot be deleted change no value: the store reads the merged
/// segment alone, and opening it again gives every live key its value, since the merged
/// segment comes last.
pub proof fn law_failed_removals_change_no_value(
    world: World,
    entries: Seq<Entry>,
    gone: Seq<u64>,
)
    requires
        can_merge(world, entries),
        forall|i: int| 0 <= i < gone.len() ==> world.disk.contains_key(#[trigger] gone[i]),
    ensures
        ({
            let after = run(world, partial_moves(world, entries, gone));
            &&& kept(after)
            &&& live(after) == live(world)
        }),
{
    let id = merged_id(world.state);
    let n = entries.len() as int;
    let bytes = merged_bytes(world.disk, entries, n);
    let index = merged_index(id, entries, n);
    let begun = begin_moves(id) + copy_moves(world.disk, id, entries, n);
    let disk = between(world, 0, bytes, true);
    let w1 = World { disk: between(world, 0, bytes, false), state: copying(world.state, false) };
    let w3 = World { disk, state: switched(world.state, index) };
    let seal = seal_moves(id);
    let switch = switch_moves(id, index);
    let remove = remove_moves(gone);
    let w4 = run(w3, remove);
    lemma_copying(world, entries, n);
    lemma_run_add(world, begun, seal + switch + remove + settle_moves());
    lemma_run_add(w1, seal + switch + remove, settle_moves());
    lemma_run_add(w1, seal + switch, remove);
    lemma_run_add(w1, seal, switch);
    lemma_sealing(world, bytes, 3);
    assert(seal.take(3) =~= seal);
    lemma_switching(world, disk, index, 3);
    assert(switch.take(3) =~= switch);
    lemma_run_one(w4, settle_moves()[0]);
    assert(settle_moves() =~= seq![settle_moves()[0]]);
    lemma_merged(world, entries, Index::empty(), n);
    lemma_between_dom(world, 0, bytes, true);
    let none = sorted(world.disk.dom()).take(0).to_set();
    assert(none =~= Set::empty());
    assert(copying(world.state, true).segments.difference(none) =~= w3.state.segments);
    lemma_kept(world, w3, gone);
    lemma_merged_index(id, entries, n);
    assert(bytes + Seq::empty() =~= bytes);
    lemma_same_values(world, entries, Index::empty(), w4.disk, n, Seq::empty());
    lemma_merged_placed(world, entries, w4.disk);
    lemma_empty_segment(Index::empty(), (id + 1) as u64);
    lemma_merged_last(world, entries, w4.disk);
}

/// Whatever old segments there are before the merged one, opening a store gives every live
/// key its value.
pub proof fn lemma_merged_last(world: World, entries: Seq<Entry>, disk: Disk)
    requires
        can_merge(world, entries),
        disk.dom().finite(),
        ({
            let id = merged_id(world.state);
            &&& disk.contains_key(id)
            &&& disk[id] == merged_bytes(world.disk, entries, entries.len() as int)
            &&& forall|x: u64| #[trigger] disk.contains_key(x) ==> x <= id + 1
            &&& disk.contains_key((id + 1) as u64) ==> disk[(id + 1) as u64] == Seq::<u8>::empty()
        }),
    ensures
        live(world).submap_of(stored(disk)),
{
    let id = merged_id(world.state);
    let next = (id + 1) as u64;
    let n = entries.len() as int;
    let ids = disk.dom().remove(next);
    let others = sorted(ids.remove(id));
    let base = rebuilt(Index::empty(), disk, others);
    let bytes = merged_bytes(world.disk, entries, n);
    lemma_sorted_last(ids, id);
    lemma_rebuilt_push(Index::empty(), disk, others, id);
    if disk.contains_key(next) {
        lemma_sorted_last(disk.dom(), next);
        lemma_rebuilt_push(Index::empty(), disk, sorted(ids), next);
        lemma_empty_segment(replayed(base, id, bytes), next);
    } else {
        assert(ids =~= disk.dom());
    }
    lemma_merged(world, entries, base, n);
    assert(bytes + Seq::empty() =~= bytes);
    lemma_same_values(world, entries, base, disk, n, Seq::empty());
}

/// Deleting old segments leaves the merged segment as it is.
proof fn lemma_kept(world: World, from: World, gone: Seq<u64>)
    requires
        in_step(world),
        world.state.last_id < u64::MAX - 1,
        forall|i: int| 0 <= i < gone.len() ==> world.disk.contains_key(#[trigger] gone[i]),
        from.disk.contains_key(merged_id(world.state)),
        from.disk.contains_key((merged_id(world.state) + 1) as u64),
        from.state.segments == from.disk.dom(),
        from.state.readers == set![
            merged_id(world.state),
            (merged_id(world.state) + 1) as u64,
        ],
        sized(from.disk),
    ensures
        ({
            let id = merged_id(world.state);
            let next = (id + 1) as u64;
            let after = run(from, remove_moves(gone));
            &&& after.state == (State { segments: after.disk.dom(), ..from.state })
            &&& after.disk.dom().subset_of(from.disk.dom())
            &&& sized(after.disk)
            &&& after.disk.contains_key(id) && after.disk[id] == from.disk[id]
            &&& after.disk.contains_key(next) && after.disk[next] == from.disk[next]
        }),
    decreases gone.len(),
{
    let id = merged_id(world.state);
    let next = (id + 1) as u64;
    let steps = remove_moves(gone);
    if gone.len() > 0 {
        let fewer = gone.drop_last();
        assert forall|i: int| 0 <= i < fewer.len() implies world.disk.contains_key(
            #[trigger] fewer[i],
        ) by {
            assert(world.disk.contains_key(gone[i]));
        }
        lemma_kept(world, from, fewer);
        assert(steps.drop_last() =~= remove_moves(fewer));
        let x = gone[gone.len() - 1];
        assert(world.disk.contains_key(x));
        let before = run(from, remove_moves(fewer));
        let after = run(from, steps);
        assert(after == stepped(before, steps.last()));
        assert(after.disk =~= before.disk.remove(x));
        assert(set![id, next].remove(x) =~= set![id, next]);
        assert(after.state.segments =~= after.disk.dom());
        assert forall|y: u64| #[trigger] after.disk.contains_key(y) implies after.disk[y].len()
            <= u64::MAX by {
            assert(before.disk.contains_key(y));
        }
    }
}

/// The steps that open segments for reading.
pub open spec fn opening_moves(ids: Seq<u64>) -> Seq<Move> {
    ids.map_values(|id: u64| Move { act: Act::OpenReader { id }, eff: Eff::Reading { id } })
}

/// The steps that copy the first `n` values, where the segments `opens[i]` are opened for
/// reading before the `i`th is copied.
pub open spec fn mixed_copies(
    disk: Disk,
    id: u64,
    entries: Seq<Entry>,
    opens: Seq<Seq<u64>>,
    n: int,
) -> Seq<Move>
    decreases n,
{
    if n <= 0 {
        Seq::empty()
    } else {
        mixed_copies(disk, id, entries, opens, n - 1) + opening_moves(opens[n - 1]) + seq![
            copy_move(id, entries[n - 1].key@, value_at(disk, entries[n - 1].loc)),
        ]
    }
}

/// The steps of a compaction that opens segments for reading between its copies.
pub open spec fn mixed_moves(world: World, entries: Seq<Entry>, opens: Seq<Seq<u64>>) -> Seq<Move> {
    let id = merged_id(world.state);
    let n = entries.len() as int;
    begin_moves(id) + mixed_copies(world.disk, id, entries, opens, n) + finish_moves(
        id,
        sorted(world.state.segments),
        merged_index(id, entries, n),
    )
}

/// The same files and memory, but for the segments that are open for reading.
pub open spec fn reading(world: World, readers: Set<u64>) -> World {
    World { disk: world.disk, state: State { readers, ..world.state } }
}

/// Opening a segment for reading, where a read needs it, changes no file and no value.
pub proof fn law_opening_changes_nothing(world: World, id: u64)
    requires
        in_step(world),
        world.disk.contains_key(id),
    ensures
        ({
            let after = run(world, open_moves(world.state, id));
            &&& after == reading(world, world.state.readers.insert(id))
            &&& in_step(after)
            &&& live(after) == live(world)
            &&& kept(world) ==> kept(after)
            &&& durable(world) ==> durable(after)
        }),
{
    let steps = open_moves(world.state, id);
    if world.state.readers.contains(id) {
        assert(steps =~= Seq::empty());
        assert(world.state.readers.insert(id) =~= world.state.readers);
    } else {
        lemma_run_one(world, steps[0]);
    }
}

/// Opening several segments for reading.
pub proof fn lemma_opening(world: World, ids: Seq<u64>)
    ensures
        run(world, opening_moves(ids)) == reading(
            world,
            run(world, opening_moves(ids)).state.readers,
        ),
        forall|all: Set<u64>| #[trigger]
            world.state.readers.subset_of(all) && (forall|i: int|
                0 <= i < ids.len() ==> all.contains(#[trigger] ids[i])) ==> run(
                world,
                opening_moves(ids),
            ).state.readers.subset_of(all),
    decreases ids.len(),
{
    let steps = opening_moves(ids);
    if ids.len() > 0 {
        let fewer = ids.drop_last();
        lemma_opening(world, fewer);
        assert(steps.drop_last() =~= opening_moves(fewer));
        assert(steps.last() == (Move {
            act: Act::OpenReader { id: ids.last() },
            eff: Eff::Reading { id: ids.last() },
        }));
        assert forall|all: Set<u64>| #[trigger]
            world.state.readers.subset_of(all) && (forall|i: int|
                0 <= i < ids.len() ==> all.contains(#[trigger] ids[i])) implies run(
            world,
            steps,
        ).state.readers.subset_of(all) by {
            assert forall|i: int| 0 <= i < fewer.len() implies all.contains(#[trigger] fewer[i]) by {
                assert(all.contains(ids[i]));
            }
            assert(all.contains(ids[ids.len() - 1]));
        }
    }
}

/// Every segment that is opened between the copies is one of these.
pub open spec fn opens_within(opens: Seq<Seq<u64>>, n: int, all: Set<u64>) -> bool {
    forall|i: int, j: int|
        0 <= i < n && 0 <= j < opens[i].len() ==> all.contains(#[trigger] opens[i][j])
}

/// Files and memory after the first `n` values were copied.
pub proof fn lemma_mixed(world: World, entries: Seq<Entry>, opens: Seq<Seq<u64>>, n: int)
    requires
        can_merge(world, entries),
        0 <= n <= entries.len(),
    ensures
        ({
            let id = merged_id(world.state);
            let steps = begin_moves(id) + mixed_copies(world.disk, id, entries, opens, n);
            let after = run(world, steps);
            &&& after == reading(
                World {
                    disk: between(world, 0, merged_bytes(world.disk, entries, n), false),
                    state: copying(world.state, false),
                },
                after.state.readers,
            )
            &&& opens_within(opens, n, world.disk.dom()) ==> after.state.readers.subset_of(
                world.disk.dom(),
            )
        }),
    decreases n,
{
    let id = merged_id(world.state);
    let copies = mixed_copies(world.disk, id, entries, opens, n);
    let begin = begin_moves(id);
    if n == 0 {
        assert(begin + copies =~= begin + copy_moves(world.disk, id, entries, 0));
        lemma_copying(world, entries, 0);
    } else {
        let before = mixed_copies(world.disk, id, entries, opens, n - 1);
        let open = opening_moves(opens[n - 1]);
        let last = copy_move(id, entries[n - 1].key@, value_at(world.disk, entries[n - 1].loc));
        let w1 = run(world, begin + before);
        let w2 = run(w1, open);
        let bytes = merged_bytes(world.disk, entries, n);
        lemma_mixed(world, entries, opens, n - 1);
        lemma_opening(w1, opens[n - 1]);
        assert(begin + copies =~= begin + before + open + seq![last]);
        lemma_run_add(world, begin + before + open, seq![last]);
        lemma_run_add(world, begin + before, open);
        lemma_run_one(w2, last);
        assert(between(world, 0, merged_bytes(world.disk, entries, n - 1), false).insert(id, bytes)
            =~= between(world, 0, bytes, false));
        if opens_within(opens, n, world.disk.dom()) {
            assert(opens_within(opens, n - 1, world.disk.dom()));
            assert forall|j: int| 0 <= j < opens[n - 1].len() implies world.disk.dom().contains(
                #[trigger] opens[n - 1][j],
            ) by {}
            assert(w1.state.readers.subset_of(world.disk.dom()));
        }
    }
}

/// The segments that are open for reading play no part in a compaction but for themselves.
pub proof fn lemma_reading_copies(world: World, entries: Seq<Entry>, readers: Set<u64>)
    requires
        can_merge(world, entries),
        readers.subset_of(world.disk.dom()),
    ensures
        ({
            let id = merged_id(world.state);
            let n = entries.len() as int;
            let from = reading(world, readers);
            &&& can_merge(from, entries)
            &&& compact_moves(from, entries) == compact_moves(world, entries)
            &&& live(from) == live(world)
            &&& kept(world) ==> kept(from)
            &&& durable(world) ==> durable(from)
            &&& run(from, begin_moves(id) + copy_moves(world.disk, id, entries, n)) == reading(
                World {
                    disk: between(world, 0, merged_bytes(world.disk, entries, n), false),
                    state: copying(world.state, false),
                },
                readers,
            )
        }),
{
    let from = reading(world, readers);
    assert(can_merge(from, entries));
    lemma_copying(from, entries, entries.len() as int);
    assert(merged_id(from.state) == merged_id(world.state));
    assert(between(from, 0, merged_bytes(world.disk, entries, entries.len() as int), false)
        == between(world, 0, merged_bytes(world.disk, entries, entries.len() as int), false));
}

/// A compaction that opens segments for reading between its copies ends with the same
/// files and the same memory as one that does not.
pub proof fn law_compaction_with_openings(
    world: World,
    entries: Seq<Entry>,
    opens: Seq<Seq<u64>>,
)
    requires
        can_merge(world, entries),
        opens_within(opens, entries.len() as int, world.disk.dom()),
    ensures
        run(world, mixed_moves(world, entries, opens)) == run(
            world,
            compact_moves(world, entries),
        ),
{
    let id = merged_id(world.state);
    let n = entries.len() as int;
    let copies = begin_moves(id) + copy_moves(world.disk, id, entries, n);
    let mixed = begin_moves(id) + mixed_copies(world.disk, id, entries, opens, n);
    let finish = finish_moves(
        id,
        sorted(world.state.segments),
        merged_index(id, entries, n),
    );
    let readers = run(world, mixed).state.readers;
    let from = reading(world, readers);
    lemma_mixed(world, entries, opens, n);
    lemma_run_add(world, mixed, finish);
    lemma_reading_copies(world, entries, readers);
    lemma_run_add(from, copies, finish);
    lemma_compacted(world, entries);
    lemma_compacted(from, entries);
    let bytes = merged_bytes(world.disk, entries, n);
    let k = sorted(world.disk.dom()).len() as int;
    assert(between(from, k, bytes, true) == between(world, k, bytes, true));
    assert(switched(from.state, merged_index(id, entries, n)) == switched(
        world.state,
        merged_index(id, entries, n),
    ));
}

/// Wherever a compaction breaks off that opens segments for reading between its copies, by
/// a failure or by a crash, the store goes on with all of its values, the files hold them,
/// and what is written from then on is found again.
pub proof fn law_failed_compaction_with_openings(
    world: World,
    entries: Seq<Entry>,
    opens: Seq<Seq<u64>>,
    done: int,
    torn: int,
)
    requires
        kept(world),
        can_merge(world, entries),
        opens_within(opens, entries.len() as int, world.disk.dom()),
        can_crash(mixed_moves(world, entries, opens), done, torn),
    ensures
        ({
            let after = broken_off(world, mixed_moves(world, entries, opens), done, torn);
            &&& kept(after)
            &&& live(after) == live(world)
            &&& durable(world) ==> durable(after)
        }),
{
    let id = merged_id(world.state);
    let n = entries.len() as int;
    let steps = mixed_moves(world, entries, opens);
    let mixed = begin_moves(id) + mixed_copies(world.disk, id, entries, opens, n);
    let l = mixed.len() as int;
    if done < l {
        assert(steps.take(done) =~= mixed.take(done));
        assert(steps[done] == mixed[done]);
        lemma_stopped_in_mixed(world, entries, opens, n, done, torn);
    } else {
        let copies = begin_moves(id) + copy_moves(world.disk, id, entries, n);
        let readers = run(world, mixed).state.readers;
        let from = reading(world, readers);
        let plain = compact_moves(world, entries);
        let k = done - l;
        let finish = finish_moves(
            id,
            sorted(world.state.segments),
            merged_index(id, entries, n),
        );
        lemma_mixed(world, entries, opens, n);
        lemma_reading_copies(world, entries, readers);
        assert(steps.take(done) =~= mixed + finish.take(k));
        assert(plain.take(n + 1 + k) =~= copies + finish.take(k));
        lemma_run_add(world, mixed, finish.take(k));
        lemma_run_add(from, copies, finish.take(k));
        if k < finish.len() {
            assert(steps[done] == finish[k]);
            assert(plain[n + 1 + k] == finish[k]);
        }
        lemma_stopped(from, entries, n + 1 + k, torn);
        assert(broken_off(world, steps, done, torn) == stopped(from, entries, n + 1 + k, torn));
    }
}

/// Breaking off while values are copied and segments opened for reading.
proof fn lemma_stopped_in_mixed(
    world: World,
    entries: Seq<Entry>,
    opens: Seq<Seq<u64>>,
    n: int,
    done: int,
    torn: int,
)
    requires
        kept(world),
        can_merge(world, entries),
        0 <= n <= entries.len(),
        opens_within(opens, n, world.disk.dom()),
        ({
            let id = merged_id(world.state);
            let steps = begin_moves(id) + mixed_copies(world.disk, id, entries, opens, n);
            0 <= done < steps.len() && can_crash(steps, done, torn)
        }),
    ensures
        ({
            let id = merged_id(world.state);
            let steps = begin_moves(id) + mixed_copies(world.disk, id, entries, opens, n);
            intact(world, broken_off(world, steps, done, torn))
        }),
    decreases n,
{
    let id = merged_id(world.state);
    let steps = begin_moves(id) + mixed_copies(world.disk, id, entries, opens, n);
    if done == 0 {
        assert(steps.take(0) =~= Seq::empty());
        assert(run(world, Seq::empty()) == world);
        assert(steps[0] == begin_moves(id)[0]);
    } else {
        let before = begin_moves(id) + mixed_copies(world.disk, id, entries, opens, n - 1);
        let open = opening_moves(opens[n - 1]);
        let e = entries[n - 1];
        let last = copy_move(id, e.key@, value_at(world.disk, e.loc));
        let l = before.len() as int;
        assert(steps =~= before + open + seq![last]);
        assert(opens_within(opens, n - 1, world.disk.dom()));
        if done < l {
            assert(steps.take(done) =~= before.take(done));
            assert(steps[done] == before[done]);
            lemma_stopped_in_mixed(world, entries, opens, n - 1, done, torn);
        } else {
            let some = opens[n - 1].take(done - l);
            let w1 = run(world, before);
            let w2 = run(w1, opening_moves(some));
            lemma_mixed(world, entries, opens, n - 1);
            assert(steps.take(done) =~= before + opening_moves(some));
            lemma_run_add(world, before, opening_moves(some));
            lemma_opening(w1, some);
            assert forall|j: int| 0 <= j < some.len() implies world.disk.dom().contains(
                #[trigger] some[j],
            ) by {
                assert(world.disk.dom().contains(opens[n - 1][j]));
            }
            assert(w1.state.readers.subset_of(world.disk.dom()));
            let readers = w2.state.readers;
            if done < l + open.len() {
                assert(steps[done] == open[done - l]);
                lemma_merged(world, entries, Index::empty(), n - 1);
                lemma_pos_grows(entries, n - 1, entries.len() as int);
                let bytes = merged_bytes(world.disk, entries, n - 1);
                assert(bytes + Seq::empty() =~= bytes);
                lemma_before_switch(world, entries, n - 1, Seq::empty(), false, readers);
            } else {
                assert(steps[done] == last);
                lemma_torn_copy(world, entries, n - 1, torn, readers);
                assert(broken_off(world, steps, done, torn).disk =~= between(
                    world,
                    0,
                    merged_bytes(world.disk, entries, n - 1) + encoded(
                        e.key@,
                        Some(value_at(world.disk, e.loc)),
                    ).take(torn),
                    false,
                ));
            }
        }
    }
}

/// A copy of which `torn` bytes were written, whatever segments are open for reading.
proof fn lemma_torn_copy(
    world: World,
    entries: Seq<Entry>,
    i: int,
    torn: int,
    readers: Set<u64>,
)
    requires
        kept(world),
        can_merge(world, entries),
        0 <= i < entries.len(),
        0 <= torn <= encoded(
            entries[i].key@,
            Some(value_at(world.disk, entries[i].loc)),
        ).len(),
        readers.subset_of(world.disk.dom()),
    ensures
        intact(
            world,
            World {
                disk: between(
                    world,
                    0,
                    merged_bytes(world.disk, entries, i) + encoded(
                        entries[i].key@,
                        Some(value_at(world.disk, entries[i].loc)),
                    ).take(torn),
                    false,
                ),
                state: State { readers, ..copying(world.state, false) },
            },
        ),
{
    let id = merged_id(world.state);
    let key = entries[i].key@;
    let val = value_at(world.disk, entries[i].loc);
    let before = merged_bytes(world.disk, entries, i);
    let tail = encoded(key, Some(val)).take(torn);
    lemma_entry_placed(world, entries, i);
    lemma_encoded_len(key, Some(val));
    lemma_merged(world, entries, Index::empty(), i);
    lemma_pos_grows(entries, i + 1, entries.len() as int);
    if torn == encoded(key, Some(val)).len() {
        assert(tail =~= encoded(key, Some(val)));
        assert(before + tail =~= merged_bytes(world.disk, entries, i + 1));
        assert(before + tail + Seq::empty() =~= before + tail);
        lemma_before_switch(world, entries, i + 1, Seq::empty(), false, readers);
    } else {
        law_torn_write_is_discarded(without(world, 0), id, before, key, Some(val), torn);
        lemma_before_switch(world, entries, i, tail, false, readers);
    }
}

/// A compaction fails with every step of it but the deletions of old segments, and those
/// are of segments that were there before it, each of them once.
pub proof fn law_only_deletions_may_fail(world: World, entries: Seq<Entry>)
    requires
        can_merge(world, entries),
    ensures
        ({
            let steps = compact_moves(world, entries);
            &&& forall|i: int|
                0 <= i < steps.len() && !needed((#[trigger] steps[i]).act) ==> steps[i].act is Remove
                    && world.disk.contains_key(steps[i].act->Remove_id)
            &&& forall|i: int|
                0 <= i < steps.len() && (#[trigger] steps[i]).act is Remove ==> !needed(steps[i].act)
            &&& forall|i: int, j: int|
                0 <= i < j < steps.len() && (#[trigger] steps[i]).act is Remove ==> (
                #[trigger] steps[j]).act != steps[i].act
        }),
{
    let id = merged_id(world.state);
    let n = entries.len() as int;
    let all = sorted(world.disk.dom());
    let steps = compact_moves(world, entries);
    lemma_sorted(world.disk.dom());
    assert(world.state.segments == world.disk.dom());
    assert forall|i: int| 0 <= i < steps.len() && (#[trigger] steps[i]).act is Remove implies n + 7
        <= i < n + 7 + all.len() && steps[i].act == (Act::Remove { id: all[i - n - 7] })
        && world.disk.contains_key(all[i - n - 7]) by {
        if n + 7 <= i < n + 7 + all.len() {
            assert(steps[i] == remove_moves(all)[i - n - 7]);
            assert(all.to_set().contains(all[i - n - 7]));
        }
    }
}

/// Whoever takes the steps of a compaction in their order can report each of them: its
/// effect fits whatever the steps before it left.
pub proof fn law_compaction_steps_fit(world: World, entries: Seq<Entry>, state: State, i: int)
    requires
        can_merge(world, entries),
        0 <= i < compact_moves(world, entries).len(),
    ensures
        fits(state, compact_moves(world, entries)[i].eff),
{
    let n = entries.len() as int;
    let all = sorted(world.state.segments);
    let steps = compact_moves(world, entries);
    if n + 7 <= i < n + 7 + all.len() {
        assert(steps[i] == remove_moves(all)[i - n - 7]);
    }
}

} // verus!
