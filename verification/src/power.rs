//! What a loss of power takes, and what it does not.

use crate::action::{full, Act, Move};
use crate::compaction::{
    begin_moves, copy_move, finish_moves, merged_index, remove_moves, seal_moves, settle_moves,
    switch_moves,
};
use crate::disk::{
    can_crash, crashed, durable, in_step, kept, lemma_new_segment, lemma_run_add, lemma_run_one, live, performed, run,
    stepped, stored, value_at, Disk, World,
};
use crate::keydir::{Entry, Index};
use crate::merging::{
    between, can_merge, compact_moves, copy_moves, law_crash_during_compaction, lemma_between_dom,
    lemma_copying, lemma_merged, lemma_merged_last, lemma_pos_grows, lemma_removing, lemma_sealing,
    lemma_switching, copying, lemma_mixed, lemma_opening, merged_bytes, merged_id, mixed_copies,
    mixed_moves, opening_moves, switched,
};
use crate::record::{encoded, value_bytes, HEADER, MAX_KV};
use crate::sorting::{lemma_sorted, sorted};
use crate::handles::performed_all;
use crate::opening::last_acts;
use crate::store::{flush_move, roll_moves, room, sync_moves, target_id};
use crate::writing::{
    append_move, law_crash_during_write, lemma_part_rolled, lemma_roll, lemma_write,
    lemma_write_moves, rolled, with_value, write_moves,
};
use vstd::prelude::*;

verus! {

/// What is on stable storage.
#[verifier::ext_equal]
pub struct Marks {
    /// How many bytes of each segment.
    pub lens: Map<u64, nat>,
    /// The segments whose names are in the directory there.
    pub names: Set<u64>,
    /// The segments that were deleted but whose names are still in the directory there,
    /// with what they held.
    pub gone: Map<u64, Seq<u8>>,
}

/// The marks after an action on these files that succeeded.
pub open spec fn marked(marks: Marks, disk: Disk, act: Act) -> Marks {
    match act {
        Act::OpenAppend { id } => if disk.contains_key(id) {
            marks
        } else {
            Marks { lens: marks.lens.insert(id, 0), ..marks }
        },
        Act::Sync { id } => Marks { lens: marks.lens.insert(id, disk[id].len()), ..marks },
        Act::SyncDir => Marks { names: disk.dom(), gone: Map::empty(), ..marks },
        Act::Remove { id } => Marks {
            lens: marks.lens.remove(id),
            gone: if marks.names.contains(id) {
                marks.gone.insert(id, disk[id])
            } else {
                marks.gone
            },
            ..marks
        },
        _ => marks,
    }
}

/// The marks after all of the steps, in their order.
pub open spec fn marked_by(marks: Marks, world: World, steps: Seq<Move>) -> Marks
    decreases steps.len(),
{
    if steps.len() == 0 {
        marks
    } else {
        let fewer = steps.drop_last();
        marked(marked_by(marks, world, fewer), run(world, fewer).disk, steps.last().act)
    }
}

/// All that was written is on stable storage, and nothing else.
pub open spec fn stable(marks: Marks, disk: Disk) -> bool {
    &&& forall|id: u64| #[trigger] disk.contains_key(id) ==> marks.lens[id] == disk[id].len()
    &&& marks.names == disk.dom()
    &&& marks.gone == Map::<u64, Seq<u8>>::empty()
}

/// All that was written is on stable storage, but for some of the active segment.
pub open spec fn sealed(marks: Marks, world: World) -> bool {
    &&& forall|id: u64| #[trigger]
        world.disk.contains_key(id) && id != world.state.active_id ==> marks.lens[id]
            == world.disk[id].len()
    &&& marks.names == world.disk.dom()
    &&& marks.gone == Map::<u64, Seq<u8>>::empty()
}

/// The files that a loss of power can leave. Of each segment there is what was on stable
/// storage, and any part of what was written behind that. A segment whose name was not on
/// stable storage may be missing; one that was deleted may be back as long as its name
/// was still there. Which of them are does not depend on the order of these changes.
pub open spec fn can_leave(disk: Disk, marks: Marks, left: Disk) -> bool {
    &&& forall|id: u64| #[trigger]
        left.contains_key(id) ==> if disk.contains_key(id) {
            &&& marks.lens[id] <= left[id].len()
            &&& left[id].is_prefix_of(disk[id])
        } else {
            &&& marks.gone.contains_key(id)
            &&& left[id].is_prefix_of(marks.gone[id])
        }
    &&& forall|id: u64| #[trigger]
        disk.contains_key(id) && marks.names.contains(id) ==> left.contains_key(id)
}

proof fn lemma_marked_add(marks: Marks, world: World, a: Seq<Move>, b: Seq<Move>)
    ensures
        marked_by(marks, world, a + b) == marked_by(marked_by(marks, world, a), run(world, a), b),
    decreases b.len(),
{
    if b.len() == 0 {
        assert(a + b =~= a);
    } else {
        assert((a + b).drop_last() =~= a + b.drop_last());
        lemma_marked_add(marks, world, a, b.drop_last());
        lemma_run_add(world, a, b.drop_last());
    }
}

proof fn lemma_marked_one(marks: Marks, world: World, step: Move)
    ensures
        marked_by(marks, world, seq![step]) == marked(marks, world.disk, step.act),
{
    assert(seq![step].drop_last() =~= Seq::empty());
    assert(marked_by(marks, world, Seq::empty()) == marks);
    assert(run(world, Seq::empty()) == world);
}

/// What is on stable storage is not lost.
proof fn lemma_stable_stays(disk: Disk, marks: Marks, left: Disk)
    requires
        stable(marks, disk),
        can_leave(disk, marks, left),
    ensures
        left == disk,
{
    assert forall|id: u64| disk.contains_key(id) implies left.contains_key(id) && left[id]
        == disk[id] by {
        assert(left.contains_key(id));
        assert(left[id] =~= disk[id]);
    }
    assert(left =~= disk);
}

/// Opening a store on what a loss of power left finds what it would have found without it,
/// and so every value of the store, if all that was written had been brought to stable
/// storage.
pub proof fn law_stable_survives_power_loss(world: World, marks: Marks, left: Disk)
    requires
        kept(world),
        stable(marks, world.disk),
        can_leave(world.disk, marks, left),
    ensures
        stored(left) == stored(world.disk),
        live(world).submap_of(stored(left)),
{
    lemma_stable_stays(world.disk, marks, left);
}

/// The marks after the first `done` steps that leave a full segment.
spec fn part_marked(marks: Marks, world: World, done: int) -> Marks {
    let id = target_id(world.state);
    let synced = marks.lens.insert(
        world.state.active_id,
        world.disk[world.state.active_id].len(),
    );
    if done <= 0 {
        marks
    } else if done == 1 {
        Marks { lens: synced, ..marks }
    } else if done == 2 {
        Marks { lens: synced.insert(id, 0), ..marks }
    } else {
        Marks {
            lens: synced.insert(id, 0),
            names: world.disk.dom().insert(id),
            gone: Map::empty(),
        }
    }
}

proof fn lemma_part_marked(marks: Marks, world: World, done: int)
    requires
        in_step(world),
        full(world.state),
        world.state.last_id < u64::MAX,
        0 <= done <= 4,
    ensures
        marked_by(marks, world, roll_moves(world.state).take(done)) == part_marked(
            marks,
            world,
            done,
        ),
    decreases done,
{
    let roll = roll_moves(world.state);
    let id = target_id(world.state);
    assert(!world.disk.contains_key(id));
    if done > 0 {
        lemma_part_marked(marks, world, done - 1);
        lemma_part_rolled(world, done - 1);
        assert(roll.take(done).drop_last() =~= roll.take(done - 1));
        assert(roll.take(done).last() == roll[done - 1]);
        assert(world.disk.insert(id, Seq::empty()).dom() =~= world.disk.dom().insert(id));
    } else {
        assert(roll.take(0) =~= Seq::empty());
    }
}

/// The marks after the steps that leave a full segment were taken.
proof fn lemma_marked_roll(marks: Marks, world: World)
    requires
        in_step(world),
        full(world.state) ==> world.state.last_id < u64::MAX,
    ensures
        marked_by(marks, world, roll_moves(world.state)) == if full(world.state) {
            part_marked(marks, world, 4)
        } else {
            marks
        },
{
    let roll = roll_moves(world.state);
    if full(world.state) {
        lemma_part_marked(marks, world, 4);
        assert(roll.take(4) =~= roll);
    } else {
        assert(roll =~= Seq::empty());
    }
}

/// Once a segment was left for a new one, all of it is on stable storage, and so is the
/// new one's name: every write keeps that so. Where every write is to be on stable storage
/// before it returns, all that was written is then.
pub proof fn law_synced_write_is_stable(
    world: World,
    marks: Marks,
    key: Seq<u8>,
    val: Option<Seq<u8>>,
)
    requires
        in_step(world),
        sealed(marks, world),
        key.len() <= MAX_KV,
        value_bytes(val).len() <= MAX_KV,
        room(world.state, HEADER + key.len() + value_bytes(val).len()),
    ensures
        ({
            let steps = write_moves(world.state, key, val);
            let after = run(world, steps);
            let marks = marked_by(marks, world, steps);
            &&& sealed(marks, after)
            &&& world.state.sync_writes ==> stable(marks, after.disk)
        }),
{
    let steps = write_moves(world.state, key, val);
    let roll = roll_moves(world.state);
    let append = append_move(rolled(world).state, key, val);
    let sync = sync_moves(world.state);
    let after = run(world, steps);
    lemma_write_moves(world, key, val);
    lemma_roll(world);
    lemma_write(world, key, val);
    lemma_marked_roll(marks, world);
    lemma_marked_add(marks, world, roll + seq![append], sync);
    lemma_marked_add(marks, world, roll, seq![append]);
    let m1 = marked_by(marks, world, roll);
    lemma_marked_one(m1, rolled(world), append);
    lemma_run_add(world, roll, seq![append]);
    lemma_run_one(rolled(world), append);
    assert(after == stepped(rolled(world), append));
    assert(after.disk.dom() =~= rolled(world).disk.dom());
    assert(m1.names =~= rolled(world).disk.dom());
    if world.state.sync_writes {
        assert(sync =~= seq![sync[0]]);
        lemma_marked_one(m1, after, sync[0]);
    } else {
        assert(sync =~= Seq::empty());
    }
}

/// Flushing brings all that was written to stable storage.
pub proof fn law_flush_is_stable(world: World, marks: Marks, flush: Move)
    requires
        in_step(world),
        sealed(marks, world),
        flush.act == (Act::Sync { id: world.state.active_id }),
    ensures
        stable(marked_by(marks, world, seq![flush]), stepped(world, flush).disk),
{
    lemma_marked_one(marks, world, flush);
}

/// Once a store was opened and its directory brought to stable storage, it is sealed, if
/// the segments before the active one were.
pub proof fn law_open_seals_names(world: World, marks: Marks, sync_dir: Move)
    requires
        in_step(world),
        sync_dir.act == Act::SyncDir,
        forall|id: u64| #[trigger]
            world.disk.contains_key(id) && id != world.state.active_id ==> marks.lens[id]
                == world.disk[id].len(),
    ensures
        sealed(marked_by(marks, world, seq![sync_dir]), world),
{
    lemma_marked_one(marks, world, sync_dir);
}

/// Wherever a loss of power interrupts a write, opening the store again gives what it gave
/// before the write, or the same with the new value, and nothing else, if all that had been
/// written before was on stable storage.
pub proof fn law_power_loss_during_write(
    world: World,
    marks: Marks,
    key: Seq<u8>,
    val: Option<Seq<u8>>,
    done: int,
    torn: int,
    left: Disk,
)
    requires
        kept(world),
        stable(marks, world.disk),
        key.len() <= MAX_KV,
        value_bytes(val).len() <= MAX_KV,
        room(world.state, HEADER + key.len() + value_bytes(val).len()),
        can_crash(write_moves(world.state, key, val), done, torn),
        ({
            let steps = write_moves(world.state, key, val);
            can_leave(
                crashed(world, steps, done, torn),
                marked_by(marks, world, steps.take(done)),
                left,
            )
        }),
    ensures
        stored(left) == stored(world.disk) || stored(left) == with_value(
            stored(world.disk),
            key,
            val,
        ),
{
    let steps = write_moves(world.state, key, val);
    let at = roll_moves(world.state).len() as int;
    lemma_write_moves(world, key, val);
    if done < at {
        lemma_power_in_roll(world, marks, key, val, done, torn, left);
    } else if done <= at + 1 {
        let n = lemma_power_in_append(world, marks, key, val, done, torn, left);
        law_crash_during_write(world, key, val, at, n);
    } else {
        assert(steps.take(done) =~= steps);
        law_synced_write_is_stable(world, marks, key, val);
        lemma_stable_stays(
            crashed(world, steps, done, torn),
            marked_by(marks, world, steps),
            left,
        );
        law_crash_during_write(world, key, val, done, torn);
    }
}

/// A loss of power while a full segment is left for a new one takes at most the new one.
proof fn lemma_power_in_roll(
    world: World,
    marks: Marks,
    key: Seq<u8>,
    val: Option<Seq<u8>>,
    done: int,
    torn: int,
    left: Disk,
)
    requires
        kept(world),
        stable(marks, world.disk),
        room(world.state, HEADER + key.len() + value_bytes(val).len()),
        0 <= done < roll_moves(world.state).len(),
        ({
            let steps = write_moves(world.state, key, val);
            can_leave(
                crashed(world, steps, done, torn),
                marked_by(marks, world, steps.take(done)),
                left,
            )
        }),
    ensures
        stored(left) == stored(world.disk),
{
    let steps = write_moves(world.state, key, val);
    let roll = roll_moves(world.state);
    let id = target_id(world.state);
    let more = world.disk.insert(id, Seq::empty());
    lemma_write_moves(world, key, val);
    assert(steps.take(done) =~= roll.take(done));
    assert(steps[done] == roll[done]);
    lemma_part_rolled(world, done);
    lemma_part_marked(marks, world, done);
    lemma_new_segment(world.disk, id);
    let m = part_marked(marks, world, done);
    if done <= 1 {
        lemma_stable_stays(world.disk, m, left);
    } else if done == 2 {
        assert forall|x: u64| world.disk.contains_key(x) implies left.contains_key(x) && left[x]
            == world.disk[x] by {
            assert(more.contains_key(x) && more[x] == world.disk[x]);
            assert(left.contains_key(x));
            assert(left[x] =~= world.disk[x]);
        }
        if left.contains_key(id) {
            assert(left[id] =~= Seq::empty());
            assert(left =~= more);
        } else {
            assert(left =~= world.disk);
        }
    } else {
        assert(m.names =~= more.dom());
        lemma_stable_stays(more, m, left);
    }
}

/// A loss of power while a record is appended, or before it was brought to stable
/// storage, leaves some part of the record.
#[verifier::rlimit(40)]
proof fn lemma_power_in_append(
    world: World,
    marks: Marks,
    key: Seq<u8>,
    val: Option<Seq<u8>>,
    done: int,
    torn: int,
    left: Disk,
) -> (n: int)
    requires
        in_step(world),
        stable(marks, world.disk),
        room(world.state, HEADER + key.len() + value_bytes(val).len()),
        roll_moves(world.state).len() <= done <= roll_moves(world.state).len() + 1,
        can_crash(write_moves(world.state, key, val), done, torn),
        ({
            let steps = write_moves(world.state, key, val);
            can_leave(
                crashed(world, steps, done, torn),
                marked_by(marks, world, steps.take(done)),
                left,
            )
        }),
    ensures
        0 <= n <= encoded(key, val).len(),
        left == crashed(
            world,
            write_moves(world.state, key, val),
            roll_moves(world.state).len() as int,
            n,
        ),
{
    let steps = write_moves(world.state, key, val);
    let roll = roll_moves(world.state);
    let at = roll.len() as int;
    let append = append_move(rolled(world).state, key, val);
    let rec = encoded(key, val);
    let id = target_id(world.state);
    let disk = crashed(world, steps, done, torn);
    let base = rolled(world).disk;
    let whole = if done == at {
        torn
    } else {
        rec.len() as int
    };
    lemma_write_moves(world, key, val);
    lemma_roll(world);
    lemma_marked_roll(marks, world);
    let m = marked_by(marks, world, roll);
    assert(steps.take(at) =~= roll);
    assert(steps[at] == append);
    if done > at {
        assert(steps.take(at + 1) =~= roll + seq![append]);
        lemma_marked_add(marks, world, roll, seq![append]);
        lemma_marked_one(m, rolled(world), append);
        lemma_run_add(world, roll, seq![append]);
        lemma_run_one(rolled(world), append);
        assert(rec.take(rec.len() as int) =~= rec);
    }
    assert(marked_by(marks, world, steps.take(done)) == m);
    assert(disk =~= base.insert(id, base[id] + rec.take(whole)));
    assert(m.names =~= base.dom());
    let n = left[id].len() - base[id].len();
    assert(base.contains_key(id) && disk.contains_key(id));
    assert(left.contains_key(id));
    assert(m.lens[id] == base[id].len());
    assert(left[id] =~= base[id] + rec.take(n));
    assert forall|x: u64| base.contains_key(x) && x != id implies left.contains_key(x) && left[x]
        == #[trigger] base[x] by {
        assert(disk.contains_key(x) && disk[x] == base[x]);
        assert(left.contains_key(x));
        assert(m.lens[x] == base[x].len());
        assert(left[x] =~= base[x]);
    }
    assert(left =~= base.insert(id, base[id] + rec.take(n)));
    n
}

/// The marks after the first `n` values were copied: the merged segment need not be on
/// stable storage at all.
proof fn lemma_marked_copies(world: World, marks: Marks, entries: Seq<Entry>, n: int)
    requires
        can_merge(world, entries),
        0 <= n <= entries.len(),
    ensures
        ({
            let id = merged_id(world.state);
            marked_by(marks, world, begin_moves(id) + copy_moves(world.disk, id, entries, n)) == (
            Marks { lens: marks.lens.insert(id, 0), ..marks })
        }),
    decreases n,
{
    let id = merged_id(world.state);
    let steps = begin_moves(id) + copy_moves(world.disk, id, entries, n);
    assert(!world.disk.contains_key(id));
    if n == 0 {
        assert(steps =~= seq![begin_moves(id)[0]]);
        lemma_marked_one(marks, world, begin_moves(id)[0]);
    } else {
        lemma_marked_copies(world, marks, entries, n - 1);
        assert(steps.drop_last() =~= begin_moves(id) + copy_moves(
            world.disk,
            id,
            entries,
            n - 1,
        ));
        assert(steps.last().act is Append);
    }
}

/// The marks after the first `s` steps that seal the merged segment.
spec fn seal_marked(marks: Marks, world: World, bytes: Seq<u8>, s: int) -> Marks {
    let id = merged_id(world.state);
    let next = (id + 1) as u64;
    let begun = marks.lens.insert(id, 0);
    if s <= 0 {
        Marks { lens: begun, ..marks }
    } else if s == 1 {
        Marks { lens: begun.insert(id, bytes.len()), ..marks }
    } else if s == 2 {
        Marks { lens: begun.insert(id, bytes.len()).insert(next, 0), ..marks }
    } else {
        Marks {
            lens: begun.insert(id, bytes.len()).insert(next, 0),
            names: between(world, 0, bytes, true).dom(),
            gone: Map::empty(),
        }
    }
}

proof fn lemma_seal_marked(marks: Marks, world: World, entries: Seq<Entry>, s: int)
    requires
        can_merge(world, entries),
        0 <= s <= 3,
    ensures
        ({
            let n = entries.len() as int;
            let bytes = merged_bytes(world.disk, entries, n);
            let steps = compact_moves(world, entries).take(n + 1 + s);
            &&& marked_by(marks, world, steps) == seal_marked(marks, world, bytes, s)
            &&& run(world, steps) == (World {
                disk: between(world, 0, bytes, s >= 2),
                state: copying(world.state, s >= 2),
            })
        }),
    decreases s,
{
    let id = merged_id(world.state);
    let n = entries.len() as int;
    let bytes = merged_bytes(world.disk, entries, n);
    let all = compact_moves(world, entries);
    let begun = begin_moves(id) + copy_moves(world.disk, id, entries, n);
    lemma_copying(world, entries, n);
    assert(all.take(n + 1 + s) =~= begun + seal_moves(id).take(s));
    lemma_run_add(world, begun, seal_moves(id).take(s));
    lemma_sealing(world, bytes, s);
    if s == 0 {
        lemma_marked_copies(world, marks, entries, n);
        assert(begun + seal_moves(id).take(0) =~= begun);
    } else {
        lemma_seal_marked(marks, world, entries, s - 1);
        let steps = all.take(n + 1 + s);
        assert(steps.drop_last() =~= all.take(n + s));
        assert(steps.last() == seal_moves(id)[s - 1]);
        lemma_between_dom(world, 0, bytes, s >= 3);
        assert(between(world, 0, bytes, false)[id] == bytes);
        assert(!between(world, 0, bytes, false).contains_key((id + 1) as u64)) by {
            lemma_between_dom(world, 0, bytes, false);
        }
    }
}

/// Some part of the merged segment: a number of whole records, and some part of the
/// next.
proof fn lemma_part(world: World, entries: Seq<Entry>, n: int, len: int) -> (r: (int, int))
    requires
        can_merge(world, entries),
        0 < n <= entries.len(),
        0 <= len <= merged_bytes(world.disk, entries, n).len(),
    ensures
        0 <= r.0 < n,
        ({
            let e = entries[r.0];
            let rec = encoded(e.key@, Some(value_at(world.disk, e.loc)));
            &&& 0 <= r.1 <= rec.len()
            &&& merged_bytes(world.disk, entries, n).take(len) == merged_bytes(
                world.disk,
                entries,
                r.0,
            ) + rec.take(r.1)
        }),
    decreases n,
{
    let before = merged_bytes(world.disk, entries, n - 1);
    let e = entries[n - 1];
    let rec = encoded(e.key@, Some(value_at(world.disk, e.loc)));
    let bytes = merged_bytes(world.disk, entries, n);
    if len >= before.len() {
        assert(bytes.take(len) =~= before + rec.take(len - before.len()));
        (n - 1, len - before.len())
    } else {
        assert(bytes.take(len) =~= before.take(len));
        if n == 1 {
            assert(before.len() == 0);
        }
        lemma_part(world, entries, n - 1, len)
    }
}

/// Opening a store on the files gives every value of the store, and, where it gave nothing
/// else before, nothing else.
spec fn keeps(world: World, disk: Disk) -> bool {
    &&& live(world).submap_of(stored(disk))
    &&& durable(world) ==> stored(disk) == live(world)
}

/// Some part of the merged segment behind the old ones changes no value.
proof fn lemma_partial(world: World, entries: Seq<Entry>, n: int, len: int)
    requires
        kept(world),
        can_merge(world, entries),
        0 <= n <= entries.len(),
        0 <= len <= merged_bytes(world.disk, entries, n).len(),
    ensures
        keeps(
            world,
            world.disk.insert(
                merged_id(world.state),
                merged_bytes(world.disk, entries, n).take(len),
            ),
        ),
{
    let id = merged_id(world.state);
    let some = merged_bytes(world.disk, entries, n).take(len);
    if n == 0 {
        assert(some =~= Seq::empty());
        lemma_new_segment(world.disk, id);
    } else {
        let steps = compact_moves(world, entries);
        let (i, t) = lemma_part(world, entries, n, len);
        let e = entries[i];
        let before = merged_bytes(world.disk, entries, i);
        assert(steps.take(i + 1) =~= begin_moves(id) + copy_moves(world.disk, id, entries, i));
        assert(steps[i + 1] == copy_move(id, e.key@, value_at(world.disk, e.loc)));
        lemma_copying(world, entries, i);
        assert(sorted(world.disk.dom()).take(0).to_set() =~= Set::empty());
        assert(between(world, 0, before, false) =~= world.disk.insert(id, before));
        assert(world.disk.insert(id, some) =~= crashed(world, steps, i + 1, t));
        law_crash_during_compaction(world, entries, i + 1, t);
    }
}

/// The old segments, with any part of the merged one or without it, and with the empty
/// segment behind it or without it, hold every value.
proof fn lemma_unsealed(world: World, entries: Seq<Entry>, left: Disk)
    requires
        kept(world),
        can_merge(world, entries),
        ({
            let id = merged_id(world.state);
            let next = (id + 1) as u64;
            let bytes = merged_bytes(world.disk, entries, entries.len() as int);
            &&& forall|x: u64| #[trigger]
                left.contains_key(x) ==> world.disk.contains_key(x) || x == id || x == next
            &&& forall|x: u64| #[trigger]
                world.disk.contains_key(x) ==> left.contains_key(x) && left[x] == world.disk[x]
            &&& left.contains_key(id) ==> left[id].is_prefix_of(bytes)
            &&& left.contains_key(next) ==> left[next] == Seq::<u8>::empty()
        }),
        merged_bytes(world.disk, entries, entries.len() as int).len() <= u64::MAX,
    ensures
        keeps(world, left),
{
    let id = merged_id(world.state);
    let next = (id + 1) as u64;
    let n = entries.len() as int;
    let bytes = merged_bytes(world.disk, entries, n);
    let less = left.remove(next);
    if left.contains_key(id) {
        let len = left[id].len() as int;
        assert(left[id] =~= bytes.take(len));
        assert(less =~= world.disk.insert(id, bytes.take(len)));
        lemma_partial(world, entries, n, len);
    } else {
        assert(less =~= world.disk);
    }
    if left.contains_key(next) {
        assert(left =~= less.insert(next, Seq::empty()));
        assert(less.dom().finite());
        lemma_new_segment(less, next);
    } else {
        assert(left =~= less);
    }
}

/// The files hold the old segments, all of them on stable storage, and besides some of the
/// merged one and, it may be, the empty one behind it.
spec fn unnamed(world: World, entries: Seq<Entry>, disk: Disk, m: Marks) -> bool {
    let id = merged_id(world.state);
    let next = (id + 1) as u64;
    &&& forall|x: u64| #[trigger]
        disk.contains_key(x) ==> world.disk.contains_key(x) || x == id || x == next
    &&& forall|x: u64| #[trigger]
        world.disk.contains_key(x) ==> disk.contains_key(x) && disk[x] == world.disk[x] && m.lens[x]
            == disk[x].len() && m.names.contains(x)
    &&& disk.contains_key(id) ==> disk[id].is_prefix_of(
        merged_bytes(world.disk, entries, entries.len() as int),
    )
    &&& disk.contains_key(next) ==> disk[next] == Seq::<u8>::empty()
    &&& m.gone == Map::<u64, Seq<u8>>::empty()
}

/// While values are copied.
proof fn lemma_unnamed_in_copy(
    world: World,
    marks: Marks,
    entries: Seq<Entry>,
    done: int,
    torn: int,
)
    requires
        can_merge(world, entries),
        stable(marks, world.disk),
        1 <= done <= entries.len(),
        can_crash(compact_moves(world, entries), done, torn),
    ensures
        unnamed(
            world,
            entries,
            crashed(world, compact_moves(world, entries), done, torn),
            marked_by(marks, world, compact_moves(world, entries).take(done)),
        ),
{
    let id = merged_id(world.state);
    let n = entries.len() as int;
    let steps = compact_moves(world, entries);
    let disk = crashed(world, steps, done, torn);
    let i = done - 1;
    let e = entries[i];
    let before = merged_bytes(world.disk, entries, i);
    let rec = encoded(e.key@, Some(value_at(world.disk, e.loc)));
    let some = before + rec.take(torn);
    assert(!world.disk.contains_key(id) && !world.disk.contains_key((id + 1) as u64));
    assert(sorted(world.disk.dom()).take(0).to_set() =~= Set::empty());
    assert(steps.take(done) =~= begin_moves(id) + copy_moves(world.disk, id, entries, i));
    assert(steps[done] == copy_move(id, e.key@, value_at(world.disk, e.loc)));
    lemma_copying(world, entries, i);
    lemma_marked_copies(world, marks, entries, i);
    assert(between(world, 0, before, false) =~= world.disk.insert(id, before));
    assert(disk =~= world.disk.insert(id, some));
    lemma_bytes_prefix(world, entries, i + 1, n);
    assert(some.is_prefix_of(before + rec));
    assert(disk[id].is_prefix_of(merged_bytes(world.disk, entries, n)));
}

/// While the merged segment is sealed.
proof fn lemma_unnamed_in_seal(
    world: World,
    marks: Marks,
    entries: Seq<Entry>,
    s: int,
    torn: int,
)
    requires
        can_merge(world, entries),
        stable(marks, world.disk),
        0 <= s <= 2,
    ensures
        unnamed(
            world,
            entries,
            crashed(world, compact_moves(world, entries), entries.len() + 1 + s, torn),
            marked_by(
                marks,
                world,
                compact_moves(world, entries).take(entries.len() + 1 + s),
            ),
        ),
{
    let id = merged_id(world.state);
    let next = (id + 1) as u64;
    let n = entries.len() as int;
    let steps = compact_moves(world, entries);
    let bytes = merged_bytes(world.disk, entries, n);
    let disk = crashed(world, steps, n + 1 + s, torn);
    assert(!world.disk.contains_key(id) && !world.disk.contains_key(next));
    assert(sorted(world.disk.dom()).take(0).to_set() =~= Set::empty());
    lemma_seal_marked(marks, world, entries, s);
    assert(!(steps[n + 1 + s].act is Append));
    if s >= 2 {
        assert(disk =~= world.disk.insert(id, bytes).insert(next, Seq::empty()));
    } else {
        assert(disk =~= world.disk.insert(id, bytes));
    }
}

/// A loss of power before the names of the merged segment and of the next active one were
/// brought to stable storage.
proof fn lemma_power_before_names(
    world: World,
    marks: Marks,
    entries: Seq<Entry>,
    done: int,
    torn: int,
    left: Disk,
)
    requires
        kept(world),
        can_merge(world, entries),
        stable(marks, world.disk),
        1 <= done <= entries.len() + 3,
        can_crash(compact_moves(world, entries), done, torn),
        can_leave(
            crashed(world, compact_moves(world, entries), done, torn),
            marked_by(marks, world, compact_moves(world, entries).take(done)),
            left,
        ),
    ensures
        keeps(world, left),
{
    let n = entries.len() as int;
    let steps = compact_moves(world, entries);
    if done <= n {
        lemma_unnamed_in_copy(world, marks, entries, done, torn);
    } else {
        lemma_unnamed_in_seal(world, marks, entries, done - n - 1, torn);
    }
    lemma_power_unnamed(
        world,
        entries,
        crashed(world, steps, done, torn),
        marked_by(marks, world, steps.take(done)),
        left,
    );
}

/// A loss of power that takes the names that are not on stable storage, or does not.
#[verifier::rlimit(40)]
proof fn lemma_power_unnamed(
    world: World,
    entries: Seq<Entry>,
    disk: Disk,
    m: Marks,
    left: Disk,
)
    requires
        kept(world),
        can_merge(world, entries),
        unnamed(world, entries, disk, m),
        can_leave(disk, m, left),
    ensures
        keeps(world, left),
{
    let id = merged_id(world.state);
    let next = (id + 1) as u64;
    let bytes = merged_bytes(world.disk, entries, entries.len() as int);
    lemma_bytes_len(world, entries, entries.len() as int);
    assert forall|x: u64| #[trigger] world.disk.contains_key(x) implies left.contains_key(x)
        && left[x] == world.disk[x] by {
        assert(disk.contains_key(x) && m.names.contains(x));
        assert(left.contains_key(x));
        assert(left[x] =~= world.disk[x]);
    }
    assert forall|x: u64| #[trigger] left.contains_key(x) implies world.disk.contains_key(x) || x
        == id || x == next by {
        assert(disk.contains_key(x));
    }
    if left.contains_key(next) {
        assert(disk.contains_key(next));
        assert(left[next] =~= Seq::empty());
    }
    if left.contains_key(id) {
        assert(disk.contains_key(id));
        assert(left[id].is_prefix_of(bytes));
    }
    lemma_unsealed(world, entries, left);
}

/// The merged segment is as long as its records are.
proof fn lemma_bytes_len(world: World, entries: Seq<Entry>, n: int)
    requires
        can_merge(world, entries),
        0 <= n <= entries.len(),
    ensures
        merged_bytes(world.disk, entries, n).len() <= u64::MAX,
{
    lemma_merged(world, entries, Index::empty(), n);
    lemma_pos_grows(entries, n, entries.len() as int);
}

/// The first records of the merged segment are its beginning.
proof fn lemma_bytes_prefix(world: World, entries: Seq<Entry>, i: int, n: int)
    requires
        0 <= i <= n,
    ensures
        merged_bytes(world.disk, entries, i).is_prefix_of(merged_bytes(world.disk, entries, n)),
    decreases n,
{
    if i < n {
        lemma_bytes_prefix(world, entries, i, n - 1);
    }
}

/// The marks and the files once the store moved over to the merged segment: all of it is on
/// stable storage.
proof fn lemma_switch_marked(world: World, marks: Marks, entries: Seq<Entry>, s: int)
    requires
        can_merge(world, entries),
        stable(marks, world.disk),
        0 <= s <= 3,
    ensures
        ({
            let n = entries.len() as int;
            let bytes = merged_bytes(world.disk, entries, n);
            let index = merged_index(merged_id(world.state), entries, n);
            let steps = compact_moves(world, entries).take(n + 4 + s);
            &&& run(world, steps).disk == between(world, 0, bytes, true)
            &&& s == 3 ==> run(world, steps).state == switched(world.state, index)
            &&& stable(marked_by(marks, world, steps), run(world, steps).disk)
        }),
    decreases s,
{
    let id = merged_id(world.state);
    let next = (id + 1) as u64;
    let n = entries.len() as int;
    let bytes = merged_bytes(world.disk, entries, n);
    let index = merged_index(id, entries, n);
    let all = compact_moves(world, entries);
    let disk = between(world, 0, bytes, true);
    lemma_seal_marked(marks, world, entries, 3);
    assert(all.take(n + 4 + s) =~= all.take(n + 4) + switch_moves(id, index).take(s));
    lemma_run_add(world, all.take(n + 4), switch_moves(id, index).take(s));
    lemma_switching(world, disk, index, s);
    if s == 0 {
        assert(sorted(world.disk.dom()).take(0).to_set() =~= Set::empty());
        assert(disk =~= world.disk.insert(id, bytes).insert(next, Seq::empty()));
        assert(!world.disk.contains_key(id) && !world.disk.contains_key(next));
        assert(all.take(n + 4) + switch_moves(id, index).take(0) =~= all.take(n + 4));
    } else {
        lemma_switch_marked(world, marks, entries, s - 1);
        let steps = all.take(n + 4 + s);
        assert(steps.drop_last() =~= all.take(n + 3 + s));
        assert(steps.last() == switch_moves(id, index)[s - 1]);
    }
}

/// The marks while the old segments are deleted: what is left is on stable storage, and
/// only old segments may come back.
#[verifier::rlimit(40)]
proof fn lemma_removal_marked(world: World, marks: Marks, entries: Seq<Entry>, r: int)
    requires
        can_merge(world, entries),
        stable(marks, world.disk),
        0 <= r <= sorted(world.disk.dom()).len(),
    ensures
        ({
            let n = entries.len() as int;
            let bytes = merged_bytes(world.disk, entries, n);
            let steps = compact_moves(world, entries).take(n + 7 + r);
            let disk = between(world, r, bytes, true);
            let m = marked_by(marks, world, steps);
            &&& run(world, steps).disk == disk
            &&& forall|x: u64| #[trigger]
                disk.contains_key(x) ==> m.lens[x] == disk[x].len() && m.names.contains(x)
            &&& forall|x: u64| #[trigger] m.gone.contains_key(x) ==> world.disk.contains_key(x)
            &&& r == 0 ==> stable(m, disk)
        }),
    decreases r,
{
    let id = merged_id(world.state);
    let n = entries.len() as int;
    let bytes = merged_bytes(world.disk, entries, n);
    let index = merged_index(id, entries, n);
    let all = compact_moves(world, entries);
    let old_ids = sorted(world.disk.dom());
    let remove = remove_moves(old_ids);
    lemma_switch_marked(world, marks, entries, 3);
    assert(all.take(n + 7 + r) =~= all.take(n + 7) + remove.take(r));
    lemma_run_add(world, all.take(n + 7), remove.take(r));
    lemma_removing(world, bytes, switched(world.state, index), r);
    if r == 0 {
        assert(all.take(n + 7) + remove.take(0) =~= all.take(n + 7));
    } else {
        lemma_removal_marked(world, marks, entries, r - 1);
        let steps = all.take(n + 7 + r);
        let x = old_ids[r - 1];
        let before = between(world, r - 1, bytes, true);
        let disk = between(world, r, bytes, true);
        lemma_sorted(world.disk.dom());
        assert(old_ids.to_set().contains(x));
        assert(steps.drop_last() =~= all.take(n + 6 + r));
        assert(steps.last() == remove[r - 1]);
        assert(run(world, steps) == stepped(run(world, steps.drop_last()), steps.last()));
        assert(disk == before.remove(x));
        let m0 = marked_by(marks, world, steps.drop_last());
        let m = marked_by(marks, world, steps);
        assert(m == marked(m0, before, Act::Remove { id: x }));
        assert forall|y: u64| #[trigger] disk.contains_key(y) implies m.lens[y] == disk[y].len()
            && m.names.contains(y) by {
            assert(before.contains_key(y) && y != x);
            assert(m.lens[y] == m0.lens[y]);
        }
        assert forall|y: u64| #[trigger] m.gone.contains_key(y) implies world.disk.contains_key(
            y,
        ) by {
            if y != x {
                assert(m0.gone.contains_key(y));
            }
        }
    }
}

/// Once a compaction is done, all that the store holds is on stable storage.
pub proof fn law_compaction_is_stable(world: World, marks: Marks, entries: Seq<Entry>)
    requires
        can_merge(world, entries),
        stable(marks, world.disk),
    ensures
        ({
            let steps = compact_moves(world, entries);
            stable(marked_by(marks, world, steps), run(world, steps).disk)
        }),
{
    let n = entries.len() as int;
    let k = sorted(world.disk.dom()).len() as int;
    let steps = compact_moves(world, entries);
    lemma_removal_marked(world, marks, entries, k);
    assert(steps.drop_last() =~= steps.take(n + 7 + k));
    assert(steps.last() == settle_moves()[0]);
}

/// Wherever a loss of power interrupts a compaction, opening the store again gives every
/// live key its value, if all that had been written before was on stable storage. As long
/// as no old segment was deleted, and once the directory is on stable storage again, it
/// gives nothing else that it did not give before; in between, old segments that come back
/// may bring deleted keys.
pub proof fn law_power_loss_during_compaction(
    world: World,
    marks: Marks,
    entries: Seq<Entry>,
    done: int,
    torn: int,
    left: Disk,
)
    requires
        kept(world),
        can_merge(world, entries),
        stable(marks, world.disk),
        can_crash(compact_moves(world, entries), done, torn),
        can_leave(
            crashed(world, compact_moves(world, entries), done, torn),
            marked_by(marks, world, compact_moves(world, entries).take(done)),
            left,
        ),
    ensures
        live(world).submap_of(stored(left)),
        durable(world) && (done <= entries.len() + 7 || done == compact_moves(
            world,
            entries,
        ).len()) ==> stored(left) == live(world),
{
    let n = entries.len() as int;
    let k = sorted(world.disk.dom()).len() as int;
    let steps = compact_moves(world, entries);
    let disk = crashed(world, steps, done, torn);
    let m = marked_by(marks, world, steps.take(done));
    if done == 0 {
        assert(steps.take(0) =~= Seq::empty());
        assert(run(world, Seq::empty()) == world);
        lemma_stable_stays(world.disk, marks, left);
    } else if done <= n + 3 {
        lemma_power_before_names(world, marks, entries, done, torn, left);
    } else if done <= n + 7 {
        lemma_switch_marked(world, marks, entries, done - n - 4);
        assert(!(steps[done].act is Append));
        lemma_stable_stays(disk, m, left);
        law_crash_during_compaction(world, entries, done, torn);
    } else if done <= n + 7 + k {
        lemma_power_in_removal(world, marks, entries, done - n - 7, torn, left);
    } else {
        assert(steps.take(done) =~= steps);
        law_compaction_is_stable(world, marks, entries);
        lemma_stable_stays(disk, m, left);
        law_crash_during_compaction(world, entries, done, torn);
    }
}

/// A loss of power while old segments are deleted.
proof fn lemma_power_in_removal(
    world: World,
    marks: Marks,
    entries: Seq<Entry>,
    r: int,
    torn: int,
    left: Disk,
)
    requires
        kept(world),
        can_merge(world, entries),
        stable(marks, world.disk),
        0 <= r <= sorted(world.disk.dom()).len(),
        can_leave(
            crashed(world, compact_moves(world, entries), entries.len() + 7 + r, torn),
            marked_by(
                marks,
                world,
                compact_moves(world, entries).take(entries.len() + 7 + r),
            ),
            left,
        ),
    ensures
        live(world).submap_of(stored(left)),
{
    let id = merged_id(world.state);
    let next = (id + 1) as u64;
    let n = entries.len() as int;
    let steps = compact_moves(world, entries);
    let bytes = merged_bytes(world.disk, entries, n);
    let disk = between(world, r, bytes, true);
    lemma_removal_marked(world, marks, entries, r);
    assert(!(steps[n + 7 + r].act is Append));
    lemma_between_dom(world, r, bytes, true);
    assert(left.contains_key(id) && left.contains_key(next));
    assert(left[id] =~= bytes);
    assert(left[next] =~= Seq::empty());
    let all = world.disk.dom().insert(id).insert(next);
    assert forall|x: u64| #[trigger] left.contains_key(x) implies all.contains(x) && x <= next by {
        if disk.contains_key(x) {
            assert(x <= copying(world.state, true).last_id);
        } else {
            assert(world.disk.contains_key(x));
        }
    }
    assert(left.dom().subset_of(all));
    vstd::set_lib::lemma_set_subset_finite(all, left.dom());
    lemma_merged_last(world, entries, left);
}

/// Opening segments for reading brings nothing to stable storage and takes nothing from it.
proof fn lemma_marked_opening(marks: Marks, world: World, ids: Seq<u64>)
    ensures
        marked_by(marks, world, opening_moves(ids)) == marks,
    decreases ids.len(),
{
    let steps = opening_moves(ids);
    if ids.len() > 0 {
        lemma_marked_opening(marks, world, ids.drop_last());
        assert(steps.drop_last() =~= opening_moves(ids.drop_last()));
        assert(steps.last().act is OpenReader);
    }
}

/// The marks after the first `n` values were copied and segments opened for reading.
proof fn lemma_marked_mixed(
    world: World,
    marks: Marks,
    entries: Seq<Entry>,
    opens: Seq<Seq<u64>>,
    n: int,
)
    requires
        can_merge(world, entries),
        0 <= n <= entries.len(),
    ensures
        ({
            let id = merged_id(world.state);
            let steps = begin_moves(id) + mixed_copies(world.disk, id, entries, opens, n);
            marked_by(marks, world, steps) == (Marks { lens: marks.lens.insert(id, 0), ..marks })
        }),
    decreases n,
{
    let id = merged_id(world.state);
    let steps = begin_moves(id) + mixed_copies(world.disk, id, entries, opens, n);
    if n == 0 {
        lemma_marked_copies(world, marks, entries, 0);
        assert(steps =~= begin_moves(id) + copy_moves(world.disk, id, entries, 0));
    } else {
        let before = begin_moves(id) + mixed_copies(world.disk, id, entries, opens, n - 1);
        let open = opening_moves(opens[n - 1]);
        let last = copy_move(id, entries[n - 1].key@, value_at(world.disk, entries[n - 1].loc));
        let m = marked_by(marks, world, before);
        lemma_marked_mixed(world, marks, entries, opens, n - 1);
        lemma_marked_opening(m, run(world, before), opens[n - 1]);
        assert(steps =~= before + open + seq![last]);
        lemma_marked_add(marks, world, before + open, seq![last]);
        lemma_marked_add(marks, world, before, open);
        lemma_marked_one(m, run(world, before + open), last);
    }
}

/// Breaking `a` off leaves the same files and marks as breaking `b` off.
spec fn alike(
    world: World,
    marks: Marks,
    a: Seq<Move>,
    done: int,
    torn: int,
    b: Seq<Move>,
    at: int,
    part: int,
) -> bool {
    &&& can_crash(b, at, part)
    &&& crashed(world, a, done, torn) == crashed(world, b, at, part)
    &&& marked_by(marks, world, a.take(done)) == marked_by(marks, world, b.take(at))
}

/// Breaking off while values are copied and segments opened for reading leaves the files
/// as breaking off somewhere while values are only copied.
proof fn lemma_alike_in_mixed(
    world: World,
    marks: Marks,
    entries: Seq<Entry>,
    opens: Seq<Seq<u64>>,
    n: int,
    done: int,
    torn: int,
) -> (r: (int, int))
    requires
        can_merge(world, entries),
        0 <= n <= entries.len(),
        ({
            let id = merged_id(world.state);
            let steps = begin_moves(id) + mixed_copies(world.disk, id, entries, opens, n);
            0 <= done < steps.len() && can_crash(steps, done, torn)
        }),
    ensures
        0 <= r.0 <= n,
        ({
            let id = merged_id(world.state);
            let steps = begin_moves(id) + mixed_copies(world.disk, id, entries, opens, n);
            alike(world, marks, steps, done, torn, compact_moves(world, entries), r.0, r.1)
        }),
    decreases n,
{
    let id = merged_id(world.state);
    let steps = begin_moves(id) + mixed_copies(world.disk, id, entries, opens, n);
    let plain = compact_moves(world, entries);
    if done == 0 {
        assert(steps.take(0) =~= plain.take(0));
        assert(steps[0] == plain[0]);
        (0, torn)
    } else {
        let before = begin_moves(id) + mixed_copies(world.disk, id, entries, opens, n - 1);
        let open = opening_moves(opens[n - 1]);
        let e = entries[n - 1];
        let last = copy_move(id, e.key@, value_at(world.disk, e.loc));
        let l = before.len() as int;
        assert(steps =~= before + open + seq![last]);
        if done < l {
            assert(steps.take(done) =~= before.take(done));
            assert(steps[done] == before[done]);
            lemma_alike_in_mixed(world, marks, entries, opens, n - 1, done, torn)
        } else {
            let some = opens[n - 1].take(done - l);
            let copied = begin_moves(id) + copy_moves(world.disk, id, entries, n - 1);
            let w1 = run(world, before);
            let bytes = merged_bytes(world.disk, entries, n - 1);
            let disk = between(world, 0, bytes, false);
            assert(steps.take(done) =~= before + opening_moves(some));
            assert(plain.take(n) =~= copied);
            assert(plain[n] == last);
            lemma_mixed(world, entries, opens, n - 1);
            lemma_opening(w1, some);
            lemma_run_add(world, before, opening_moves(some));
            lemma_copying(world, entries, n - 1);
            lemma_marked_mixed(world, marks, entries, opens, n - 1);
            lemma_marked_copies(world, marks, entries, n - 1);
            lemma_marked_add(marks, world, before, opening_moves(some));
            lemma_marked_opening(marked_by(marks, world, before), w1, some);
            assert(run(world, steps.take(done)).disk == disk);
            assert(run(world, plain.take(n)).disk == disk);
            if done < l + open.len() {
                assert(steps[done] == open[done - l]);
                let rec = encoded(e.key@, Some(value_at(world.disk, e.loc)));
                assert(disk[id] + rec.take(0) =~= disk[id]);
                assert(disk.insert(id, disk[id]) =~= disk);
                (n, 0)
            } else {
                assert(steps[done] == last);
                (n, torn)
            }
        }
    }
}

/// Wherever a loss of power interrupts a compaction that opens segments for reading between
/// its copies, opening the store again gives every value, if all that had been written
/// before was on stable storage. Where it gave nothing else before, it gives nothing else,
/// unless the loss comes while old segments are deleted: some of them may then be back
/// without the later ones that deleted a key.
pub proof fn law_power_loss_during_compaction_with_openings(
    world: World,
    marks: Marks,
    entries: Seq<Entry>,
    opens: Seq<Seq<u64>>,
    done: int,
    torn: int,
    left: Disk,
)
    requires
        kept(world),
        can_merge(world, entries),
        stable(marks, world.disk),
        can_crash(mixed_moves(world, entries, opens), done, torn),
        can_leave(
            crashed(world, mixed_moves(world, entries, opens), done, torn),
            marked_by(marks, world, mixed_moves(world, entries, opens).take(done)),
            left,
        ),
    ensures
        live(world).submap_of(stored(left)),
        ({
            let id = merged_id(world.state);
            let steps = mixed_moves(world, entries, opens);
            let copied = mixed_copies(world.disk, id, entries, opens, entries.len() as int);
            durable(world) && (done <= copied.len() + 7 || done == steps.len()) ==> stored(left)
                == live(world)
        }),
{
    let id = merged_id(world.state);
    let n = entries.len() as int;
    let steps = mixed_moves(world, entries, opens);
    let plain = compact_moves(world, entries);
    let mixed = begin_moves(id) + mixed_copies(world.disk, id, entries, opens, n);
    let l = mixed.len() as int;
    let r = if done < l {
        assert(steps.take(done) =~= mixed.take(done));
        assert(steps[done] == mixed[done]);
        lemma_alike_in_mixed(world, marks, entries, opens, n, done, torn)
    } else {
        lemma_alike_after_mixed(world, marks, entries, opens, done, torn);
        (n + 1 + done - l, torn)
    };
    assert(alike(world, marks, steps, done, torn, plain, r.0, r.1));
    law_power_loss_during_compaction(world, marks, entries, r.0, r.1, left);
}

/// Once all values are copied, the two go on alike.
proof fn lemma_alike_after_mixed(
    world: World,
    marks: Marks,
    entries: Seq<Entry>,
    opens: Seq<Seq<u64>>,
    done: int,
    torn: int,
)
    requires
        can_merge(world, entries),
        can_crash(mixed_moves(world, entries, opens), done, torn),
        done > mixed_copies(
            world.disk,
            merged_id(world.state),
            entries,
            opens,
            entries.len() as int,
        ).len(),
    ensures
        ({
            let n = entries.len() as int;
            let copied = mixed_copies(world.disk, merged_id(world.state), entries, opens, n);
            alike(
                world,
                marks,
                mixed_moves(world, entries, opens),
                done,
                torn,
                compact_moves(world, entries),
                n + done - copied.len(),
                torn,
            )
        }),
{
    let id = merged_id(world.state);
    let n = entries.len() as int;
    let steps = mixed_moves(world, entries, opens);
    let plain = compact_moves(world, entries);
    let mixed = begin_moves(id) + mixed_copies(world.disk, id, entries, opens, n);
    let copies = begin_moves(id) + copy_moves(world.disk, id, entries, n);
    let finish = finish_moves(id, sorted(world.state.segments), merged_index(id, entries, n));
    let k = done - mixed.len();
    let some = finish.take(k);
    lemma_mixed(world, entries, opens, n);
    lemma_copying(world, entries, n);
    lemma_marked_mixed(world, marks, entries, opens, n);
    lemma_marked_copies(world, marks, entries, n);
    assert(copies.len() == n + 1) by {
        lemma_copies_len(world, entries, n);
    }
    assert(steps.take(done) =~= mixed + some);
    assert(plain =~= copies + finish);
    assert(plain.take(n + 1 + k) =~= copies + some);
    if k < finish.len() {
        assert(steps[done] == finish[k]);
        assert(plain[n + 1 + k] == finish[k]);
    }
    lemma_run_add(world, mixed, some);
    lemma_run_add(world, copies, some);
    lemma_marked_add(marks, world, mixed, some);
    lemma_marked_add(marks, world, copies, some);
    let m = marked_by(marks, world, copies);
    lemma_same_files(m, run(world, mixed), run(world, copies), some);
}

proof fn lemma_copies_len(world: World, entries: Seq<Entry>, n: int)
    requires
        0 <= n,
    ensures
        copy_moves(world.disk, merged_id(world.state), entries, n).len() == n,
    decreases n,
{
    if n > 0 {
        lemma_copies_len(world, entries, n - 1);
    }
}

/// What steps do to files does not depend on memory.
proof fn lemma_same_files(marks: Marks, a: World, b: World, steps: Seq<Move>)
    requires
        a.disk == b.disk,
    ensures
        run(a, steps).disk == run(b, steps).disk,
        marked_by(marks, a, steps) == marked_by(marks, b, steps),
    decreases steps.len(),
{
    if steps.len() > 0 {
        lemma_same_files(marks, a, b, steps.drop_last());
    }
}

/// Flushing a store whose earlier segments are on stable storage brings all that was
/// written there: a loss of power takes nothing.
pub proof fn law_flush_survives_power_loss(world: World, marks: Marks, left: Disk)
    requires
        kept(world),
        sealed(marks, world),
        can_leave(
            world.disk,
            marked_by(marks, world, seq![flush_move(world.state)]),
            left,
        ),
    ensures
        left == world.disk,
        live(world).submap_of(stored(left)),
{
    let flush = flush_move(world.state);
    law_flush_is_stable(world, marks, flush);
    lemma_stable_stays(world.disk, marked_by(marks, world, seq![flush]), left);
}

/// The marks after all of the actions, in their order.
pub open spec fn marked_all(marks: Marks, disk: Disk, acts: Seq<Act>) -> Marks
    decreases acts.len(),
{
    if acts.len() == 0 {
        marks
    } else {
        let fewer = acts.drop_last();
        marked(marked_all(marks, disk, fewer), performed_all(disk, fewer), acts.last())
    }
}

/// The actions that end the opening of a store bring the names of all its segments to
/// stable storage, also that of the first segment of a new store.
pub proof fn law_open_brings_names_to_stable_storage(disk: Disk, marks: Marks)
    requires
        disk.dom().finite(),
    ensures
        ({
            let acts = last_acts(sorted(disk.dom()));
            let after = marked_all(marks, disk, acts);
            &&& after.names == performed_all(disk, acts).dom()
            &&& after.gone == Map::<u64, Seq<u8>>::empty()
        }),
{
    let acts = last_acts(sorted(disk.dom()));
    let none = Seq::<Act>::empty();
    let a1 = none.push(acts[0]);
    let a2 = a1.push(acts[1]);
    let a3 = a2.push(acts[2]);
    assert(acts =~= a3);
    assert(a3.drop_last() =~= a2);
    assert(a2.drop_last() =~= a1);
    assert(a1.drop_last() =~= none);
    assert(performed_all(disk, none) == disk);
    assert(performed_all(disk, a1) == performed(disk, acts[0]));
    assert(performed_all(disk, a2) == performed_all(disk, a1));
    assert(performed_all(disk, a3) == performed_all(disk, a2));
    let m1 = marked_all(marks, disk, a1);
    assert(marked_all(marks, disk, a2) == marked(m1, performed_all(disk, a1), acts[1]));
    assert(marked_all(marks, disk, a3) == marked_all(marks, disk, a2));
}

} // verus!
