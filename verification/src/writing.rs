//! What reading, setting and deleting keys means for a store, on disk and in memory.

use crate::action::{after_failure, fits, full, needed, Act, Eff, Move, State};
use crate::disk::{
    all_open, all_placed, appendable, broken_off, can_crash, contents, crashed, durable, grown, in_step, kept,
    lemma_empty_segment, lemma_grown, lemma_new_segment, lemma_rebuilt_push, lemma_rebuilt_same,
    lemma_reopened_placed, lemma_run_add, lemma_run_one, lemma_sorted_last, live, placed, rebuilt,
    reopened, run, sized, stepped, stored, value_at, Disk, World,
};
use crate::keydir::{Index, Loc};
use crate::record::{encoded, lemma_encoded_len, value_bytes, HEADER, MAX_KV};
use crate::segment::{
    applied, clean, law_replay_appended_delete, law_replay_appended_set, law_torn_write_is_discarded,
    place_of, replayed, Rec,
};
use crate::sorting::sorted;
use crate::store::{
    delete_moves, open_moves, readable, roll_moves, room, set_moves, sync_moves, target_id,
    target_pos, with_sync, StoreError,
};
use vstd::prelude::*;

verus! {

/// Files and memory after the steps that leave a full segment were taken.
pub open spec fn rolled(world: World) -> World {
    run(world, roll_moves(world.state))
}

/// Files and memory after the first `done` of the steps that leave a full segment.
pub open spec fn part_rolled(world: World, done: int) -> World {
    let id = target_id(world.state);
    let disk = world.disk.insert(id, Seq::empty());
    let created = State {
        last_id: id,
        segments: world.state.segments.insert(id),
        ..world.state
    };
    let moved = State { active_id: id, active_len: 0, spent: false, ..created };
    if done <= 1 {
        world
    } else if done == 2 {
        World { disk, state: created }
    } else if done == 3 {
        World { disk, state: moved }
    } else {
        World { disk, state: State { readers: moved.readers.insert(id), ..moved } }
    }
}

/// Taking some of the steps that leave a full segment.
pub proof fn lemma_part_rolled(world: World, done: int)
    requires
        in_step(world),
        full(world.state),
        world.state.last_id < u64::MAX,
        0 <= done <= 4,
    ensures
        run(world, roll_moves(world.state).take(done)) == part_rolled(world, done),
    decreases done,
{
    let roll = roll_moves(world.state);
    assert(!world.disk.contains_key(target_id(world.state)));
    if done > 0 {
        lemma_part_rolled(world, done - 1);
        assert(roll.take(done).drop_last() =~= roll.take(done - 1));
        assert(roll.take(done).last() == roll[done - 1]);
    } else {
        assert(roll.take(0) =~= Seq::empty());
    }
}

/// Wherever leaving a full segment is broken off, no value has changed.
proof fn lemma_part_rolled_keeps(world: World, done: int)
    requires
        in_step(world),
        full(world.state),
        world.state.last_id < u64::MAX,
        0 <= done <= 4,
    ensures
        in_step(part_rolled(world, done)),
        live(part_rolled(world, done)) == live(world),
        stored(part_rolled(world, done).disk) == stored(world.disk),
        done >= 3 ==> clean(part_rolled(world, done).disk[target_id(world.state)]),
{
    let id = target_id(world.state);
    let after = part_rolled(world, done);
    lemma_new_segment(world.disk, id);
    lemma_grown(world.disk, world.disk.insert(id, Seq::empty()), world.state.index);
    lemma_empty_segment(Index::empty(), id);
    assert(world.disk.insert(id, Seq::empty()).dom() =~= world.disk.dom().insert(id));
}

/// Leaving a full segment for a new one changes no value, and what is written next goes
/// behind whole records.
pub proof fn lemma_roll(world: World)
    requires
        in_step(world),
        full(world.state) ==> world.state.last_id < u64::MAX,
    ensures
        in_step(rolled(world)),
        live(rolled(world)) == live(world),
        stored(rolled(world).disk) == stored(world.disk),
        appendable(world) ==> clean(rolled(world).disk[target_id(world.state)]),
        rolled(world).state.active_id == target_id(world.state),
        rolled(world).state.last_id == target_id(world.state),
        rolled(world).state.active_len == target_pos(world.state),
        !rolled(world).state.spent,
        rolled(world).state.index == world.state.index,
        all_open(world) ==> all_open(rolled(world)),
        rolled(world).state.seg_cap == world.state.seg_cap,
        rolled(world).state.sync_writes == world.state.sync_writes,
        rolled(world).disk == (if full(world.state) {
            world.disk.insert(target_id(world.state), Seq::empty())
        } else {
            world.disk
        }),
        full(world.state) ==> !world.disk.contains_key(target_id(world.state)),
{
    let roll = roll_moves(world.state);
    if full(world.state) {
        assert(roll.take(4) =~= roll);
        assert(world.disk.insert(target_id(world.state), Seq::empty()).dom()
            =~= world.disk.dom().insert(target_id(world.state)));
        lemma_part_rolled(world, 4);
        lemma_part_rolled_keeps(world, 4);
    } else {
        assert(roll =~= Seq::empty());
    }
}

/// The files with bytes appended to the active segment.
pub open spec fn extended(world: World, bytes: Seq<u8>) -> Disk {
    world.disk.insert(world.state.active_id, world.disk[world.state.active_id] + bytes)
}

proof fn lemma_extended(world: World, bytes: Seq<u8>)
    requires
        in_step(world),
    ensures
        grown(world.disk, extended(world, bytes)),
        extended(world, bytes).dom() == world.disk.dom(),
{
    let disk = extended(world, bytes);
    let id = world.state.active_id;
    assert forall|x: u64| #[trigger] world.disk.contains_key(x) implies disk.contains_key(x)
        && world.disk[x].is_prefix_of(disk[x]) by {
        if x == id {
            assert(world.disk[x].is_prefix_of(world.disk[x] + bytes));
        }
    }
    assert(disk.dom() =~= world.disk.dom());
}

/// Opening a store replays the segment with the highest number last, behind what the
/// others gave.
proof fn lemma_extended_reopened(world: World, bytes: Seq<u8>)
    requires
        in_step(world),
        world.state.active_id == world.state.last_id,
    ensures
        ({
            let id = world.state.active_id;
            let before = rebuilt(Index::empty(), world.disk, sorted(world.disk.dom().remove(id)));
            &&& reopened(world.disk) == replayed(before, id, world.disk[id])
            &&& reopened(extended(world, bytes)) == replayed(before, id, world.disk[id] + bytes)
        }),
{
    let id = world.state.active_id;
    let disk = extended(world, bytes);
    let others = sorted(world.disk.dom().remove(id));
    lemma_extended(world, bytes);
    lemma_sorted_last(world.disk.dom(), id);
    lemma_rebuilt_push(Index::empty(), world.disk, others, id);
    lemma_rebuilt_push(Index::empty(), disk, others, id);
    assert forall|i: int| 0 <= i < others.len() implies world.disk[#[trigger] others[i]]
        == disk[others[i]] by {
        assert(others.contains(others[i]));
    }
    lemma_rebuilt_same(Index::empty(), world.disk, disk, others);
}

/// The step that appends the record for `key` and `val` to the active segment.
pub open spec fn append_move(state: State, key: Seq<u8>, val: Option<Seq<u8>>) -> Move {
    let rec = encoded(key, val);
    Move {
        act: Act::Append { id: state.active_id, bytes: rec },
        eff: match val {
            Some(v) => Eff::Put {
                key,
                loc: place_of(state.active_id, state.active_len as int, key, v),
                len: rec.len() as u64,
            },
            None => Eff::Gone { key, len: rec.len() as u64 },
        },
    }
}

/// The values after `key` was set to `val`, or deleted.
pub open spec fn with_value(
    values: Map<Seq<u8>, Seq<u8>>,
    key: Seq<u8>,
    val: Option<Seq<u8>>,
) -> Map<Seq<u8>, Seq<u8>> {
    match val {
        Some(v) => values.insert(key, v),
        None => values.remove(key),
    }
}

/// The steps of setting `key` to `val`, or of deleting it.
pub open spec fn write_moves(state: State, key: Seq<u8>, val: Option<Seq<u8>>) -> Seq<Move> {
    match val {
        Some(v) => set_moves(state, key, v),
        None => delete_moves(state, key),
    }
}

/// A record behind the active segment gives its key the new value, and no other key.
proof fn lemma_applied(world: World, index: Index, key: Seq<u8>, val: Option<Seq<u8>>)
    requires
        in_step(world),
        all_placed(world.disk, index),
        key.len() <= MAX_KV,
        value_bytes(val).len() <= MAX_KV,
        world.disk[world.state.active_id].len() + HEADER + key.len() + value_bytes(val).len()
            <= u64::MAX,
    ensures
        ({
            let id = world.state.active_id;
            let disk = extended(world, encoded(key, val));
            let after = applied(index, id, Rec { pos: world.disk[id].len() as int, key, val });
            &&& all_placed(disk, after)
            &&& contents(disk, after) == with_value(contents(world.disk, index), key, val)
        }),
{
    let id = world.state.active_id;
    let rec = encoded(key, val);
    let disk = extended(world, rec);
    let after = applied(index, id, Rec { pos: world.disk[id].len() as int, key, val });
    let old_values = contents(world.disk, index);
    lemma_encoded_len(key, val);
    lemma_extended(world, rec);
    lemma_grown(world.disk, disk, index);
    assert(disk.contains_key(id));
    if let Some(v) = val {
        assert(value_at(disk, after[key]) =~= v);
    }
    assert forall|k: Seq<u8>| #[trigger] after.contains_key(k) implies k.len() <= MAX_KV && placed(
        disk,
        after[k],
    ) by {
        if k != key {
            assert(index.contains_key(k));
        }
    }
    let moved = contents(disk, index);
    assert forall|k: Seq<u8>| k != key && after.contains_key(k) implies value_at(disk, after[k])
        == #[trigger] old_values[k] by {
        assert(moved[k] == old_values[k]);
    }
    assert(contents(disk, after) =~= with_value(old_values, key, val));
}

proof fn lemma_append(world: World, key: Seq<u8>, val: Option<Seq<u8>>)
    requires
        in_step(world),
        world.state.active_id == world.state.last_id,
        !world.state.spent,
        key.len() <= MAX_KV,
        value_bytes(val).len() <= MAX_KV,
        world.state.active_len + HEADER + key.len() + value_bytes(val).len() <= u64::MAX,
    ensures
        ({
            let after = stepped(world, append_move(world.state, key, val));
            let id = world.state.active_id;
            &&& in_step(after)
            &&& after.disk == extended(world, encoded(key, val))
            &&& live(after) == with_value(live(world), key, val)
            &&& clean(world.disk[id]) ==> clean(after.disk[id]) && stored(after.disk) == with_value(
                stored(world.disk),
                key,
                val,
            )
        }),
{
    let rec = encoded(key, val);
    let id = world.state.active_id;
    let bytes = world.disk[id];
    let after = stepped(world, append_move(world.state, key, val));
    lemma_encoded_len(key, val);
    lemma_extended(world, rec);
    lemma_applied(world, world.state.index, key, val);
    assert(after.disk == extended(world, rec));
    assert(after.state.index == applied(
        world.state.index,
        id,
        Rec { pos: bytes.len() as int, key, val },
    ));
    if clean(bytes) {
        lemma_reopened_placed(world.disk);
        lemma_applied(world, reopened(world.disk), key, val);
        lemma_extended_reopened(world, rec);
        let before = rebuilt(Index::empty(), world.disk, sorted(world.disk.dom().remove(id)));
        match val {
            Some(v) => law_replay_appended_set(before, id, bytes, key, v),
            None => law_replay_appended_delete(before, id, bytes, key),
        }
    }
}

/// The steps of a write, and what they come to.
pub proof fn lemma_write_moves(world: World, key: Seq<u8>, val: Option<Seq<u8>>)
    requires
        in_step(world),
        full(world.state) ==> world.state.last_id < u64::MAX,
    ensures
        write_moves(world.state, key, val) == roll_moves(world.state) + seq![
            append_move(rolled(world).state, key, val),
        ] + sync_moves(world.state),
        run(world, write_moves(world.state, key, val)) == stepped(
            rolled(world),
            append_move(rolled(world).state, key, val),
        ),
        run(
            world,
            write_moves(world.state, key, val).take(roll_moves(world.state).len() as int + 1),
        ) == run(world, write_moves(world.state, key, val)),
{
    lemma_roll(world);
    let roll = roll_moves(world.state);
    let append = append_move(rolled(world).state, key, val);
    let sync = sync_moves(world.state);
    let steps = write_moves(world.state, key, val);
    assert(steps =~= roll + seq![append] + sync);
    assert(steps.take(roll.len() as int + 1) =~= roll + seq![append]);
    lemma_run_add(world, roll + seq![append], sync);
    lemma_run_add(world, roll, seq![append]);
    lemma_run_one(rolled(world), append);
    let written = stepped(rolled(world), append);
    if world.state.sync_writes {
        lemma_run_one(written, sync[0]);
        assert(sync =~= seq![sync[0]]);
    } else {
        assert(sync =~= Seq::empty());
    }
}

/// What a write comes to.
#[verifier::rlimit(40)]
pub proof fn lemma_write(world: World, key: Seq<u8>, val: Option<Seq<u8>>)
    requires
        in_step(world),
        key.len() <= MAX_KV,
        value_bytes(val).len() <= MAX_KV,
        room(world.state, HEADER + key.len() + value_bytes(val).len()),
    ensures
        ({
            let after = run(world, write_moves(world.state, key, val));
            &&& in_step(after)
            &&& live(after) == with_value(live(world), key, val)
            &&& appendable(world) ==> appendable(after) && stored(after.disk) == with_value(
                stored(world.disk),
                key,
                val,
            )
            &&& kept(world) ==> kept(after)
            &&& durable(world) ==> durable(after)
            &&& all_open(world) ==> all_open(after)
        }),
{
    lemma_write_moves(world, key, val);
    lemma_roll(world);
    lemma_append(rolled(world), key, val);
    lemma_extended(rolled(world), encoded(key, val));
}

/// Once the steps of a `set` were taken, the key has the new value, whatever it had
/// before, and every other key has the value that it had. What the files alone held,
/// they hold with the new value.
pub proof fn law_set_keeps_the_latest(world: World, key: Seq<u8>, val: Seq<u8>)
    requires
        in_step(world),
        key.len() <= MAX_KV,
        val.len() <= MAX_KV,
        room(world.state, HEADER + key.len() + val.len()),
    ensures
        ({
            let after = run(world, set_moves(world.state, key, val));
            &&& in_step(after)
            &&& live(after) == live(world).insert(key, val)
            &&& kept(world) ==> kept(after)
            &&& durable(world) ==> durable(after)
            &&& all_open(world) ==> all_open(after)
        }),
{
    lemma_write(world, key, Some(val));
}

/// Once the steps of a `delete` were taken, the key is gone, and every other key has
/// the value that it had. What the files alone held, they hold without the key.
pub proof fn law_delete_drops_the_key(world: World, key: Seq<u8>)
    requires
        in_step(world),
        world.state.index.contains_key(key),
        room(world.state, HEADER + key.len()),
    ensures
        ({
            let after = run(world, delete_moves(world.state, key));
            &&& in_step(after)
            &&& live(after) == live(world).remove(key)
            &&& kept(world) ==> kept(after)
            &&& durable(world) ==> durable(after)
            &&& all_open(world) ==> all_open(after)
        }),
{
    lemma_write(world, key, None);
}

/// A write moves nothing that was written before: it adds to the active segment or to
/// a new one, and leaves every other segment as it is.
pub proof fn law_writes_only_append(
    world: World,
    key: Seq<u8>,
    val: Option<Seq<u8>>,
    id: u64,
)
    requires
        in_step(world),
        key.len() <= MAX_KV,
        value_bytes(val).len() <= MAX_KV,
        room(world.state, HEADER + key.len() + value_bytes(val).len()),
        world.disk.contains_key(id),
    ensures
        ({
            let after = run(world, write_moves(world.state, key, val));
            &&& after.disk.contains_key(id)
            &&& world.disk[id].is_prefix_of(after.disk[id])
            &&& id != world.state.active_id || full(world.state) ==> after.disk[id]
                == world.disk[id]
        }),
{
    lemma_write_moves(world, key, val);
    lemma_roll(world);
}

/// Whoever takes the steps of a write in their order can report each of them: its
/// effect fits what the steps before it left.
pub proof fn law_write_steps_fit(world: World, key: Seq<u8>, val: Option<Seq<u8>>, i: int)
    requires
        in_step(world),
        key.len() <= MAX_KV,
        value_bytes(val).len() <= MAX_KV,
        room(world.state, HEADER + key.len() + value_bytes(val).len()),
        0 <= i < write_moves(world.state, key, val).len(),
    ensures
        ({
            let steps = write_moves(world.state, key, val);
            fits(run(world, steps.take(i)).state, steps[i].eff)
        }),
{
    let steps = write_moves(world.state, key, val);
    let roll = roll_moves(world.state);
    lemma_write_moves(world, key, val);
    lemma_roll(world);
    lemma_encoded_len(key, val);
    if i == roll.len() {
        assert(steps.take(i) =~= roll);
    }
}

/// A read is one read: where every segment is open, no step comes before it, and the
/// place that `get` gives for a key holds its value.
pub proof fn law_get_reads_the_value(world: World, key: Seq<u8>)
    requires
        in_step(world),
        world.state.index.contains_key(key),
    ensures
        ({
            let loc = world.state.index[key];
            &&& all_open(world) ==> open_moves(world.state, loc.file_id).len() == 0
            &&& readable(loc) == Ok::<_, StoreError>(loc)
            &&& placed(world.disk, loc)
            &&& value_at(world.disk, loc) == live(world)[key]
        }),
{
    assert(placed(world.disk, world.state.index[key]));
}

/// Wherever a crash interrupts a write, opening the store again gives what it gave before
/// the write, or the same with the new value, and nothing else. It gives the new value
/// exactly if the whole record was written.
pub proof fn law_crash_during_write(
    world: World,
    key: Seq<u8>,
    val: Option<Seq<u8>>,
    done: int,
    torn: int,
)
    requires
        kept(world),
        key.len() <= MAX_KV,
        value_bytes(val).len() <= MAX_KV,
        room(world.state, HEADER + key.len() + value_bytes(val).len()),
        can_crash(write_moves(world.state, key, val), done, torn),
    ensures
        ({
            let at = roll_moves(world.state).len();
            stored(crashed(world, write_moves(world.state, key, val), done, torn)) == if done < at
                || (done == at && torn < encoded(key, val).len()) {
                stored(world.disk)
            } else {
                with_value(stored(world.disk), key, val)
            }
        }),
{
    lemma_broken_off(world, key, val, done, torn);
}

/// Where a write breaks off, the store has the values from before it, or, once the
/// record was appended, those from after it.
#[verifier::rlimit(40)]
proof fn lemma_broken_off(
    world: World,
    key: Seq<u8>,
    val: Option<Seq<u8>>,
    done: int,
    torn: int,
)
    requires
        in_step(world),
        appendable(world),
        key.len() <= MAX_KV,
        value_bytes(val).len() <= MAX_KV,
        room(world.state, HEADER + key.len() + value_bytes(val).len()),
        can_crash(write_moves(world.state, key, val), done, torn),
    ensures
        ({
            let after = broken_off(world, write_moves(world.state, key, val), done, torn);
            let at = roll_moves(world.state).len();
            &&& in_step(World { disk: after.disk, state: State { spent: true, ..after.state } })
            &&& live(after) == if done <= at {
                live(world)
            } else {
                with_value(live(world), key, val)
            }
            &&& stored(after.disk) == if done < at || (done == at && torn < encoded(
                key,
                val,
            ).len()) {
                stored(world.disk)
            } else {
                with_value(stored(world.disk), key, val)
            }
        }),
{
    let steps = write_moves(world.state, key, val);
    let roll = roll_moves(world.state);
    let at = roll.len() as int;
    lemma_write_moves(world, key, val);
    if done < at {
        assert(steps.take(done) =~= roll.take(done));
        assert(steps[done] == roll[done]);
        lemma_part_rolled(world, done);
        lemma_part_rolled_keeps(world, done);
    } else if done == at {
        assert(steps.take(done) =~= roll);
        assert(steps[at] == append_move(rolled(world).state, key, val));
        lemma_roll(world);
        lemma_torn_append(rolled(world), key, val, torn);
    } else {
        if done < steps.len() {
            assert(steps[done] == sync_moves(world.state)[0]);
        } else {
            assert(steps.take(done) =~= steps);
        }
        lemma_write(world, key, val);
    }
}

/// An append that breaks off leaves all of the old values, or all of the new ones where
/// the whole record was written.
proof fn lemma_torn_append(world: World, key: Seq<u8>, val: Option<Seq<u8>>, torn: int)
    requires
        in_step(world),
        world.state.active_id == world.state.last_id,
        !world.state.spent,
        clean(world.disk[world.state.active_id]),
        key.len() <= MAX_KV,
        value_bytes(val).len() <= MAX_KV,
        world.state.active_len + HEADER + key.len() + value_bytes(val).len() <= u64::MAX,
        0 <= torn <= encoded(key, val).len(),
    ensures
        ({
            let disk = extended(world, encoded(key, val).take(torn));
            &&& in_step(World { disk, state: State { spent: true, ..world.state } })
            &&& contents(disk, world.state.index) == live(world)
            &&& stored(disk) == if torn < encoded(key, val).len() {
                stored(world.disk)
            } else {
                with_value(stored(world.disk), key, val)
            }
        }),
{
    let rec = encoded(key, val);
    let id = world.state.active_id;
    let part = rec.take(torn);
    let disk = extended(world, part);
    lemma_encoded_len(key, val);
    lemma_extended(world, part);
    lemma_grown(world.disk, disk, world.state.index);
    assert(sized(disk));
    if torn < rec.len() {
        let before = rebuilt(Index::empty(), world.disk, sorted(world.disk.dom().remove(id)));
        lemma_extended_reopened(world, part);
        law_torn_write_is_discarded(before, id, world.disk[id], key, val, torn);
        lemma_reopened_placed(world.disk);
        lemma_grown(world.disk, disk, reopened(world.disk));
    } else {
        assert(part =~= rec);
        lemma_append(world, key, val);
    }
}

/// A store whose write broke off, and which was told so, is in step with its files, and
/// what it writes next goes behind whole records.
#[verifier::rlimit(40)]
proof fn lemma_failed(
    world: World,
    key: Seq<u8>,
    val: Option<Seq<u8>>,
    done: int,
    torn: int,
    len: Option<u64>,
)
    requires
        in_step(world),
        appendable(world),
        key.len() <= MAX_KV,
        value_bytes(val).len() <= MAX_KV,
        room(world.state, HEADER + key.len() + value_bytes(val).len()),
        can_crash(write_moves(world.state, key, val), done, torn),
        ({
            let broken = broken_off(world, write_moves(world.state, key, val), done, torn);
            len matches Some(len) ==> len == broken.disk[broken.state.active_id].len()
        }),
    ensures
        ({
            let broken = broken_off(world, write_moves(world.state, key, val), done, torn);
            let after = World { disk: broken.disk, state: after_failure(broken.state, len) };
            in_step(after) && appendable(after)
        }),
{
    let steps = write_moves(world.state, key, val);
    let roll = roll_moves(world.state);
    let at = roll.len() as int;
    let broken = broken_off(world, steps, done, torn);
    lemma_broken_off(world, key, val, done, torn);
    lemma_write_moves(world, key, val);
    lemma_roll(world);
    if done < at {
        assert(steps.take(done) =~= roll.take(done));
        assert(steps[done] == roll[done]);
        lemma_part_rolled(world, done);
        lemma_part_rolled_keeps(world, done);
    } else if done == at {
        let rec = encoded(key, val);
        assert(steps.take(done) =~= roll);
        assert(steps[at] == append_move(rolled(world).state, key, val));
        if torn == 0 {
            assert(rec.take(0) =~= Seq::empty());
            assert(broken.disk[target_id(world.state)] =~= rolled(world).disk[target_id(
                world.state,
            )]);
        }
    } else {
        if done < steps.len() {
            assert(steps[done] == sync_moves(world.state)[0]);
        } else {
            assert(steps.take(done) =~= steps);
        }
        lemma_append(rolled(world), key, val);
    }
}

/// Where a step of a write failed and the failure was reported, with the length that the
/// active segment then had or without it, the store goes on with the values from before
/// the write, or, if only bringing it to stable storage failed, with those from after it.
/// What it writes from then on is found again, and so is what it held. Only where the whole
/// record was written in spite of the failure do the files hold the new value alone.
pub proof fn law_failed_write(
    world: World,
    key: Seq<u8>,
    val: Option<Seq<u8>>,
    done: int,
    torn: int,
    len: Option<u64>,
)
    requires
        kept(world),
        key.len() <= MAX_KV,
        value_bytes(val).len() <= MAX_KV,
        room(world.state, HEADER + key.len() + value_bytes(val).len()),
        can_crash(write_moves(world.state, key, val), done, torn),
        done < write_moves(world.state, key, val).len(),
        ({
            let broken = broken_off(world, write_moves(world.state, key, val), done, torn);
            len matches Some(len) ==> len == broken.disk[broken.state.active_id].len()
        }),
    ensures
        ({
            let broken = broken_off(world, write_moves(world.state, key, val), done, torn);
            let after = World { disk: broken.disk, state: after_failure(broken.state, len) };
            let at = roll_moves(world.state).len();
            &&& in_step(after)
            &&& appendable(after)
            &&& live(after) == if done <= at {
                live(world)
            } else {
                with_value(live(world), key, val)
            }
            &&& if done == at && torn == encoded(key, val).len() {
                stored(after.disk) == with_value(stored(world.disk), key, val)
            } else {
                &&& kept(after)
                &&& durable(world) ==> durable(after)
                &&& stored(after.disk) == if done <= at {
                    stored(world.disk)
                } else {
                    with_value(stored(world.disk), key, val)
                }
            }
        }),
{
    lemma_broken_off(world, key, val, done, torn);
    lemma_failed(world, key, val, done, torn, len);
}

/// Where the active segment is found to be as long as noted, a failed write changes
/// nothing about where the next one goes.
pub proof fn law_failure_without_trace(state: State)
    ensures
        after_failure(state, Some(state.active_len)) == state,
{
}

/// Where every write is to be on stable storage before it returns, the last step of
/// a write brings the segment that it was appended to there.
pub proof fn law_synced_write_ends_in_sync(state: State, key: Seq<u8>, val: Option<Seq<u8>>)
    requires
        state.sync_writes,
    ensures
        ({
            let moves = write_moves(state, key, val);
            let n = moves.len();
            &&& n >= 2
            &&& moves[n - 1].act == (Act::Sync { id: target_id(state) })
            &&& moves[n - 2].act == (Act::Append { id: target_id(state), bytes: encoded(key, val) })
        }),
{
}

/// A full segment is brought to stable storage before it is left for a new one, and so
/// is the new one's name before anything is written to it.
pub proof fn law_left_segment_is_synced(state: State)
    requires
        full(state),
    ensures
        roll_moves(state)[0].act == (Act::Sync { id: state.active_id }),
        roll_moves(state)[1].act == (Act::OpenAppend { id: (state.last_id + 1) as u64 }),
        roll_moves(state)[2].act == Act::SyncDir,
{
}

/// A write goes on with the active segment as long as that is below its length, sound, and
/// the last one; otherwise it leaves every segment as it is and begins a new one, with the
/// next number, which holds the record and nothing else. Either way the segment written to
/// is then the active one, sound, and the last one, and what the store was set up with
/// stays.
pub proof fn law_full_segment_is_left(world: World, key: Seq<u8>, val: Option<Seq<u8>>)
    requires
        in_step(world),
        key.len() <= MAX_KV,
        value_bytes(val).len() <= MAX_KV,
        room(world.state, HEADER + key.len() + value_bytes(val).len()),
    ensures
        ({
            let before = world.state;
            let after = run(world, write_moves(world.state, key, val));
            let id = after.state.active_id;
            let rec = encoded(key, val);
            &&& if before.active_len < before.seg_cap && !before.spent && before.active_id
                == before.last_id {
                &&& id == before.active_id
                &&& after.disk == world.disk.insert(id, world.disk[id] + rec)
                &&& after.state.active_len == before.active_len + rec.len()
                &&& after.state.segments == before.segments
            } else {
                &&& id == before.last_id + 1
                &&& !world.disk.contains_key(id)
                &&& after.disk == world.disk.insert(id, rec)
                &&& after.state.active_len == rec.len()
                &&& after.state.segments == before.segments.insert(id)
            }
            &&& !after.state.spent
            &&& after.state.last_id == id
            &&& after.state.seg_cap == before.seg_cap
            &&& after.state.sync_writes == before.sync_writes
        }),
{
    lemma_write_moves(world, key, val);
    lemma_roll(world);
    lemma_encoded_len(key, val);
    let id = target_id(world.state);
    let rec = encoded(key, val);
    let after = run(world, write_moves(world.state, key, val));
    if full(world.state) {
        lemma_part_rolled(world, 4);
        assert(roll_moves(world.state).take(4) =~= roll_moves(world.state));
        assert(Seq::<u8>::empty() + rec =~= rec);
        assert(after.disk =~= world.disk.insert(id, rec));
    } else {
        assert(roll_moves(world.state) =~= Seq::empty());
    }
}

/// No write begins at or behind the length at which a segment is left, so no segment that
/// is written to grows longer than that and one record.
pub proof fn law_segments_stay_bounded(
    world: World,
    key: Seq<u8>,
    val: Option<Seq<u8>>,
    id: u64,
)
    requires
        in_step(world),
        key.len() <= MAX_KV,
        value_bytes(val).len() <= MAX_KV,
        room(world.state, HEADER + key.len() + value_bytes(val).len()),
        run(world, write_moves(world.state, key, val)).disk.contains_key(id),
    ensures
        ({
            let after = run(world, write_moves(world.state, key, val));
            &&& world.disk.contains_key(id) && world.disk[id].len() >= world.state.seg_cap
                ==> after.disk[id] == world.disk[id]
            &&& !world.disk.contains_key(id) || after.disk[id] != world.disk[id]
                ==> after.disk[id].len() <= world.state.seg_cap + encoded(key, val).len()
        }),
{
    law_full_segment_is_left(world, key, val);
}

/// A write is refused for want of room only where numbers above 64 bits would be needed.
pub proof fn law_room_is_there(state: State, len: int)
    requires
        state.last_id < u64::MAX,
        state.active_len + len <= u64::MAX,
    ensures
        room(state, len),
{
}

/// A write appends one record, once, and that as its last step or, where every write is to
/// be on stable storage, with one step behind it that brings this segment there. It deletes
/// nothing, and fails where any of its steps does.
pub proof fn law_write_appends_once(world: World, key: Seq<u8>, val: Option<Seq<u8>>)
    requires
        in_step(world),
        key.len() <= MAX_KV,
        value_bytes(val).len() <= MAX_KV,
        room(world.state, HEADER + key.len() + value_bytes(val).len()),
    ensures
        ({
            let steps = write_moves(world.state, key, val);
            let id = run(world, steps).state.active_id;
            let at = if world.state.sync_writes {
                steps.len() - 2
            } else {
                steps.len() - 1
            };
            &&& 0 <= at
            &&& steps[at].act == (Act::Append { id, bytes: encoded(key, val) })
            &&& at + 1 < steps.len() ==> steps[at + 1].act == (Act::Sync { id })
            &&& forall|i: int|
                0 <= i < steps.len() ==> {
                    &&& (#[trigger] steps[i]).act is Append ==> i == at
                    &&& !(steps[i].act is Remove)
                    &&& needed(steps[i].act)
                }
        }),
{
    lemma_write_moves(world, key, val);
    lemma_roll(world);
}

/// A failure that is reported changes nothing that the store was set up with, nor what it
/// knows of segments and values.
pub proof fn law_failure_keeps_the_rest(state: State, len: Option<u64>)
    ensures
        after_failure(state, len) == (State { spent: after_failure(state, len).spent, ..state }),
        state.spent ==> after_failure(state, len).spent,
        len != Some(state.active_len) ==> after_failure(state, len).spent,
{
}

/// The place of a value is given exactly as the index has it, and only a value above the
/// limit is refused.
pub proof fn law_readable_up_to_the_limit(loc: Loc)
    ensures
        loc.val_len <= MAX_KV <==> readable(loc) is Ok,
        readable(loc) matches Ok(place) ==> place == loc,
        readable(loc) matches Err(e) ==> e == StoreError::ValueTooLong,
{
}

/// As many keys are counted as have a value, and as many segments as there are files.
pub proof fn law_counts(world: World)
    requires
        in_step(world),
    ensures
        live(world).dom() == world.state.index.dom(),
        world.state.segments.len() == world.disk.dom().len(),
{
    assert(live(world).dom() =~= world.state.index.dom());
}

/// Turning it on that every write is brought to stable storage adds one step behind each,
/// which brings the segment there that the record was appended to; turning it off takes
/// that step away; and neither changes anything else about a write.
pub proof fn law_sync_writes_adds_a_sync(state: State, key: Seq<u8>, val: Option<Seq<u8>>)
    ensures
        ({
            let on = write_moves(with_sync(state, true), key, val);
            let off = write_moves(with_sync(state, false), key, val);
            &&& off.len() > 0
            &&& off.last().act is Append
            &&& on.drop_last() == off
            &&& on.last() == (Move {
                act: Act::Sync { id: off.last().act->Append_id },
                eff: Eff::Nothing,
            })
        }),
        with_sync(state, true).sync_writes,
        !with_sync(state, false).sync_writes,
        forall|on: bool| #[trigger] with_sync(with_sync(state, on), state.sync_writes) == state,
{
    let on = write_moves(with_sync(state, true), key, val);
    let off = write_moves(with_sync(state, false), key, val);
    assert(on.drop_last() =~= off);
}

} // verus!
