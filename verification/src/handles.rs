//! The files that are really open, and what that means for the steps of an operation: each
//! of them finds the file that it works on, and the store never takes a segment for open
//! that is not.

use crate::action::{Act, Move, State};
use crate::compaction::{
    begin_moves, copy_move, finish_moves, merged_index, remove_moves, seal_moves, settle_moves,
    switch_moves,
};
use crate::disk::{
    in_step, lemma_run_add, lemma_run_one, live, performed, placed, run, sized, stepped, stored,
    value_at, Disk, World,
};
use crate::keydir::{Entry, Index};
use crate::merging::{
    between, can_merge, compact_moves, copy_moves, copying, law_compaction_keeps_values,
    law_compaction_with_openings, law_opening_changes_nothing, lemma_between_dom, lemma_mixed,
    lemma_opening, lemma_reading_copies, lemma_removing, lemma_sealing, lemma_switching,
    merged_bytes, merged_id, mixed_copies, mixed_moves, opening_moves, opens_within, reading,
    switched,
};
use crate::opening::{active_of, last_acts};
use crate::record::{value_bytes, HEADER, MAX_KV};
use crate::reopening::{law_open_is_durable, opened_world};
use crate::sorting::{lemma_sorted, sorted};
use crate::store::{flush_move, open_moves, readable, roll_moves, room, sync_moves};
use crate::writing::{
    append_move, law_get_reads_the_value, lemma_part_rolled, lemma_roll, lemma_write,
    lemma_write_moves, rolled, write_moves,
};
use vstd::prelude::*;

verus! {

/// The segments that are really open.
#[verifier::ext_equal]
pub struct Handles {
    /// Those that can be read.
    pub readers: Set<u64>,
    /// Those that can be appended to and brought to stable storage.
    pub appenders: Set<u64>,
}

/// No segment is open.
pub open spec fn nothing_open() -> Handles {
    Handles { readers: Set::empty(), appenders: Set::empty() }
}

/// The open segments after an action that succeeded.
pub open spec fn handled(open: Handles, act: Act) -> Handles {
    match act {
        Act::OpenAppend { id } => Handles { appenders: open.appenders.insert(id), ..open },
        Act::OpenReader { id } => Handles { readers: open.readers.insert(id), ..open },
        Act::CloseReaders => Handles { readers: Set::empty(), ..open },
        _ => open,
    }
}

/// The open segments after all of the steps, in their order.
pub open spec fn handled_by(open: Handles, steps: Seq<Move>) -> Handles
    decreases steps.len(),
{
    if steps.len() == 0 {
        open
    } else {
        handled(handled_by(open, steps.drop_last()), steps.last().act)
    }
}

/// The action finds the file that it works on: one that is appended to or brought to
/// stable storage is open for that, and one that is opened for reading or deleted is there.
pub open spec fn possible(disk: Disk, open: Handles, act: Act) -> bool {
    match act {
        Act::OpenReader { id } => disk.contains_key(id),
        Act::Append { id, .. } => disk.contains_key(id) && open.appenders.contains(id),
        Act::Sync { id } => disk.contains_key(id) && open.appenders.contains(id),
        Act::Remove { id } => disk.contains_key(id),
        _ => true,
    }
}

/// Every segment that the store takes for open can be read, and the active one can be
/// appended to.
pub open spec fn honest(open: Handles, world: World) -> bool {
    &&& world.state.readers.subset_of(open.readers)
    &&& open.appenders.contains(world.state.active_id)
}

/// Every one of the steps finds the file that it works on, and what the store takes for
/// open is open before the first of them and after each.
pub open spec fn smooth(world: World, open: Handles, steps: Seq<Move>) -> bool
    decreases steps.len(),
{
    if steps.len() == 0 {
        honest(open, world)
    } else {
        let fewer = steps.drop_last();
        &&& smooth(world, open, fewer)
        &&& possible(run(world, fewer).disk, handled_by(open, fewer), steps.last().act)
        &&& honest(handled_by(open, steps), run(world, steps))
    }
}

proof fn lemma_handled_add(open: Handles, a: Seq<Move>, b: Seq<Move>)
    ensures
        handled_by(open, a + b) == handled_by(handled_by(open, a), b),
    decreases b.len(),
{
    if b.len() == 0 {
        assert(a + b =~= a);
    } else {
        assert((a + b).drop_last() =~= a + b.drop_last());
        lemma_handled_add(open, a, b.drop_last());
    }
}

/// Taking steps one after the other.
proof fn lemma_smooth_add(world: World, open: Handles, a: Seq<Move>, b: Seq<Move>)
    requires
        smooth(world, open, a),
        smooth(run(world, a), handled_by(open, a), b),
    ensures
        smooth(world, open, a + b),
        handled_by(open, a + b) == handled_by(handled_by(open, a), b),
        run(world, a + b) == run(run(world, a), b),
    decreases b.len(),
{
    lemma_handled_add(open, a, b);
    lemma_run_add(world, a, b);
    if b.len() == 0 {
        assert(a + b =~= a);
    } else {
        assert((a + b).drop_last() =~= a + b.drop_last());
        lemma_smooth_add(world, open, a, b.drop_last());
    }
}

/// Taking one step more.
proof fn lemma_smooth_next(world: World, open: Handles, steps: Seq<Move>, n: int)
    requires
        0 < n <= steps.len(),
        smooth(world, open, steps.take(n - 1)),
        possible(
            run(world, steps.take(n - 1)).disk,
            handled_by(open, steps.take(n - 1)),
            steps[n - 1].act,
        ),
        honest(
            handled(handled_by(open, steps.take(n - 1)), steps[n - 1].act),
            stepped(run(world, steps.take(n - 1)), steps[n - 1]),
        ),
    ensures
        smooth(world, open, steps.take(n)),
        handled_by(open, steps.take(n)) == handled(
            handled_by(open, steps.take(n - 1)),
            steps[n - 1].act,
        ),
{
    assert(steps.take(n).drop_last() =~= steps.take(n - 1));
    assert(steps.take(n).last() == steps[n - 1]);
}

/// Taking one step.
proof fn lemma_smooth_one(world: World, open: Handles, step: Move)
    requires
        honest(open, world),
        possible(world.disk, open, step.act),
        honest(handled(open, step.act), stepped(world, step)),
    ensures
        smooth(world, open, seq![step]),
        handled_by(open, seq![step]) == handled(open, step.act),
{
    assert(seq![step].take(0) =~= Seq::empty());
    assert(seq![step].take(1) =~= seq![step]);
    assert(run(world, Seq::empty()) == world);
    lemma_smooth_next(world, open, seq![step], 1);
}

/// The open segments after some of the steps that leave a full segment.
proof fn lemma_smooth_roll(world: World, open: Handles, done: int)
    requires
        in_step(world),
        honest(open, world),
        roll_moves(world.state).len() > 0,
        world.state.last_id < u64::MAX,
        0 <= done <= 4,
    ensures
        smooth(world, open, roll_moves(world.state).take(done)),
        ({
            let id = (world.state.last_id + 1) as u64;
            handled_by(open, roll_moves(world.state).take(done)) == (Handles {
                readers: if done == 4 {
                    open.readers.insert(id)
                } else {
                    open.readers
                },
                appenders: if done >= 2 {
                    open.appenders.insert(id)
                } else {
                    open.appenders
                },
            })
        }),
    decreases done,
{
    let roll = roll_moves(world.state);
    if done == 0 {
        assert(roll.take(0) =~= Seq::empty());
        assert(run(world, Seq::empty()) == world);
    } else {
        lemma_smooth_roll(world, open, done - 1);
        lemma_part_rolled(world, done - 1);
        lemma_smooth_next(world, open, roll, done);
    }
}

/// Every step of a write finds the file that it works on: the segment that it is appended
/// to was opened for that, and so was the one that is left. After each of the steps, what
/// the store takes for open is open.
pub proof fn law_write_finds_its_files(
    world: World,
    open: Handles,
    key: Seq<u8>,
    val: Option<Seq<u8>>,
)
    requires
        in_step(world),
        honest(open, world),
        key.len() <= MAX_KV,
        value_bytes(val).len() <= MAX_KV,
        room(world.state, HEADER + key.len() + value_bytes(val).len()),
    ensures
        smooth(world, open, write_moves(world.state, key, val)),
{
    let roll = roll_moves(world.state);
    let append = append_move(rolled(world).state, key, val);
    let sync = sync_moves(world.state);
    lemma_write_moves(world, key, val);
    lemma_roll(world);
    if roll.len() > 0 {
        lemma_smooth_roll(world, open, 4);
        lemma_part_rolled(world, 4);
        assert(roll.take(4) =~= roll);
    } else {
        assert(roll =~= Seq::empty());
        assert(run(world, roll) == world);
    }
    let h = handled_by(open, roll);
    lemma_smooth_one(rolled(world), h, append);
    lemma_smooth_add(world, open, roll, seq![append]);
    if world.state.sync_writes {
        let written = run(world, roll + seq![append]);
        lemma_run_one(rolled(world), append);
        lemma_smooth_one(written, h, sync[0]);
        assert(sync =~= seq![sync[0]]);
        lemma_smooth_add(world, open, roll + seq![append], sync);
    } else {
        assert(sync =~= Seq::empty());
        assert(roll + seq![append] + sync =~= roll + seq![append]);
    }
}

/// Flushing finds the file that it brings to stable storage.
pub proof fn law_flush_finds_its_file(world: World, open: Handles)
    requires
        in_step(world),
        honest(open, world),
    ensures
        smooth(world, open, seq![flush_move(world.state)]),
        run(world, seq![flush_move(world.state)]) == world,
{
    lemma_run_one(world, flush_move(world.state));
    lemma_smooth_one(world, open, flush_move(world.state));
}

/// A value is read from a file that is really open: once the steps that `get` asks for
/// were taken, the place that it gives lies in such a file, and holds the value.
pub proof fn law_get_finds_its_file(world: World, open: Handles, key: Seq<u8>)
    requires
        in_step(world),
        honest(open, world),
        live(world).contains_key(key),
    ensures
        ({
            let loc = world.state.index[key];
            let steps = open_moves(world.state, loc.file_id);
            let after = run(world, steps);
            &&& smooth(world, open, steps)
            &&& readable(loc) matches Ok(place) && {
                &&& handled_by(open, steps).readers.contains(place.file_id)
                &&& placed(after.disk, place)
                &&& value_at(after.disk, place) == live(world)[key]
            }
            &&& after.disk == world.disk
            &&& live(after) == live(world)
            &&& open_moves(after.state, loc.file_id).len() == 0
        }),
{
    let loc = world.state.index[key];
    let steps = open_moves(world.state, loc.file_id);
    assert(placed(world.disk, loc));
    law_get_reads_the_value(world, key);
    law_opening_changes_nothing(world, loc.file_id);
    if steps.len() > 0 {
        assert(steps =~= seq![steps[0]]);
        lemma_smooth_one(world, open, steps[0]);
    } else {
        assert(steps =~= Seq::empty());
    }
}

/// Opening segments for reading.
proof fn lemma_smooth_opening(world: World, open: Handles, ids: Seq<u64>)
    requires
        honest(open, world),
        forall|i: int| 0 <= i < ids.len() ==> world.disk.contains_key(#[trigger] ids[i]),
    ensures
        smooth(world, open, opening_moves(ids)),
        handled_by(open, opening_moves(ids)).appenders == open.appenders,
    decreases ids.len(),
{
    let steps = opening_moves(ids);
    let n = ids.len() as int;
    if n > 0 {
        let fewer = ids.drop_last();
        lemma_smooth_opening(world, open, fewer);
        lemma_opening(world, fewer);
        assert(steps.take(n - 1) =~= opening_moves(fewer));
        assert(world.disk.contains_key(ids[n - 1]));
        lemma_smooth_next(world, open, steps, n);
        assert(steps.take(n) =~= steps);
    }
}

/// The first steps of a compaction: values are copied, and segments opened for reading.
proof fn lemma_smooth_copies(
    world: World,
    open: Handles,
    entries: Seq<Entry>,
    opens: Seq<Seq<u64>>,
    n: int,
)
    requires
        can_merge(world, entries),
        honest(open, world),
        0 <= n <= entries.len(),
        opens_within(opens, n, world.disk.dom()),
    ensures
        ({
            let id = merged_id(world.state);
            let steps = begin_moves(id) + mixed_copies(world.disk, id, entries, opens, n);
            &&& smooth(world, open, steps)
            &&& handled_by(open, steps).appenders == open.appenders.insert(id)
        }),
    decreases n,
{
    let id = merged_id(world.state);
    let begin = begin_moves(id);
    let steps = begin + mixed_copies(world.disk, id, entries, opens, n);
    if n == 0 {
        assert(steps =~= seq![begin[0]]);
        lemma_smooth_one(world, open, begin[0]);
    } else {
        let before = begin + mixed_copies(world.disk, id, entries, opens, n - 1);
        let ids = opens[n - 1];
        let last = copy_move(id, entries[n - 1].key@, value_at(world.disk, entries[n - 1].loc));
        let w1 = run(world, before);
        let h1 = handled_by(open, before);
        let bytes = merged_bytes(world.disk, entries, n - 1);
        assert(opens_within(opens, n - 1, world.disk.dom()));
        lemma_smooth_copies(world, open, entries, opens, n - 1);
        lemma_mixed(world, entries, opens, n - 1);
        lemma_between_dom(world, 0, bytes, false);
        let none = sorted(world.disk.dom()).take(0).to_set();
        assert(none =~= Set::empty());
        assert forall|j: int| 0 <= j < ids.len() implies w1.disk.contains_key(#[trigger] ids[j]) by {
            assert(world.disk.dom().contains(opens[n - 1][j]));
        }
        lemma_smooth_honest(world, open, before);
        lemma_smooth_opening(w1, h1, ids);
        lemma_opening(w1, ids);
        let w2 = run(w1, opening_moves(ids));
        let h2 = handled_by(h1, opening_moves(ids));
        lemma_smooth_honest(w1, h1, opening_moves(ids));
        lemma_smooth_one(w2, h2, last);
        lemma_smooth_add(world, open, before, opening_moves(ids));
        lemma_smooth_add(world, open, before + opening_moves(ids), seq![last]);
        assert(steps =~= before + opening_moves(ids) + seq![last]);
    }
}

/// What the store takes for open is open once the steps were taken.
proof fn lemma_smooth_honest(world: World, open: Handles, steps: Seq<Move>)
    requires
        smooth(world, open, steps),
    ensures
        honest(handled_by(open, steps), run(world, steps)),
{
}

/// Sealing the merged segment.
proof fn lemma_smooth_seal(world: World, open: Handles, bytes: Seq<u8>, s: int)
    requires
        in_step(world),
        world.state.last_id < u64::MAX - 1,
        honest(open, world),
        open.appenders.contains(merged_id(world.state)),
        0 <= s <= 3,
    ensures
        ({
            let from = World {
                disk: between(world, 0, bytes, false),
                state: copying(world.state, false),
            };
            let id = merged_id(world.state);
            let steps = seal_moves(id).take(s);
            &&& smooth(from, open, steps)
            &&& handled_by(open, steps) == (Handles {
                appenders: if s >= 2 {
                    open.appenders.insert((id + 1) as u64)
                } else {
                    open.appenders
                },
                ..open
            })
        }),
    decreases s,
{
    let from = World { disk: between(world, 0, bytes, false), state: copying(world.state, false) };
    let seal = seal_moves(merged_id(world.state));
    lemma_between_dom(world, 0, bytes, false);
    if s == 0 {
        assert(seal.take(0) =~= Seq::empty());
    } else {
        lemma_smooth_seal(world, open, bytes, s - 1);
        lemma_sealing(world, bytes, s - 1);
        lemma_smooth_next(from, open, seal, s);
    }
}

/// Moving over to the merged segment.
proof fn lemma_smooth_switch(world: World, open: Handles, bytes: Seq<u8>, index: Index, s: int)
    requires
        in_step(world),
        world.state.last_id < u64::MAX - 1,
        honest(open, world),
        open.appenders.contains((merged_id(world.state) + 1) as u64),
        0 <= s <= 3,
    ensures
        ({
            let from = World {
                disk: between(world, 0, bytes, true),
                state: copying(world.state, true),
            };
            let id = merged_id(world.state);
            let steps = switch_moves(id, index).take(s);
            &&& smooth(from, open, steps)
            &&& handled_by(open, steps).appenders == open.appenders
        }),
    decreases s,
{
    let disk = between(world, 0, bytes, true);
    let from = World { disk, state: copying(world.state, true) };
    let switch = switch_moves(merged_id(world.state), index);
    lemma_between_dom(world, 0, bytes, true);
    if s == 0 {
        assert(switch.take(0) =~= Seq::empty());
    } else {
        lemma_smooth_switch(world, open, bytes, index, s - 1);
        lemma_switching(world, disk, index, s - 1);
        lemma_smooth_honest(from, open, switch.take(s - 1));
        lemma_smooth_next(from, open, switch, s);
    }
}

/// Deleting the old segments.
proof fn lemma_smooth_removal(world: World, open: Handles, bytes: Seq<u8>, state: State, r: int)
    requires
        in_step(world),
        world.state.last_id < u64::MAX - 1,
        honest(open, (World { disk: between(world, 0, bytes, true), state })),
        0 <= r <= sorted(world.disk.dom()).len(),
    ensures
        ({
            let from = World { disk: between(world, 0, bytes, true), state };
            let steps = remove_moves(sorted(world.disk.dom())).take(r);
            smooth(from, open, steps) && handled_by(open, steps) == open
        }),
    decreases r,
{
    let all = sorted(world.disk.dom());
    let from = World { disk: between(world, 0, bytes, true), state };
    let steps = remove_moves(all);
    if r == 0 {
        assert(steps.take(0) =~= Seq::empty());
    } else {
        lemma_smooth_removal(world, open, bytes, state, r - 1);
        lemma_removing(world, bytes, state, r - 1);
        lemma_sorted(world.disk.dom());
        assert(all.to_set().contains(all[r - 1]));
        assert(world.disk.contains_key(all[r - 1]));
        let gone = all.take(r - 1);
        assert(!gone.to_set().contains(all[r - 1])) by {
            assert forall|i: int| 0 <= i < r - 1 implies gone[i] != all[r - 1] by {}
        }
        assert(between(world, r - 1, bytes, true).contains_key(all[r - 1]));
        lemma_smooth_next(from, open, steps, r);
    }
}

/// The last steps of a compaction.
#[verifier::rlimit(40)]
proof fn lemma_smooth_finish(world: World, open: Handles, bytes: Seq<u8>, index: Index)
    requires
        in_step(world),
        world.state.last_id < u64::MAX - 1,
        honest(open, world),
        open.appenders.contains(merged_id(world.state)),
    ensures
        smooth(
            World { disk: between(world, 0, bytes, false), state: copying(world.state, false) },
            open,
            finish_moves(merged_id(world.state), sorted(world.disk.dom()), index),
        ),
{
    let id = merged_id(world.state);
    let all = sorted(world.disk.dom());
    let k = all.len() as int;
    let seal = seal_moves(id);
    let switch = switch_moves(id, index);
    let remove = remove_moves(all);
    let w1 = World { disk: between(world, 0, bytes, false), state: copying(world.state, false) };
    let w2 = World { disk: between(world, 0, bytes, true), state: copying(world.state, true) };
    let w3 = World { disk: between(world, 0, bytes, true), state: switched(world.state, index) };
    assert(seal.take(3) =~= seal);
    assert(switch.take(3) =~= switch);
    assert(remove.take(k) =~= remove);
    lemma_smooth_seal(world, open, bytes, 3);
    lemma_sealing(world, bytes, 3);
    let h2 = handled_by(open, seal);
    lemma_smooth_switch(world, h2, bytes, index, 3);
    lemma_switching(world, between(world, 0, bytes, true), index, 3);
    let h3 = handled_by(h2, switch);
    lemma_smooth_honest(w2, h2, switch);
    lemma_smooth_removal(world, h3, bytes, w3.state, k);
    lemma_smooth_honest(w3, h3, remove);
    let w4 = run(w3, remove);
    let settle = settle_moves();
    assert(settle =~= seq![settle[0]]);
    lemma_smooth_one(w4, h3, settle[0]);
    lemma_smooth_add(w1, open, seal, switch);
    lemma_smooth_add(w1, open, seal + switch, remove);
    lemma_smooth_add(w1, open, seal + switch + remove, settle);
}

/// Every step of a compaction finds the file that it works on, also where segments are
/// opened for reading between the copies. After each of the steps, what the store takes for
/// open is open: it never moves over to a segment that it cannot read.
pub proof fn law_compaction_finds_its_files(
    world: World,
    open: Handles,
    entries: Seq<Entry>,
    opens: Seq<Seq<u64>>,
)
    requires
        can_merge(world, entries),
        honest(open, world),
        opens_within(opens, entries.len() as int, world.disk.dom()),
    ensures
        smooth(world, open, mixed_moves(world, entries, opens)),
{
    let id = merged_id(world.state);
    let n = entries.len() as int;
    let first = begin_moves(id) + mixed_copies(world.disk, id, entries, opens, n);
    let bytes = merged_bytes(world.disk, entries, n);
    let index = merged_index(id, entries, n);
    lemma_smooth_copies(world, open, entries, opens, n);
    lemma_mixed(world, entries, opens, n);
    let readers = run(world, first).state.readers;
    let from = reading(world, readers);
    lemma_reading_copies(world, entries, readers);
    lemma_smooth_honest(world, open, first);
    let h = handled_by(open, first);
    assert(honest(h, from));
    assert(between(from, 0, bytes, false) == between(world, 0, bytes, false));
    lemma_smooth_finish(from, h, bytes, index);
    lemma_smooth_add(
        world,
        open,
        first,
        finish_moves(id, sorted(world.state.segments), index),
    );
}

/// Every step of a compaction of a store whose segments are all open finds the file that it
/// works on, and after each of the steps what the store takes for open is open.
pub proof fn law_plain_compaction_finds_its_files(
    world: World,
    open: Handles,
    entries: Seq<Entry>,
)
    requires
        can_merge(world, entries),
        honest(open, world),
    ensures
        smooth(world, open, compact_moves(world, entries)),
{
    let id = merged_id(world.state);
    let n = entries.len() as int;
    let opens = Seq::new(entries.len(), |i: int| Seq::<u64>::empty());
    lemma_no_openings(world, entries, opens, n);
    law_compaction_finds_its_files(world, open, entries, opens);
}

proof fn lemma_no_openings(world: World, entries: Seq<Entry>, opens: Seq<Seq<u64>>, n: int)
    requires
        0 <= n <= entries.len(),
        opens == Seq::new(entries.len(), |i: int| Seq::<u64>::empty()),
    ensures
        mixed_copies(world.disk, merged_id(world.state), entries, opens, n) == copy_moves(
            world.disk,
            merged_id(world.state),
            entries,
            n,
        ),
    decreases n,
{
    let id = merged_id(world.state);
    if n > 0 {
        lemma_no_openings(world, entries, opens, n - 1);
        assert(opening_moves(opens[n - 1]) =~= Seq::empty());
    }
    assert(mixed_copies(world.disk, id, entries, opens, n) =~= copy_moves(
        world.disk,
        id,
        entries,
        n,
    ));
}

/// The files after all of the actions, in their order.
pub open spec fn performed_all(disk: Disk, acts: Seq<Act>) -> Disk
    decreases acts.len(),
{
    if acts.len() == 0 {
        disk
    } else {
        performed(performed_all(disk, acts.drop_last()), acts.last())
    }
}

/// The open segments after all of the actions, in their order.
pub open spec fn handled_all(open: Handles, acts: Seq<Act>) -> Handles
    decreases acts.len(),
{
    if acts.len() == 0 {
        open
    } else {
        handled(handled_all(open, acts.drop_last()), acts.last())
    }
}

/// Every one of the actions finds the file that it works on.
pub open spec fn all_possible(disk: Disk, open: Handles, acts: Seq<Act>) -> bool
    decreases acts.len(),
{
    if acts.len() == 0 {
        true
    } else {
        let fewer = acts.drop_last();
        &&& all_possible(disk, open, fewer)
        &&& possible(performed_all(disk, fewer), handled_all(open, fewer), acts.last())
    }
}

/// The segments are opened for reading as they are replayed.
pub open spec fn reading_acts(ids: Seq<u64>) -> Seq<Act> {
    ids.map_values(|id: u64| Act::OpenReader { id })
}

proof fn lemma_reading_acts(disk: Disk, open: Handles, ids: Seq<u64>)
    requires
        forall|i: int| 0 <= i < ids.len() ==> disk.contains_key(#[trigger] ids[i]),
    ensures
        all_possible(disk, open, reading_acts(ids)),
        performed_all(disk, reading_acts(ids)) == disk,
        handled_all(open, reading_acts(ids)).appenders == open.appenders,
        forall|i: int|
            0 <= i < ids.len() ==> handled_all(open, reading_acts(ids)).readers.contains(
                #[trigger] ids[i],
            ),
    decreases ids.len(),
{
    let acts = reading_acts(ids);
    if ids.len() > 0 {
        let fewer = ids.drop_last();
        lemma_reading_acts(disk, open, fewer);
        assert(acts.drop_last() =~= reading_acts(fewer));
        assert(disk.contains_key(ids[ids.len() - 1]));
        assert forall|i: int| 0 <= i < ids.len() implies handled_all(open, acts).readers.contains(
            #[trigger] ids[i],
        ) by {
            if i < ids.len() - 1 {
                assert(fewer[i] == ids[i]);
            }
        }
    }
}

/// A store that was opened on any files, new or not, can be used: once every segment was
/// opened for reading and the last actions were carried out, each of which finds its file,
/// the files are those that the store knows of, every segment can be read, and the active
/// one can be appended to and brought to stable storage.
pub proof fn law_open_makes_ready(disk: Disk, seg_cap: u64)
    requires
        disk.dom().finite(),
        forall|id: u64| #[trigger] disk.contains_key(id) ==> disk[id].len() <= u64::MAX,
    ensures
        ({
            let ids = sorted(disk.dom());
            let acts = reading_acts(ids) + last_acts(ids);
            let world = opened_world(disk, seg_cap);
            &&& all_possible(disk, nothing_open(), acts)
            &&& performed_all(disk, acts) == world.disk
            &&& honest(handled_all(nothing_open(), acts), world)
            &&& world.disk.dom().subset_of(handled_all(nothing_open(), acts).readers)
        }),
{
    let ids = sorted(disk.dom());
    let first = reading_acts(ids);
    let last = last_acts(ids);
    let acts = first + last;
    let none = nothing_open();
    let world = opened_world(disk, seg_cap);
    let id = active_of(ids);
    lemma_sorted(disk.dom());
    law_open_is_durable(disk, seg_cap);
    assert forall|i: int| 0 <= i < ids.len() implies disk.contains_key(#[trigger] ids[i]) by {
        assert(ids.to_set().contains(ids[i]));
    }
    lemma_reading_acts(disk, none, ids);
    let a1 = first.push(last[0]);
    let a2 = a1.push(last[1]);
    let a3 = a2.push(last[2]);
    assert(acts =~= a3);
    assert(a3.drop_last() =~= a2);
    assert(a2.drop_last() =~= a1);
    assert(a1.drop_last() =~= first);
    let h = handled_all(none, acts);
    let h0 = handled_all(none, first);
    let h1 = handled_all(none, a1);
    assert(h1 == handled(h0, last[0]));
    assert(handled_all(none, a2) == h1);
    assert(h == handled(h1, last[2]));
    let d1 = performed_all(disk, a1);
    assert(d1 == performed(disk, last[0]));
    assert(performed_all(disk, a2) == d1);
    assert(performed_all(disk, a3) == d1);
    assert(all_possible(disk, none, a1));
    assert(all_possible(disk, none, a2));
    assert forall|x: u64| world.disk.contains_key(x) implies h.readers.contains(x) by {
        if x != id {
            assert(disk.contains_key(x));
            assert(ids.to_set().contains(x));
            let i = choose|i: int| 0 <= i < ids.len() && ids[i] == x;
            assert(handled_all(none, first).readers.contains(ids[i]));
        }
    }
}

/// The value of `key` can be read from a file that is really open: the steps that `get`
/// asks for find their files, the place that it gives lies in an open file, and `val` is
/// what stands there.
pub open spec fn reads(world: World, open: Handles, key: Seq<u8>, val: Seq<u8>) -> bool {
    let loc = world.state.index[key];
    let steps = open_moves(world.state, loc.file_id);
    &&& world.state.index.contains_key(key)
    &&& smooth(world, open, steps)
    &&& readable(loc) matches Ok(place) && {
        &&& handled_by(open, steps).readers.contains(place.file_id)
        &&& placed(run(world, steps).disk, place)
        &&& value_at(run(world, steps).disk, place) == val
    }
}

/// What was set is read: right after a write, the key has the new value, or none where it
/// was deleted, and every other key that had a value still has it; all of them can be read
/// from open files.
pub proof fn law_what_is_set_is_read(
    world: World,
    open: Handles,
    key: Seq<u8>,
    val: Option<Seq<u8>>,
    other: Seq<u8>,
)
    requires
        in_step(world),
        honest(open, world),
        key.len() <= MAX_KV,
        value_bytes(val).len() <= MAX_KV,
        room(world.state, HEADER + key.len() + value_bytes(val).len()),
        other != key,
    ensures
        ({
            let steps = write_moves(world.state, key, val);
            let after = run(world, steps);
            let h = handled_by(open, steps);
            &&& match val {
                Some(v) => reads(after, h, key, v),
                None => !after.state.index.contains_key(key),
            }
            &&& after.state.index.contains_key(other) == world.state.index.contains_key(other)
            &&& world.state.index.contains_key(other) ==> reads(
                after,
                h,
                other,
                live(world)[other],
            )
        }),
{
    let steps = write_moves(world.state, key, val);
    let after = run(world, steps);
    let h = handled_by(open, steps);
    law_write_finds_its_files(world, open, key, val);
    lemma_smooth_honest(world, open, steps);
    lemma_write(world, key, val);
    assert(live(after).dom() =~= after.state.index.dom());
    assert(live(world).dom() =~= world.state.index.dom());
    assert(live(after).contains_key(other) == live(world).contains_key(other));
    if live(world).contains_key(other) {
        law_get_finds_its_file(after, h, other);
    }
    if val is Some {
        assert(live(after).contains_key(key));
        law_get_finds_its_file(after, h, key);
    } else {
        assert(!live(after).contains_key(key));
    }
}

/// Every value can be read after a compaction, from the segment that it was copied to,
/// which is really open, and no key is added.
pub proof fn law_what_is_compacted_is_read(
    world: World,
    open: Handles,
    entries: Seq<Entry>,
    opens: Seq<Seq<u64>>,
    key: Seq<u8>,
)
    requires
        can_merge(world, entries),
        honest(open, world),
        opens_within(opens, entries.len() as int, world.disk.dom()),
    ensures
        ({
            let steps = mixed_moves(world, entries, opens);
            let after = run(world, steps);
            let h = handled_by(open, steps);
            &&& after.state.index.contains_key(key) == world.state.index.contains_key(key)
            &&& world.state.index.contains_key(key) ==> reads(after, h, key, live(world)[key])
                && !world.disk.contains_key(after.state.index[key].file_id)
        }),
{
    let steps = mixed_moves(world, entries, opens);
    let after = run(world, steps);
    let h = handled_by(open, steps);
    law_compaction_finds_its_files(world, open, entries, opens);
    lemma_smooth_honest(world, open, steps);
    law_compaction_with_openings(world, entries, opens);
    law_compaction_keeps_values(world, entries);
    assert(live(after).dom() =~= after.state.index.dom());
    assert(live(world).dom() =~= world.state.index.dom());
    if world.state.index.contains_key(key) {
        assert(live(after).contains_key(key));
        law_get_finds_its_file(after, h, key);
        assert(placed(after.disk, after.state.index[key]));
        assert(after.disk.dom().contains(after.state.index[key].file_id));
    }
}

/// Every value that the files hold can be read once a store was opened on them, from files
/// that are really open.
pub proof fn law_what_is_stored_is_read(disk: Disk, seg_cap: u64, key: Seq<u8>)
    requires
        sized(disk),
        stored(disk).contains_key(key),
    ensures
        ({
            let ids = sorted(disk.dom());
            let h = handled_all(nothing_open(), reading_acts(ids) + last_acts(ids));
            reads(opened_world(disk, seg_cap), h, key, stored(disk)[key])
        }),
{
    let ids = sorted(disk.dom());
    let h = handled_all(nothing_open(), reading_acts(ids) + last_acts(ids));
    law_open_is_durable(disk, seg_cap);
    law_open_makes_ready(disk, seg_cap);
    law_get_finds_its_file(opened_world(disk, seg_cap), h, key);
}

} // verus!
