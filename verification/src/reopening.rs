//! What opening a store means for the values in it.

use crate::action::Act;
use crate::disk::{
    all_open, contents, durable, kept, lemma_empty_segment, lemma_grown, lemma_new_segment,
    lemma_rebuilt_push, lemma_reopened_placed, live, performed, rebuilt, reopened, run, sized,
    stored, Disk, World,
};
use crate::keydir::Index;
use crate::naming::{law_name_round_trip, seg_id, seg_name};
use crate::opening::{active_of, advanced, finished, found, unopened, Progress};
use crate::record::{encoded, value_bytes, HEADER, MAX_KV};
use crate::segment::clean;
use crate::sorting::{ascending, lemma_sorted, lemma_sorted_is, lemma_sorted_listing, sorted};
use crate::store::{delete_moves, room, set_moves};
use crate::writing::{
    law_delete_drops_the_key, law_full_segment_is_left, law_set_keeps_the_latest, write_moves,
};
use vstd::prelude::*;

verus! {

/// How far an opening is once the first `n` segments were replayed.
pub open spec fn opened(disk: Disk, p: Progress, n: int) -> Progress
    decreases n,
{
    if n <= 0 {
        p
    } else {
        advanced(opened(disk, p, n - 1), disk[p.ids[n - 1]])
    }
}

/// Files and memory once a store was opened on the files.
pub open spec fn opened_world(disk: Disk, seg_cap: u64) -> World {
    let ids = sorted(disk.dom());
    let after = performed(disk, Act::OpenAppend { id: active_of(ids) });
    let p = opened(disk, unopened(ids, seg_cap), ids.len() as int);
    World { disk: after, state: finished(p, after[active_of(ids)].len() as u64) }
}

proof fn lemma_opened(disk: Disk, ids: Seq<u64>, seg_cap: u64, n: int)
    requires
        0 <= n <= ids.len(),
    ensures
        opened(disk, unopened(ids, seg_cap), n) == (Progress {
            ids,
            at: n,
            index: rebuilt(Index::empty(), disk, ids.take(n)),
            readers: ids.take(n).to_set(),
            torn: n > 0 && !clean(disk[ids[n - 1]]),
            pos: 0,
            header: Seq::empty(),
            seg_cap,
        }),
    decreases n,
{
    let p = unopened(ids, seg_cap);
    if n > 0 {
        lemma_opened(disk, ids, seg_cap, n - 1);
        assert(ids.take(n) =~= ids.take(n - 1).push(ids[n - 1]));
        lemma_rebuilt_push(Index::empty(), disk, ids.take(n - 1), ids[n - 1]);
        assert(ids.take(n).to_set() =~= ids.take(n - 1).to_set().insert(ids[n - 1])) by {
            assert forall|id: u64| ids.take(n).contains(id) <==> ids.take(n - 1).contains(id) || id
                == ids[n - 1] by {
                if ids.take(n - 1).contains(id) {
                    let before = ids.take(n - 1);
                    let i = choose|i: int| 0 <= i < before.len() && before[i] == id;
                    assert(ids.take(n)[i] == id);
                }
                assert(ids.take(n)[n - 1] == ids[n - 1]);
            }
        }
    } else {
        assert(ids.take(n) =~= Seq::empty());
        assert(ids.take(n).to_set() =~= Set::empty());
        assert(p.at == 0);
    }
}

/// Opening a store on any files at all, whatever they end in, gives one whose memory is
/// in step with them. It has the values that replaying every segment in order gives, and
/// what is written to it is found again.
pub proof fn law_open_is_durable(disk: Disk, seg_cap: u64)
    requires
        sized(disk),
    ensures
        durable(opened_world(disk, seg_cap)),
        all_open(opened_world(disk, seg_cap)),
        live(opened_world(disk, seg_cap)) == stored(disk),
        opened_world(disk, seg_cap).state.index == reopened(disk),
        opened_world(disk, seg_cap).state.seg_cap == seg_cap,
        !opened_world(disk, seg_cap).state.sync_writes,
        disk.dom() != Set::<u64>::empty() ==> opened_world(disk, seg_cap).disk == disk,
{
    let ids = sorted(disk.dom());
    let world = opened_world(disk, seg_cap);
    lemma_sorted(disk.dom());
    lemma_opened(disk, ids, seg_cap, ids.len() as int);
    assert(ids.take(ids.len() as int) =~= ids);
    assert forall|i: int| 0 <= i < ids.len() implies disk.contains_key(#[trigger] ids[i]) by {
        assert(ids.to_set().contains(ids[i]));
    }
    lemma_reopened_placed(disk);
    if ids.len() == 0 {
        assert(disk.dom() =~= Set::empty()) by {
            assert forall|id: u64| !disk.dom().contains(id) by {
                if disk.dom().contains(id) {
                    assert(ids.to_set().contains(id));
                }
            }
        }
        assert(ids =~= Seq::empty());
        assert(ids.to_set() =~= Set::empty());
        lemma_new_segment(disk, 1);
        lemma_grown(disk, world.disk, reopened(disk));
        lemma_empty_segment(Index::empty(), 1);
        assert(world.disk.dom() =~= set![1u64]);
        assert(world.state.segments =~= set![1u64]);
    } else {
        let last = ids.last();
        assert(ids.to_set().contains(last));
        assert(world.disk == disk);
        assert forall|id: u64| #[trigger] disk.contains_key(id) implies id <= last by {
            assert(ids.to_set().contains(id));
            let i = choose|i: int| 0 <= i < ids.len() && ids[i] == id;
        }
        assert(disk.dom().insert(last) =~= disk.dom());
    }
}

/// Closing a store and opening it again gives the same values, and what is written to it
/// is found again.
pub proof fn law_reopen_restores(world: World, seg_cap: u64)
    requires
        durable(world),
    ensures
        durable(opened_world(world.disk, seg_cap)),
        live(opened_world(world.disk, seg_cap)) == live(world),
{
    law_open_is_durable(world.disk, seg_cap);
}

/// Where the files may hold deleted keys as well, opening the store again still gives
/// every key the value that it had.
pub proof fn law_reopen_keeps_values(world: World, seg_cap: u64)
    requires
        kept(world),
    ensures
        live(world).submap_of(live(opened_world(world.disk, seg_cap))),
{
    law_open_is_durable(world.disk, seg_cap);
}

/// What is set after a store was opened, on files that end in whatever a crash left, is
/// found when it is opened again, and so is all that was found before.
pub proof fn law_write_after_recovery(disk: Disk, seg_cap: u64, key: Seq<u8>, val: Seq<u8>)
    requires
        sized(disk),
        key.len() <= MAX_KV,
        val.len() <= MAX_KV,
        room(opened_world(disk, seg_cap).state, HEADER + key.len() + val.len()),
    ensures
        ({
            let world = opened_world(disk, seg_cap);
            let after = run(world, set_moves(world.state, key, val));
            contents(after.disk, reopened(after.disk)) == contents(disk, reopened(disk)).insert(
                key,
                val,
            )
        }),
{
    law_open_is_durable(disk, seg_cap);
    law_set_keeps_the_latest(opened_world(disk, seg_cap), key, val);
}

/// What is deleted after a store was opened is gone when it is opened again.
pub proof fn law_delete_after_recovery(disk: Disk, seg_cap: u64, key: Seq<u8>)
    requires
        sized(disk),
        reopened(disk).contains_key(key),
        room(opened_world(disk, seg_cap).state, HEADER + key.len()),
    ensures
        ({
            let world = opened_world(disk, seg_cap);
            let after = run(world, delete_moves(world.state, key));
            contents(after.disk, reopened(after.disk)) == contents(disk, reopened(disk)).remove(key)
        }),
{
    law_open_is_durable(disk, seg_cap);
    law_delete_drops_the_key(opened_world(disk, seg_cap), key);
}

/// The files of the segments `ids`, under their names, are found as these segments.
pub proof fn law_open_finds_every_segment(names: Seq<String>, ids: Seq<u64>)
    requires
        names.len() == ids.len(),
        forall|i: int| 0 <= i < ids.len() ==> (#[trigger] names[i])@ == seg_name(ids[i]),
    ensures
        found(names) == ids,
    decreases names.len(),
{
    if names.len() > 0 {
        let n = names.len() - 1;
        assert(names[n]@ == seg_name(ids[n]));
        law_name_round_trip(ids[n]);
        law_open_finds_every_segment(names.drop_last(), ids.drop_last());
        assert(ids =~= ids.drop_last().push(ids[n]));
    } else {
        assert(ids =~= Seq::empty());
    }
}

/// A file that is not named like a segment changes nothing.
pub proof fn law_open_passes_over_other_files(names: Seq<String>, name: String)
    requires
        seg_id(name@) is None,
    ensures
        found(names.push(name)) == found(names),
{
    assert(names.push(name).drop_last() =~= names);
}

/// The order in which a directory lists its files does not matter: the segments that
/// are found, each once, are replayed in the order of their numbers.
pub proof fn law_open_order(names: Seq<String>, ids: Seq<u64>)
    requires
        found(names).no_duplicates(),
        ascending(ids),
        ids.to_multiset() == found(names).to_multiset(),
    ensures
        ids == sorted(found(names).to_set()),
{
    lemma_sorted_listing(ids, found(names));
    lemma_sorted_is(ids);
}

/// A store that is opened goes on with the segment that has the highest number, if that
/// ends in a whole record: as long as it is below its length, the next write is appended
/// to it, and no segment is begun. In a directory without segments the first one is
/// numbered 1.
pub proof fn law_open_goes_on_with_the_last_segment(
    disk: Disk,
    seg_cap: u64,
    id: u64,
    key: Seq<u8>,
    val: Option<Seq<u8>>,
)
    requires
        sized(disk),
        disk.contains_key(id) || (id == 1 && disk.dom() == Set::<u64>::empty()),
        forall|x: u64| #[trigger] disk.contains_key(x) ==> x <= id,
        disk.contains_key(id) ==> clean(disk[id]) && disk[id].len() < seg_cap,
        seg_cap > 0,
        key.len() <= MAX_KV,
        value_bytes(val).len() <= MAX_KV,
        room(opened_world(disk, seg_cap).state, HEADER + key.len() + value_bytes(val).len()),
    ensures
        ({
            let world = opened_world(disk, seg_cap);
            let after = run(world, write_moves(world.state, key, val));
            let before = if disk.contains_key(id) {
                disk[id]
            } else {
                Seq::empty()
            };
            &&& world.state.active_id == id
            &&& after.state.active_id == id
            &&& after.disk == disk.insert(id, before + encoded(key, val))
        }),
{
    let ids = sorted(disk.dom());
    let world = opened_world(disk, seg_cap);
    lemma_sorted(disk.dom());
    law_open_is_durable(disk, seg_cap);
    lemma_opened(disk, ids, seg_cap, ids.len() as int);
    if disk.contains_key(id) {
        assert(ids.to_set().contains(id));
        let i = choose|i: int| 0 <= i < ids.len() && ids[i] == id;
        assert(ids.to_set().contains(ids.last()));
        assert(disk.contains_key(ids.last()));
        assert(ids.last() == id);
    } else {
        assert(ids.len() == 0) by {
            if ids.len() > 0 {
                assert(ids.to_set().contains(ids[0]));
            }
        }
        lemma_empty_segment(Index::empty(), id);
    }
    law_full_segment_is_left(world, key, val);
    assert(run(world, write_moves(world.state, key, val)).disk =~= disk.insert(
        id,
        world.disk[id] + encoded(key, val),
    ));
}

/// A store that is opened on a last segment which ends in a torn or corrupt record leaves
/// it as it is: the next write begins a new segment.
pub proof fn law_open_leaves_a_torn_segment(
    disk: Disk,
    seg_cap: u64,
    id: u64,
    key: Seq<u8>,
    val: Option<Seq<u8>>,
)
    requires
        sized(disk),
        disk.contains_key(id),
        forall|x: u64| #[trigger] disk.contains_key(x) ==> x <= id,
        !clean(disk[id]),
        key.len() <= MAX_KV,
        value_bytes(val).len() <= MAX_KV,
        room(opened_world(disk, seg_cap).state, HEADER + key.len() + value_bytes(val).len()),
    ensures
        ({
            let world = opened_world(disk, seg_cap);
            let after = run(world, write_moves(world.state, key, val));
            after.disk == disk.insert((id + 1) as u64, encoded(key, val))
        }),
{
    let ids = sorted(disk.dom());
    let world = opened_world(disk, seg_cap);
    lemma_sorted(disk.dom());
    law_open_is_durable(disk, seg_cap);
    lemma_opened(disk, ids, seg_cap, ids.len() as int);
    assert(ids.to_set().contains(id));
    let i = choose|i: int| 0 <= i < ids.len() && ids[i] == id;
    assert(ids.to_set().contains(ids.last()));
    assert(disk.contains_key(ids.last()));
    assert(ids.last() == id);
    law_full_segment_is_left(world, key, val);
}

} // verus!
