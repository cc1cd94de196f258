//! What the files of a store hold, and how the steps of an operation change them.

use crate::action::{affected, full, Act, Move, State};
use crate::keydir::{Index, Loc};
use crate::record::MAX_KV;
use crate::segment::{clean, folded, lemma_scan_stands, replayed, scan, stands_in, Rec};
use crate::sorting::{lemma_sorted, lemma_sorted_is, sorted};
use vstd::prelude::*;

verus! {

/// The bytes of each segment.
pub type Disk = Map<u64, Seq<u8>>;

/// The files and the memory of a store.
pub struct World {
    pub disk: Disk,
    pub state: State,
}

/// The files after an action that succeeded.
pub open spec fn performed(disk: Disk, act: Act) -> Disk {
    match act {
        Act::OpenAppend { id } => if disk.contains_key(id) {
            disk
        } else {
            disk.insert(id, Seq::empty())
        },
        Act::Append { id, bytes } => disk.insert(id, disk[id] + bytes),
        Act::Remove { id } => disk.remove(id),
        _ => disk,
    }
}

/// Files and memory after a step that succeeded.
pub open spec fn stepped(world: World, step: Move) -> World {
    World { disk: performed(world.disk, step.act), state: affected(world.state, step.eff) }
}

/// Files and memory after all of the steps, in their order.
pub open spec fn run(world: World, steps: Seq<Move>) -> World
    decreases steps.len(),
{
    if steps.len() == 0 {
        world
    } else {
        stepped(run(world, steps.drop_last()), steps.last())
    }
}

/// The files that a crash leaves: the first `done` steps were taken, and, where the
/// next one appends to a segment, `torn` bytes of it.
pub open spec fn crashed(world: World, steps: Seq<Move>, done: int, torn: int) -> Disk {
    let disk = run(world, steps.take(done)).disk;
    if done < steps.len() && steps[done].act is Append {
        let id = steps[done].act->Append_id;
        disk.insert(id, disk[id] + steps[done].act->bytes.take(torn))
    } else {
        disk
    }
}

/// A crash can come after `done` whole steps and `torn` bytes of an append.
pub open spec fn can_crash(steps: Seq<Move>, done: int, torn: int) -> bool {
    &&& 0 <= done <= steps.len()
    &&& done < steps.len() && steps[done].act is Append ==> 0 <= torn
        <= steps[done].act->bytes.len()
}

/// The value at a place.
pub open spec fn value_at(disk: Disk, loc: Loc) -> Seq<u8> {
    disk[loc.file_id].subrange(loc.val_pos as int, loc.val_pos + loc.val_len)
}

/// The value of each key.
pub open spec fn contents(disk: Disk, index: Index) -> Map<Seq<u8>, Seq<u8>> {
    Map::new(|key: Seq<u8>| index.contains_key(key), |key: Seq<u8>| value_at(disk, index[key]))
}

/// The index after replaying the segments `ids`, in their order, from `index` on.
pub open spec fn rebuilt(index: Index, disk: Disk, ids: Seq<u64>) -> Index
    decreases ids.len(),
{
    if ids.len() == 0 {
        index
    } else {
        replayed(rebuilt(index, disk, ids.drop_last()), ids.last(), disk[ids.last()])
    }
}

/// The index that opening a store on these files rebuilds.
pub open spec fn reopened(disk: Disk) -> Index {
    rebuilt(Index::empty(), disk, sorted(disk.dom()))
}

/// The segments are finitely many, and each length is within 64 bits.
pub open spec fn sized(disk: Disk) -> bool {
    &&& disk.dom().finite()
    &&& forall|id: u64| #[trigger] disk.contains_key(id) ==> disk[id].len() <= u64::MAX
}

/// The place lies within its segment.
pub open spec fn placed(disk: Disk, loc: Loc) -> bool {
    &&& disk.contains_key(loc.file_id)
    &&& loc.val_pos + loc.val_len <= disk[loc.file_id].len()
    &&& loc.val_len <= MAX_KV
}

/// Every value lies within its segment, and no key is above `MAX_KV`.
pub open spec fn all_placed(disk: Disk, index: Index) -> bool {
    forall|key: Seq<u8>| #[trigger]
        index.contains_key(key) ==> key.len() <= MAX_KV && placed(disk, index[key])
}

/// The memory is in step with the files: every value is where the index says, the
/// segments are the ones noted, none has a higher number than noted, and the active
/// one, unless nothing more may be appended to it, is as long as noted.
pub open spec fn in_step(world: World) -> bool {
    &&& sized(world.disk)
    &&& world.disk.contains_key(world.state.active_id)
    &&& world.state.active_id <= world.state.last_id
    &&& forall|id: u64| #[trigger] world.disk.contains_key(id) ==> id <= world.state.last_id
    &&& !world.state.spent ==> world.disk[world.state.active_id].len() == world.state.active_len
    &&& world.state.segments == world.disk.dom()
    &&& world.state.readers.subset_of(world.disk.dom())
    &&& all_placed(world.disk, world.state.index)
}

/// Every segment is open for reading.
pub open spec fn all_open(world: World) -> bool {
    world.state.readers == world.disk.dom()
}

/// The value of each key, as the store gives it.
pub open spec fn live(world: World) -> Map<Seq<u8>, Seq<u8>> {
    contents(world.disk, world.state.index)
}

/// The value of each key, as a store that is opened on the files gives it.
pub open spec fn stored(disk: Disk) -> Map<Seq<u8>, Seq<u8>> {
    contents(disk, reopened(disk))
}

/// What is written next is found again: it goes behind whole records only.
pub open spec fn appendable(world: World) -> bool {
    !full(world.state) ==> clean(world.disk[world.state.active_id])
}

/// The files alone hold every value of the store, and what is written next is found
/// again. They may hold deleted keys as well.
pub open spec fn kept(world: World) -> bool {
    &&& in_step(world)
    &&& appendable(world)
    &&& live(world).submap_of(stored(world.disk))
}

/// The files alone hold what the store holds and nothing else, and what is written next
/// is found again.
pub open spec fn durable(world: World) -> bool {
    &&& in_step(world)
    &&& appendable(world)
    &&& live(world) == stored(world.disk)
}

/// Files and memory where the step behind the first `done` ones failed. One that
/// appends may have left `torn` bytes.
pub open spec fn broken_off(world: World, steps: Seq<Move>, done: int, torn: int) -> World {
    World { disk: crashed(world, steps, done, torn), state: run(world, steps.take(done)).state }
}

/// Taking steps one after the other.
pub proof fn lemma_run_add(world: World, a: Seq<Move>, b: Seq<Move>)
    ensures
        run(world, a + b) == run(run(world, a), b),
    decreases b.len(),
{
    if b.len() == 0 {
        assert(a + b =~= a);
    } else {
        assert((a + b).drop_last() =~= a + b.drop_last());
        lemma_run_add(world, a, b.drop_last());
    }
}

/// Taking one step.
pub proof fn lemma_run_one(world: World, step: Move)
    ensures
        run(world, seq![step]) == stepped(world, step),
{
    assert(seq![step].drop_last() =~= Seq::empty());
    assert(run(world, Seq::empty()) == world);
}

/// Replaying one list of segments after the other.
pub proof fn lemma_rebuilt_add(index: Index, disk: Disk, a: Seq<u64>, b: Seq<u64>)
    ensures
        rebuilt(index, disk, a + b) == rebuilt(rebuilt(index, disk, a), disk, b),
    decreases b.len(),
{
    if b.len() == 0 {
        assert(a + b =~= a);
    } else {
        assert((a + b).drop_last() =~= a + b.drop_last());
        lemma_rebuilt_add(index, disk, a, b.drop_last());
    }
}

/// Only the segments that are replayed matter.
pub proof fn lemma_rebuilt_same(index: Index, a: Disk, b: Disk, ids: Seq<u64>)
    requires
        forall|i: int| 0 <= i < ids.len() ==> a[#[trigger] ids[i]] == b[ids[i]],
    ensures
        rebuilt(index, a, ids) == rebuilt(index, b, ids),
    decreases ids.len(),
{
    if ids.len() > 0 {
        lemma_rebuilt_same(index, a, b, ids.drop_last());
        assert(a[ids[ids.len() - 1]] == b[ids[ids.len() - 1]]);
    }
}

/// Replaying one more segment.
pub proof fn lemma_rebuilt_push(index: Index, disk: Disk, ids: Seq<u64>, id: u64)
    ensures
        rebuilt(index, disk, ids.push(id)) == replayed(rebuilt(index, disk, ids), id, disk[id]),
{
    assert(ids.push(id).drop_last() =~= ids);
}

/// A segment without bytes leaves the index as it is, and is whole.
pub proof fn lemma_empty_segment(index: Index, id: u64)
    ensures
        replayed(index, id, Seq::empty()) == index,
        clean(Seq::empty()),
{
    assert(Seq::<u8>::empty().skip(0).len() == 0);
    assert(scan(Seq::empty(), 0) =~= Seq::empty());
}

/// A new highest number comes last.
pub proof fn lemma_sorted_push(ids: Set<u64>, id: u64)
    requires
        ids.finite(),
        forall|x: u64| #[trigger] ids.contains(x) ==> x < id,
    ensures
        sorted(ids.insert(id)) == sorted(ids).push(id),
{
    lemma_sorted(ids);
    let list = sorted(ids);
    let more = list.push(id);
    assert forall|i: int, j: int| 0 <= i < j < more.len() implies more[i] < more[j] by {
        if j == list.len() {
            assert(list.to_set().contains(list[i]));
        }
    }
    assert(more.to_set() =~= ids.insert(id)) by {
        assert forall|x: u64| more.contains(x) <==> ids.insert(id).contains(x) by {
            assert(list.contains(x) == list.to_set().contains(x));
            if list.contains(x) {
                let i = choose|i: int| 0 <= i < list.len() && list[i] == x;
                assert(more[i] == x);
            }
            assert(more[list.len() as int] == id);
        }
    }
    lemma_sorted_is(more);
}

/// The highest number comes last.
pub proof fn lemma_sorted_last(ids: Set<u64>, id: u64)
    requires
        ids.finite(),
        ids.contains(id),
        forall|x: u64| #[trigger] ids.contains(x) ==> x <= id,
    ensures
        sorted(ids) == sorted(ids.remove(id)).push(id),
        forall|x: u64| sorted(ids.remove(id)).contains(x) ==> ids.contains(x) && x < id,
{
    lemma_sorted_push(ids.remove(id), id);
    assert(ids.remove(id).insert(id) =~= ids);
    lemma_sorted(ids.remove(id));
    assert forall|x: u64| sorted(ids.remove(id)).contains(x) implies ids.contains(x) && x < id by {
        assert(sorted(ids.remove(id)).to_set().contains(x));
    }
}

proof fn lemma_folded_placed(index: Index, disk: Disk, id: u64, recs: Seq<Rec>)
    requires
        sized(disk),
        disk.contains_key(id),
        all_placed(disk, index),
        forall|i: int| 0 <= i < recs.len() ==> stands_in(#[trigger] recs[i], disk[id]),
    ensures
        all_placed(disk, folded(index, id, recs)),
    decreases recs.len(),
{
    if recs.len() > 0 {
        lemma_folded_placed(index, disk, id, recs.drop_last());
        assert(stands_in(recs[recs.len() - 1], disk[id]));
    }
}

/// Whatever bytes the segments hold, every place that replaying them gives lies
/// within its segment.
pub proof fn lemma_rebuilt_placed(index: Index, disk: Disk, ids: Seq<u64>)
    requires
        sized(disk),
        all_placed(disk, index),
        forall|i: int| 0 <= i < ids.len() ==> disk.contains_key(#[trigger] ids[i]),
    ensures
        all_placed(disk, rebuilt(index, disk, ids)),
    decreases ids.len(),
{
    if ids.len() > 0 {
        lemma_rebuilt_placed(index, disk, ids.drop_last());
        assert(disk.contains_key(ids[ids.len() - 1]));
        lemma_scan_stands(disk[ids.last()], 0);
        lemma_folded_placed(
            rebuilt(index, disk, ids.drop_last()),
            disk,
            ids.last(),
            scan(disk[ids.last()], 0),
        );
    }
}

/// Every place that opening a store finds lies within its segment.
pub proof fn lemma_reopened_placed(disk: Disk)
    requires
        sized(disk),
    ensures
        all_placed(disk, reopened(disk)),
{
    let ids = sorted(disk.dom());
    lemma_sorted(disk.dom());
    assert forall|i: int| 0 <= i < ids.len() implies disk.contains_key(#[trigger] ids[i]) by {
        assert(ids.to_set().contains(ids[i]));
    }
    lemma_rebuilt_placed(Index::empty(), disk, ids);
}

/// Segments were only added to, or new ones created.
pub open spec fn grown(before: Disk, after: Disk) -> bool {
    forall|id: u64| #[trigger]
        before.contains_key(id) ==> after.contains_key(id) && before[id].is_prefix_of(after[id])
}

/// Adding to segments moves no value.
pub proof fn lemma_grown(before: Disk, after: Disk, index: Index)
    requires
        grown(before, after),
        all_placed(before, index),
    ensures
        all_placed(after, index),
        contents(after, index) == contents(before, index),
{
    assert forall|key: Seq<u8>| #[trigger] index.contains_key(key) implies placed(after, index[key])
        && value_at(after, index[key]) == value_at(before, index[key]) by {
        let loc = index[key];
        assert(placed(before, loc));
        let a = before[loc.file_id];
        let b = after[loc.file_id];
        assert(a.is_prefix_of(b));
        assert(value_at(after, loc) =~= value_at(before, loc));
    }
    assert(contents(after, index) =~= contents(before, index));
}

/// A new segment that is still empty changes nothing that opening a store finds.
pub proof fn lemma_new_segment(disk: Disk, id: u64)
    requires
        sized(disk),
        forall|x: u64| #[trigger] disk.contains_key(x) ==> x < id,
    ensures
        reopened(disk.insert(id, Seq::empty())) == reopened(disk),
        grown(disk, disk.insert(id, Seq::empty())),
        sized(disk.insert(id, Seq::empty())),
        stored(disk.insert(id, Seq::empty())) == stored(disk),
{
    let more = disk.insert(id, Seq::empty());
    let ids = sorted(disk.dom());
    assert(more.dom() =~= disk.dom().insert(id));
    lemma_sorted_push(disk.dom(), id);
    lemma_sorted(disk.dom());
    assert forall|i: int| 0 <= i < ids.len() implies disk[#[trigger] ids[i]] == more[ids[i]] by {
        assert(ids.to_set().contains(ids[i]));
    }
    lemma_rebuilt_same(Index::empty(), disk, more, ids);
    lemma_rebuilt_push(Index::empty(), more, ids, id);
    lemma_empty_segment(reopened(disk), id);
    assert forall|x: u64| #[trigger] disk.contains_key(x) implies more.contains_key(x)
        && disk[x].is_prefix_of(more[x]) by {}
    lemma_reopened_placed(disk);
    lemma_grown(disk, more, reopened(disk));
}

} // verus!
