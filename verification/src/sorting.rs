//! Ascending lists of segment numbers.

use vstd::prelude::*;
use vstd::seq_lib::to_multiset_contains;

verus! {

/// The numbers ascend; a number may occur twice.
pub open spec fn ascending(ids: Seq<u64>) -> bool {
    forall|i: int, j: int| 0 <= i <= j < ids.len() ==> ids[i] <= ids[j]
}

/// The numbers ascend, and none occurs twice.
pub open spec fn strictly_ascending(ids: Seq<u64>) -> bool {
    forall|i: int, j: int| 0 <= i < j < ids.len() ==> ids[i] < ids[j]
}

/// Puts `id` where it belongs in an ascending list.
pub(crate) fn insert_sorted(ids: &mut Vec<u64>, id: u64)
    requires
        ascending(old(ids)@),
    ensures
        ascending(final(ids)@),
        final(ids)@.to_multiset() == old(ids)@.to_multiset().insert(id),
{
    let mut at: usize = ids.len();
    while at > 0 && ids[at - 1] > id
        invariant
            at <= ids@.len(),
            ids@ == old(ids)@,
            forall|j: int| at <= j < ids@.len() ==> ids@[j] > id,
        decreases at,
    {
        at -= 1;
    }
    let ghost before = ids@;
    ids.insert(at, id);
    proof {
        broadcast use vstd::seq_lib::group_to_multiset_ensures;

        assert(ids@ == before.insert(at as int, id));
        assert(ids@.to_multiset() =~= before.to_multiset().insert(id));
        assert forall|i: int, j: int| 0 <= i <= j < ids@.len() implies ids@[i] <= ids@[j] by {
            if j < at {
                assert(before[i] <= before[j]);
            } else if j == at {
                if i < at {
                    assert(before[i] <= before[at - 1]);
                }
            } else if i < at {
                assert(before[i] <= before[at - 1]);
            } else if i > at {
                assert(before[i - 1] <= before[j - 1]);
            }
        }
    }
}

/// Sorting a list without repetitions gives one that ascends strictly and has the
/// same members.
pub(crate) proof fn lemma_sorted_listing(ids: Seq<u64>, list: Seq<u64>)
    requires
        ascending(ids),
        list.no_duplicates(),
        ids.to_multiset() == list.to_multiset(),
    ensures
        strictly_ascending(ids),
        ids.to_set() == list.to_set(),
{
    broadcast use vstd::seq_lib::group_to_multiset_ensures;

    list.lemma_multiset_has_no_duplicates();
    ids.lemma_multiset_has_no_duplicates_conv();
    assert forall|id: u64| ids.contains(id) <==> list.contains(id) by {
        to_multiset_contains(ids, id);
        to_multiset_contains(list, id);
    }
    assert(ids.to_set() =~= list.to_set());
    assert forall|i: int, j: int| 0 <= i < j < ids.len() implies ids[i] < ids[j] by {
        assert(ids[i] <= ids[j]);
        assert(ids[i] != ids[j]);
    }
}

/// The members of a set, in ascending order.
pub open spec fn sorted(ids: Set<u64>) -> Seq<u64> {
    choose|list: Seq<u64>| #[trigger] strictly_ascending(list) && list.to_set() == ids
}

proof fn lemma_one_listing(a: Seq<u64>, b: Seq<u64>)
    requires
        strictly_ascending(a),
        strictly_ascending(b),
        a.to_set() == b.to_set(),
    ensures
        a == b,
    decreases a.len(),
{
    if a.len() == 0 || b.len() == 0 {
        if a.len() > 0 {
            assert(a.to_set().contains(a[0]));
            assert(b.contains(a[0]));
        }
        if b.len() > 0 {
            assert(b.to_set().contains(b[0]));
            assert(a.contains(b[0]));
        }
        assert(a =~= b);
    } else {
        assert(a.to_set().contains(a.last()));
        assert(b.to_set().contains(b.last()));
        assert(b.contains(a.last()) && a.contains(b.last()));
        let x = a.last();
        assert(x == b.last());
        assert forall|id: u64| a.drop_last().contains(id) <==> b.drop_last().contains(id) by {
            lemma_drop_last_members(a, id);
            lemma_drop_last_members(b, id);
            assert(a.contains(id) == a.to_set().contains(id));
            assert(b.contains(id) == b.to_set().contains(id));
        }
        assert(a.drop_last().to_set() =~= b.drop_last().to_set());
        lemma_one_listing(a.drop_last(), b.drop_last());
        assert(a =~= a.drop_last().push(x));
        assert(b =~= b.drop_last().push(x));
    }
}

proof fn lemma_drop_last_members(ids: Seq<u64>, id: u64)
    requires
        strictly_ascending(ids),
        ids.len() > 0,
    ensures
        ids.drop_last().contains(id) <==> ids.contains(id) && id != ids.last(),
{
    if ids.drop_last().contains(id) {
        let i = choose|i: int| 0 <= i < ids.drop_last().len() && ids.drop_last()[i] == id;
        assert(ids[i] == id);
    }
    if ids.contains(id) && id != ids.last() {
        let i = choose|i: int| 0 <= i < ids.len() && ids[i] == id;
        assert(ids.drop_last()[i] == id);
    }
}

/// A list that ascends strictly is its own members in ascending order.
pub proof fn lemma_sorted_is(ids: Seq<u64>)
    requires
        strictly_ascending(ids),
    ensures
        sorted(ids.to_set()) == ids,
{
    lemma_one_listing(sorted(ids.to_set()), ids);
}

proof fn lemma_listed_once(ids: Set<u64>)
    requires
        ids.finite(),
    ensures
        ids.to_seq().no_duplicates(),
    decreases ids.len(),
{
    if ids.len() > 0 {
        let x = ids.choose();
        let rest = ids.remove(x);
        lemma_listed_once(rest);
        rest.lemma_to_seq_to_set_id();
        assert(!rest.to_seq().contains(x)) by {
            assert(rest.to_seq().to_set().contains(x) == rest.contains(x));
        }
    }
}

/// Every finite set has its members in ascending order.
pub proof fn lemma_sorted(ids: Set<u64>)
    requires
        ids.finite(),
    ensures
        strictly_ascending(sorted(ids)),
        sorted(ids).to_set() == ids,
        sorted(ids).len() == ids.len(),
{
    let list = ids.to_seq();
    let leq = |a: u64, b: u64| a <= b;
    let up = list.sort_by(leq);
    ids.lemma_to_seq_to_set_id();
    lemma_listed_once(ids);
    list.lemma_sort_by_ensures(leq);
    assert(ascending(up)) by {
        assert forall|i: int, j: int| 0 <= i <= j < up.len() implies up[i] <= up[j] by {
            if i < j {
                assert(leq(up[i], up[j]));
            }
        }
    }
    lemma_sorted_listing(up, list);
    lemma_sorted_is(up);
    list.unique_seq_to_set();
    list.to_multiset_ensures();
    up.to_multiset_ensures();
}

} // verus!
