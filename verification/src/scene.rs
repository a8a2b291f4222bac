//! The scene aggregate: which of many surfaces a ray meets first.
//!
//! The caller intersects the ray with every object of the scene and hands
//! over, object by object, the order key of the parameter at which the ray
//! hits it (see [`crate::scalar`]), or nothing where it misses.

use vstd::prelude::*;

verus! {

/// Whether object `index` is hit nearest: it is hit, no object is hit at a
/// smaller parameter, and every object before it is hit strictly farther
/// away or not at all.
pub open spec fn is_nearest(hits: Seq<Option<u64>>, index: int) -> bool {
    &&& 0 <= index < hits.len()
    &&& hits[index] is Some
    &&& forall|other: int|
        0 <= other < hits.len() && hits[other] is Some ==> hits[index]->0 <= (#[trigger] hits[other])->0
    &&& forall|other: int|
        0 <= other < index && hits[other] is Some ==> hits[index]->0 < (#[trigger] hits[other])->0
}

/// Whether the ray misses every object.
pub open spec fn all_miss(hits: Seq<Option<u64>>) -> bool {
    forall|index: int| 0 <= index < hits.len() ==> (#[trigger] hits[index]) is None
}

/// The object that the ray hits first, by its index: the one with the
/// smallest key, and of several with that key the first. `None` where the
/// ray hits nothing.
pub fn nearest(hits: &Vec<Option<u64>>) -> (found: Option<usize>)
    ensures
        found is None <==> all_miss(hits@),
        found matches Some(index) ==> is_nearest(hits@, index as int),
{
    let mut found: Option<usize> = None;
    let mut best: u64 = 0;
    let mut i: usize = 0;
    while i < hits.len()
        invariant
            i <= hits.len(),
            found is None <==> all_miss(hits@.take(i as int)),
            found matches Some(index) ==> hits@[index as int] == Some(best) && is_nearest(
                hits@.take(i as int),
                index as int,
            ),
        decreases hits.len() - i,
    {
        let ghost seen = hits@.take(i as int);
        assert(hits@.take(i + 1) =~= seen.push(hits@[i as int]));
        let closer = match (hits[i], found) {
            (Some(key), Some(_)) => key < best,
            (Some(_), None) => true,
            (None, _) => false,
        };
        if closer {
            proof {
                lemma_nearer_hit_takes_over(seen, hits@[i as int]->0);
            }
            found = Some(i);
            best = hits[i].unwrap();
        } else {
            proof {
                lemma_farther_hit_changes_nothing(seen, hits@[i as int], found);
            }
        }
        i += 1;
    }
    assert(hits@.take(i as int) =~= hits@);
    found
}

/// An object that is hit nearer than every object before it is the nearest
/// once it has joined them.
proof fn lemma_nearer_hit_takes_over(hits: Seq<Option<u64>>, key: u64)
    requires
        forall|other: int|
            0 <= other < hits.len() && hits[other] is Some ==> key < (#[trigger] hits[other])->0,
    ensures
        is_nearest(hits.push(Some(key)), hits.len() as int),
        !all_miss(hits.push(Some(key))),
{
    let grown = hits.push(Some(key));
    assert(grown[hits.len() as int] is Some);
    assert forall|other: int| 0 <= other < grown.len() && grown[other] is Some implies key <= (
    #[trigger] grown[other])->0 by {
        if other < hits.len() {
            assert(hits[other] is Some);
        }
    }
    assert forall|other: int| 0 <= other < hits.len() && grown[other] is Some implies key < (
    #[trigger] grown[other])->0 by {
        assert(hits[other] is Some);
    }
}

/// An object that is missed, or hit no nearer than the nearest before it,
/// leaves the answer as it was.
proof fn lemma_farther_hit_changes_nothing(
    hits: Seq<Option<u64>>,
    added: Option<u64>,
    found: Option<usize>,
)
    requires
        found is None <==> all_miss(hits),
        found matches Some(index) ==> is_nearest(hits, index as int),
        found is None ==> added is None,
        found is Some && added is Some ==> hits[found->0 as int]->0 <= added->0,
    ensures
        found is None <==> all_miss(hits.push(added)),
        found matches Some(index) ==> is_nearest(hits.push(added), index as int),
{
    let grown = hits.push(added);
    match found {
        Some(index) => {
            let index = index as int;
            assert(grown[index] == hits[index]);
            assert forall|other: int|
                0 <= other < grown.len() && grown[other] is Some implies grown[index]->0 <= (
            #[trigger] grown[other])->0 by {
                if other < hits.len() {
                    assert(hits[other] is Some);
                }
            }
            assert forall|other: int|
                0 <= other < index && grown[other] is Some implies grown[index]->0 < (
            #[trigger] grown[other])->0 by {
                assert(hits[other] is Some);
            }
        },
        None => {
            assert forall|k: int| 0 <= k < grown.len() implies (#[trigger] grown[k]) is None by {
                if k < hits.len() {
                    assert(hits[k] is None);
                }
            }
        },
    }
}

/// At most one object is nearest: the choice does not depend on how the
/// scene was searched.
pub proof fn lemma_nearest_is_unique(hits: Seq<Option<u64>>, first: int, second: int)
    requires
        is_nearest(hits, first),
        is_nearest(hits, second),
    ensures
        first == second,
{
    if first < second {
        assert(hits[first] is Some);
    } else if second < first {
        assert(hits[second] is Some);
    }
}

/// The order of the objects in the scene does not change how far the ray
/// travels: in two scenes that hold the same hits, in whatever order, the
/// nearest hits lie at the same parameter.
pub proof fn lemma_order_does_not_change_the_distance(
    hits: Seq<Option<u64>>,
    shuffled: Seq<Option<u64>>,
    index: int,
    other: int,
)
    requires
        hits.to_multiset() == shuffled.to_multiset(),
        is_nearest(hits, index),
        is_nearest(shuffled, other),
    ensures
        hits[index] == shuffled[other],
{
    hits.to_multiset_ensures();
    shuffled.to_multiset_ensures();
    assert(hits.contains(hits[index]));
    assert(hits.to_multiset().count(hits[index]) > 0);
    assert(shuffled.to_multiset().count(hits[index]) > 0);
    assert(shuffled.contains(hits[index]));
    let there = choose|k: int| 0 <= k < shuffled.len() && shuffled[k] == hits[index];
    assert(shuffled[there] is Some);
    assert(shuffled.contains(shuffled[other]));
    assert(shuffled.to_multiset().count(shuffled[other]) > 0);
    assert(hits.to_multiset().count(shuffled[other]) > 0);
    assert(hits.contains(shuffled[other]));
    let here = choose|k: int| 0 <= k < hits.len() && hits[k] == shuffled[other];
    assert(hits[here] is Some);
}

/// Putting one more object into the scene never lets the ray travel farther:
/// what is nearest afterwards is either what was nearest before or the new
/// object, which then is hit strictly nearer.
pub proof fn lemma_more_objects_hit_no_farther(
    hits: Seq<Option<u64>>,
    added: Option<u64>,
    before: int,
    after: int,
)
    requires
        is_nearest(hits, before),
        is_nearest(hits.push(added), after),
    ensures
        after == before || (after == hits.len() && added is Some && added->0 < hits[before]->0),
{
    let grown = hits.push(added);
    assert(grown[before] == hits[before]);
    if after < hits.len() {
        assert(grown[after] == hits[after]);
        assert forall|other: int|
            0 <= other < hits.len() && hits[other] is Some implies hits[after]->0 <= (
        #[trigger] hits[other])->0 by {
            assert(grown[other] == hits[other]);
        }
        assert forall|other: int|
            0 <= other < after && hits[other] is Some implies hits[after]->0 < (
        #[trigger] hits[other])->0 by {
            assert(grown[other] == hits[other]);
        }
        lemma_nearest_is_unique(hits, before, after);
    } else {
        assert(grown[after] == added);
        assert(grown[before] is Some);
    }
}

} // verus!
