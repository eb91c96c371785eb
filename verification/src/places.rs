//! Places in lists: what is picked from a list in its order.

use vstd::prelude::*;

verus! {

/// Places of a list of `n` things, each behind the one before it.
pub open spec fn rising(places: Seq<int>, n: int) -> bool {
    &&& forall|i: int| 0 <= i < places.len() ==> 0 <= #[trigger] places[i] < n
    &&& forall|i: int, j: int|
        #![trigger places[i], places[j]]
        0 <= i < j < places.len() ==> places[i] < places[j]
}

/// What stands at places.
pub open spec fn picked<T>(list: Seq<T>, places: Seq<int>) -> Seq<T> {
    Seq::new(places.len(), |i: int| list[places[i]])
}

/// The places that are picked are those that satisfy a condition, and no others.
pub open spec fn picks_all(places: Seq<int>, n: int, wanted: spec_fn(int) -> bool) -> bool {
    &&& rising(places, n)
    &&& forall|i: int| 0 <= i < places.len() ==> wanted(#[trigger] places[i])
    &&& forall|p: int| 0 <= p < n && #[trigger] wanted(p) ==> places.contains(p)
}

/// Places that satisfy a condition are picked one at a time: one more place is put behind
/// the others where it satisfies the condition too.
pub proof fn lemma_pick_one_more(places: Seq<int>, n: int, wanted: spec_fn(int) -> bool)
    requires
        n >= 0,
        picks_all(places, n, wanted),
    ensures
        wanted(n) ==> picks_all(places.push(n), n + 1, wanted),
        !wanted(n) ==> picks_all(places, n + 1, wanted),
{
    if wanted(n) {
        let more = places.push(n);
        assert forall|i: int| 0 <= i < more.len() implies wanted(#[trigger] more[i]) && 0 <= more[i]
            < n + 1 by {
            if i < places.len() {
                assert(more[i] == places[i]);
            }
        }
        assert forall|i: int, j: int|
            #![trigger more[i], more[j]]
            0 <= i < j < more.len() implies more[i] < more[j] by {
            assert(more[i] == places[i]);
            if j < places.len() {
                assert(more[j] == places[j]);
            }
        }
        assert forall|p: int| 0 <= p < n + 1 && #[trigger] wanted(p) implies more.contains(p) by {
            if p < n {
                assert(places.contains(p));
                let k = places.index_of(p);
                assert(more[k] == p);
            } else {
                assert(more[places.len() as int] == p);
            }
        }
    } else {
        assert forall|p: int| 0 <= p < n + 1 && #[trigger] wanted(p) implies places.contains(p) by {
            assert(p != n);
        }
    }
}

/// Where the first thing of a list is wanted, it is the first that is picked.
pub proof fn lemma_first_is_picked_first(places: Seq<int>, n: int, wanted: spec_fn(int) -> bool)
    requires
        picks_all(places, n, wanted),
        n > 0,
        wanted(0),
    ensures
        places.len() > 0,
        places[0] == 0,
{
    assert(places.contains(0));
    let k = places.index_of(0);
    if k > 0 {
        assert(places[0] < places[k]);
    }
}

} // verus!
