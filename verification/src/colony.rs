//! The ants' state changes of one frame: a foraging ant that reaches food
//! takes it home, unless an ant before it took that food this frame, and a
//! returning ant that reaches the nest goes foraging again. Nothing changes
//! unless the world holds exactly one nest.
use vstd::prelude::*;
use std::collections::HashSet;
use crate::params::AntState;

verus! {

broadcast use vstd::std_specs::hash::group_hash_axioms;

/// What a frame shows of one ant: its state, the closest food within reach
/// (looked at only while foraging), and whether it is at the nest (looked
/// at only while returning).
#[derive(PartialEq, Eq, Structural, Debug, Clone, Copy)]
pub struct AntSighting {
    pub ant: u64,
    pub state: AntState,
    pub food_in_reach: Option<u64>,
    pub at_nest: bool,
}

/// A change to make after the frame: the ant's new state (its timer starts
/// again) and the food it took, which leaves the world.
#[derive(PartialEq, Eq, Structural, Debug, Clone, Copy)]
pub struct AntChange {
    pub ant: u64,
    pub new_state: AntState,
    pub food_taken: Option<u64>,
}

/// The pick-ups of a frame, in the ants' order: a foraging ant with food in
/// reach takes it, unless the food is in `taken` or an earlier ant took it.
pub open spec fn pickups(s: Seq<AntSighting>, taken: Set<u64>) -> Seq<AntChange>
    decreases s.len(),
{
    if s.len() == 0 {
        Seq::empty()
    } else {
        let a = s[0];
        if a.state == AntState::Foraging && a.food_in_reach is Some && !taken.contains(a.food_in_reach->0) {
            seq![AntChange { ant: a.ant, new_state: AntState::ReturningToNest, food_taken: a.food_in_reach }]
                + pickups(s.drop_first(), taken.insert(a.food_in_reach->0))
        } else {
            pickups(s.drop_first(), taken)
        }
    }
}

/// The returns of a frame, in the ants' order: every returning ant at the
/// nest goes foraging again.
pub open spec fn homecomings(s: Seq<AntSighting>) -> Seq<AntChange>
    decreases s.len(),
{
    if s.len() == 0 {
        Seq::empty()
    } else {
        let a = s[0];
        if a.state == AntState::ReturningToNest && a.at_nest {
            seq![AntChange { ant: a.ant, new_state: AntState::Foraging, food_taken: None }] + homecomings(s.drop_first())
        } else {
            homecomings(s.drop_first())
        }
    }
}

/// Decides the state changes of a frame, given how many nests the world
/// holds: with exactly one nest, first the pick-ups, in the ants' order, then
/// the returns to the nest; with none or several, no change at all.
pub fn ant_state_changes(sightings: &Vec<AntSighting>, nest_count: usize) -> (r: Vec<AntChange>)
    ensures
        r@ == if nest_count == 1 {
            pickups(sightings@, Set::empty()) + homecomings(sightings@)
        } else {
            Seq::<AntChange>::empty()
        },
{
    if nest_count != 1 {
        let none: Vec<AntChange> = Vec::new();
        assert(none@ =~= Seq::<AntChange>::empty());
        return none;
    }
    let ghost s = sightings@;
    let mut out: Vec<AntChange> = Vec::new();
    let mut taken: HashSet<u64> = HashSet::new();
    let mut i: usize = 0;
    assert(s.subrange(0, s.len() as int) =~= s);
    while i < sightings.len()
        invariant
            s == sightings@,
            i <= s.len(),
            pickups(s, Set::empty()) == out@ + pickups(s.subrange(i as int, s.len() as int), taken@),
        decreases s.len() - i,
    {
        let a = sightings[i];
        let ghost rest = s.subrange(i as int, s.len() as int);
        assert(rest[0] == a);
        assert(rest.drop_first() =~= s.subrange(i + 1, s.len() as int));
        let ghost before = out@;
        match a.food_in_reach {
            Some(f) => {
                if a.state == AntState::Foraging && !taken.contains(&f) {
                    out.push(AntChange { ant: a.ant, new_state: AntState::ReturningToNest, food_taken: Some(f) });
                    let ghost t0 = taken@;
                    taken.insert(f);
                    assert(taken@ == t0.insert(f));
                    assert(out@ == before + seq![AntChange { ant: a.ant, new_state: AntState::ReturningToNest, food_taken: Some(f) }]);
                    assert(before + pickups(rest, t0) == out@ + pickups(s.subrange(i + 1, s.len() as int), taken@));
                }
            },
            None => {},
        }
        i = i + 1;
    }
    assert(s.subrange(i as int, s.len() as int) =~= Seq::<AntSighting>::empty());
    assert(out@ =~= pickups(s, Set::empty()));
    let ghost first = out@;
    let mut j: usize = 0;
    assert(homecomings(s) == Seq::<AntChange>::empty() + homecomings(s.subrange(0, s.len() as int)));
    while j < sightings.len()
        invariant
            s == sightings@,
            j <= s.len(),
            out@.len() >= first.len(),
            out@.subrange(0, first.len() as int) == first,
            homecomings(s) == out@.subrange(first.len() as int, out@.len() as int) + homecomings(s.subrange(j as int, s.len() as int)),
        decreases s.len() - j,
    {
        let a = sightings[j];
        let ghost rest = s.subrange(j as int, s.len() as int);
        assert(rest[0] == a);
        assert(rest.drop_first() =~= s.subrange(j + 1, s.len() as int));
        let ghost before = out@;
        if a.state == AntState::ReturningToNest && a.at_nest {
            out.push(AntChange { ant: a.ant, new_state: AntState::Foraging, food_taken: None });
            assert(out@.subrange(0, first.len() as int) =~= before.subrange(0, first.len() as int));
            assert(out@.subrange(first.len() as int, out@.len() as int) =~= before.subrange(first.len() as int, before.len() as int)
                + seq![AntChange { ant: a.ant, new_state: AntState::Foraging, food_taken: None }]);
        }
        j = j + 1;
    }
    assert(s.subrange(j as int, s.len() as int) =~= Seq::<AntSighting>::empty());
    assert(out@ =~= out@.subrange(0, first.len() as int) + out@.subrange(first.len() as int, out@.len() as int));
    out
}

/// Every food taken by the pick-ups is taken once, and none of `taken` is
/// taken again.
pub proof fn lemma_food_taken_once(s: Seq<AntSighting>, taken: Set<u64>)
    ensures
        forall|i: int| 0 <= i < pickups(s, taken).len() ==> (#[trigger] pickups(s, taken)[i]).food_taken is Some
            && !taken.contains(pickups(s, taken)[i].food_taken->0),
        forall|i: int, j: int| 0 <= i < j < pickups(s, taken).len() ==>
            (#[trigger] pickups(s, taken)[i]).food_taken != (#[trigger] pickups(s, taken)[j]).food_taken,
    decreases s.len(),
{
    if s.len() > 0 {
        let a = s[0];
        if a.state == AntState::Foraging && a.food_in_reach is Some && !taken.contains(a.food_in_reach->0) {
            let f = a.food_in_reach->0;
            let t2 = taken.insert(f);
            lemma_food_taken_once(s.drop_first(), t2);
            let head = seq![AntChange { ant: a.ant, new_state: AntState::ReturningToNest, food_taken: a.food_in_reach }];
            let tail = pickups(s.drop_first(), t2);
            assert(pickups(s, taken) == head + tail);
            assert forall|i: int| 0 <= i < pickups(s, taken).len() implies (#[trigger] pickups(s, taken)[i]).food_taken is Some
                && !taken.contains(pickups(s, taken)[i].food_taken->0) by {
                if i > 0 {
                    assert(pickups(s, taken)[i] == tail[i - 1]);
                }
            }
            assert forall|i: int, j: int| 0 <= i < j < pickups(s, taken).len() implies
                (#[trigger] pickups(s, taken)[i]).food_taken != (#[trigger] pickups(s, taken)[j]).food_taken by {
                assert(pickups(s, taken)[j] == tail[j - 1]);
                if i > 0 {
                    assert(pickups(s, taken)[i] == tail[i - 1]);
                } else {
                    assert(!t2.contains(tail[j - 1].food_taken->0));
                }
            }
        } else {
            lemma_food_taken_once(s.drop_first(), taken);
        }
    }
}

/// The changes of a frame come from what the ants were doing: an ant sent
/// foraging again was returning and at the nest, and an ant sent home with
/// food was foraging and had that food in reach.
pub proof fn lemma_changes_follow_sightings(s: Seq<AntSighting>, taken: Set<u64>)
    ensures
        forall|k: int| 0 <= k < homecomings(s).len() ==> exists|i: int| 0 <= i < s.len()
            && s[i].ant == (#[trigger] homecomings(s)[k]).ant
            && s[i].state == AntState::ReturningToNest && s[i].at_nest
            && homecomings(s)[k].new_state == AntState::Foraging && homecomings(s)[k].food_taken is None,
        forall|k: int| 0 <= k < pickups(s, taken).len() ==> exists|i: int| 0 <= i < s.len()
            && s[i].ant == (#[trigger] pickups(s, taken)[k]).ant
            && s[i].state == AntState::Foraging && s[i].food_in_reach is Some
            && pickups(s, taken)[k].food_taken == s[i].food_in_reach
            && pickups(s, taken)[k].new_state == AntState::ReturningToNest,
    decreases s.len(),
{
    if s.len() > 0 {
        let a = s[0];
        let rest = s.drop_first();
        lemma_changes_follow_sightings(rest, taken);
        if a.state == AntState::Foraging && a.food_in_reach is Some && !taken.contains(a.food_in_reach->0) {
            lemma_changes_follow_sightings(rest, taken.insert(a.food_in_reach->0));
        }
        let h = homecomings(s);
        let hr = homecomings(rest);
        assert forall|k: int| 0 <= k < h.len() implies exists|i: int| 0 <= i < s.len()
            && s[i].ant == (#[trigger] h[k]).ant
            && s[i].state == AntState::ReturningToNest && s[i].at_nest
            && h[k].new_state == AntState::Foraging && h[k].food_taken is None by {
            if a.state == AntState::ReturningToNest && a.at_nest {
                if k == 0 {
                    assert(s[0].ant == h[0].ant);
                } else {
                    assert(h[k] == hr[k - 1]);
                    let i = choose|i: int| 0 <= i < rest.len() && rest[i].ant == (#[trigger] hr[k - 1]).ant
                        && rest[i].state == AntState::ReturningToNest && rest[i].at_nest
                        && hr[k - 1].new_state == AntState::Foraging && hr[k - 1].food_taken is None;
                    assert(s[i + 1] == rest[i]);
                }
            } else {
                assert(h[k] == hr[k]);
                let i = choose|i: int| 0 <= i < rest.len() && rest[i].ant == (#[trigger] hr[k]).ant
                    && rest[i].state == AntState::ReturningToNest && rest[i].at_nest
                    && hr[k].new_state == AntState::Foraging && hr[k].food_taken is None;
                assert(s[i + 1] == rest[i]);
            }
        }
        let p = pickups(s, taken);
        assert forall|k: int| 0 <= k < p.len() implies exists|i: int| 0 <= i < s.len()
            && s[i].ant == (#[trigger] p[k]).ant
            && s[i].state == AntState::Foraging && s[i].food_in_reach is Some
            && p[k].food_taken == s[i].food_in_reach
            && p[k].new_state == AntState::ReturningToNest by {
            if a.state == AntState::Foraging && a.food_in_reach is Some && !taken.contains(a.food_in_reach->0) {
                let t2 = taken.insert(a.food_in_reach->0);
                let pr = pickups(rest, t2);
                if k == 0 {
                    assert(s[0].ant == p[0].ant);
                } else {
                    assert(p[k] == pr[k - 1]);
                    let i = choose|i: int| 0 <= i < rest.len() && rest[i].ant == (#[trigger] pr[k - 1]).ant
                        && rest[i].state == AntState::Foraging && rest[i].food_in_reach is Some
                        && pr[k - 1].food_taken == rest[i].food_in_reach
                        && pr[k - 1].new_state == AntState::ReturningToNest;
                    assert(s[i + 1] == rest[i]);
                }
            } else {
                let pr = pickups(rest, taken);
                assert(p[k] == pr[k]);
                let i = choose|i: int| 0 <= i < rest.len() && rest[i].ant == (#[trigger] pr[k]).ant
                    && rest[i].state == AntState::Foraging && rest[i].food_in_reach is Some
                    && pr[k].food_taken == rest[i].food_in_reach
                    && pr[k].new_state == AntState::ReturningToNest;
                assert(s[i + 1] == rest[i]);
            }
        }
    }
}

/// Every ant returning with food that reaches the nest goes foraging again:
/// each such sighting gets its change.
pub proof fn lemma_every_homecoming_counted(s: Seq<AntSighting>, i: int)
    requires
        0 <= i < s.len(),
        s[i].state == AntState::ReturningToNest,
        s[i].at_nest,
    ensures
        exists|k: int| 0 <= k < homecomings(s).len() && homecomings(s)[k]
            == (AntChange { ant: s[i].ant, new_state: AntState::Foraging, food_taken: None }),
    decreases s.len(),
{
    let c = AntChange { ant: s[i].ant, new_state: AntState::Foraging, food_taken: None };
    let rest = s.drop_first();
    if i == 0 {
        assert(homecomings(s)[0] == c);
    } else {
        assert(rest[i - 1] == s[i]);
        lemma_every_homecoming_counted(rest, i - 1);
        let k = choose|k: int| 0 <= k < homecomings(rest).len() && homecomings(rest)[k] == c;
        if s[0].state == AntState::ReturningToNest && s[0].at_nest {
            assert(homecomings(s)[k + 1] == c);
        } else {
            assert(homecomings(s)[k] == c);
        }
    }
}

} // verus!
