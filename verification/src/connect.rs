//! Connecting mines: which mines are still apart, and a river that brings
//! two of them closer.
use vstd::prelude::*;
use std::collections::{HashMap, HashSet};
use crate::board::{State, entries_of};
use crate::measure::mines_on_board;
use crate::search::{my_distances, spec_my_distances, agrees, free_walk, walk_cost, lemma_my_distance_is_least_cost};

verus! {

broadcast use vstd::std_specs::hash::group_hash_axioms;

/// How far `punter` still is from each site, seen from mine `m`.
pub open spec fn my_dist(st: &State, m: usize) -> Map<usize, nat> {
    spec_my_distances(st.graph(), st.claims(), st.punter, m, st.map.sites@.len())
}

/// The mines `a < b` of the board are apart: from `a` the search places
/// `b`, but at a positive distance.
pub open spec fn apart(st: &State, a: usize, b: usize) -> bool {
    &&& a < b
    &&& my_dist(st, a).contains_key(b)
    &&& my_dist(st, a)[b] > 0
}

/// `x` is one of two mines of the board that are apart.
pub open spec fn to_connect(st: &State, x: usize) -> bool {
    exists|i: int, j: int|
        0 <= i < st.map.mines@.len() && 0 <= j < st.map.mines@.len() && #[trigger] apart(st, st.map.mines@[i], st.map.mines@[j])
            && (x == st.map.mines@[i] || x == st.map.mines@[j])
}

/// The mines that still have to be connected: both mines of every pair
/// that is apart.
pub fn mines_to_connect(st: &State) -> (left: HashSet<usize>)
    requires
        st.well_formed(),
        mines_on_board(st),
    ensures
        forall|x: usize| #[trigger] left@.contains(x) <==> to_connect(st, x),
{
    let ghost mines = st.map.mines@;
    let mut left: HashSet<usize> = HashSet::new();
    for i in 0..st.map.mines.len()
        invariant
            mines == st.map.mines@,
            st.well_formed(),
            mines_on_board(st),
            forall|x: usize| #[trigger] left@.contains(x) <==> exists|a: int, b: int|
                0 <= a < i && 0 <= b < mines.len() && #[trigger] apart(st, mines[a], mines[b]) && (x == mines[a] || x == mines[b]),
    {
        let m1 = st.map.mines[i];
        let d_old = my_distances(st, m1);
        for j in 0..st.map.mines.len()
            invariant
                mines == st.map.mines@,
                0 <= i < mines.len(),
                m1 == mines[i as int],
                agrees(d_old@, my_dist(st, m1)),
                forall|x: usize| #[trigger] left@.contains(x) <==> (exists|a: int, b: int|
                    0 <= a < i && 0 <= b < mines.len() && #[trigger] apart(st, mines[a], mines[b]) && (x == mines[a] || x == mines[b]))
                    || (exists|b: int| 0 <= b < j && #[trigger] apart(st, m1, mines[b]) && (x == m1 || x == mines[b])),
        {
            let m2 = st.map.mines[j];
            let far = match d_old.get(&m2) {
                Some(v) => m2 > m1 && *v > 0,
                None => false,
            };
            assert(far == apart(st, m1, m2));
            if far {
                left.insert(m2);
                left.insert(m1);
            }
            assert forall|x: usize| #[trigger] left@.contains(x) <==> (exists|a: int, b: int|
                0 <= a < i && 0 <= b < mines.len() && #[trigger] apart(st, mines[a], mines[b]) && (x == mines[a] || x == mines[b]))
                || (exists|b: int| 0 <= b < j + 1 && #[trigger] apart(st, m1, mines[b]) && (x == m1 || x == mines[b])) by {
                if far && (x == m1 || x == m2) {
                    assert(apart(st, m1, mines[j as int]));
                }
            }
        }
        assert forall|x: usize| #[trigger] left@.contains(x) <==> exists|a: int, b: int|
            0 <= a < i + 1 && 0 <= b < mines.len() && #[trigger] apart(st, mines[a], mines[b]) && (x == mines[a] || x == mines[b]) by {
            if exists|b: int| 0 <= b < mines.len() && #[trigger] apart(st, m1, mines[b]) && (x == m1 || x == mines[b]) {
                let b = choose|b: int| 0 <= b < mines.len() && #[trigger] apart(st, m1, mines[b]) && (x == m1 || x == mines[b]);
                assert(apart(st, mines[i as int], mines[b]));
            }
            if exists|a: int, b: int| 0 <= a < i + 1 && 0 <= b < mines.len() && #[trigger] apart(st, mines[a], mines[b]) && (x == mines[a] || x == mines[b]) {
                let (a, b) = choose|a: int, b: int| 0 <= a < i + 1 && 0 <= b < mines.len() && #[trigger] apart(st, mines[a], mines[b]) && (x == mines[a] || x == mines[b]);
                if a == i {
                    assert(apart(st, m1, mines[b]));
                }
            }
        }
    }
    left
}

/// The river from `s1` to `s2` brings the mines closer: `s1` is free to
/// reach from the first mine and as far from the second as the second is
/// from the first, and `s2` is one step nearer the second.
pub open spec fn connects(g: Map<usize, Map<usize, usize>>, d1: Map<usize, nat>, d2: Map<usize, nat>, d12: nat, s1: usize, s2: usize) -> bool {
    &&& d1.contains_key(s1)
    &&& d1[s1] == 0
    &&& d2.contains_key(s1)
    &&& d2[s1] == d12
    &&& g.contains_key(s1)
    &&& g[s1].contains_key(s2)
    &&& d2.contains_key(s2)
    &&& d2[s2] + 1 == d12
}

/// Looking up a distance from the second mine fails: a site free to reach
/// from the first mine has none, or such a site at the right distance has
/// a neighbour with none.
pub open spec fn lookup_fails(g: Map<usize, Map<usize, usize>>, d1: Map<usize, nat>, d2: Map<usize, nat>, d12: nat) -> bool {
    exists|s1: usize|
        #![trigger d1.contains_key(s1)]
        d1.contains_key(s1) && d1[s1] == 0 && (!d2.contains_key(s1) || (d2[s1] == d12 && g.contains_key(s1)
            && exists|s2: usize| #![trigger g[s1].contains_key(s2)] g[s1].contains_key(s2) && !d2.contains_key(s2)))
}

/// What the search for a connecting river between mines `m1` and `m2`
/// finds.
#[derive(Clone, Copy, Debug, PartialEq, Eq, Structural)]
pub enum Connection {
    /// The mines are not apart (see `apart`).
    NotApart,
    /// No river connects them (see `connects`).
    NoRiver,
    /// This river connects them.
    River(usize),
    /// A distance from `m2` that the search needs is missing.
    MissingDistance,
}

/// A river that brings mines `m1` and `m2` closer (see `connects`), when
/// `m1 < m2` and they are apart. Which of several such rivers comes back
/// depends on the order in which the distance tables are walked; where a
/// distance that the walk needs is missing, the answer is
/// `MissingDistance`, or a river found before it.
pub fn connecting_river(st: &State, m1: usize, m2: usize) -> (c: Connection)
    requires
        st.well_formed(),
        st.graph().contains_key(m1),
        st.graph().contains_key(m2),
    ensures
        c is NotApart <==> !apart(st, m1, m2),
        c matches Connection::River(r) ==> apart(st, m1, m2) && exists|s1: usize, s2: usize|
            #[trigger] connects(st.graph(), my_dist(st, m1), my_dist(st, m2), my_dist(st, m1)[m2], s1, s2)
                && r == st.graph()[s1][s2],
        c is NoRiver ==> apart(st, m1, m2) && !lookup_fails(st.graph(), my_dist(st, m1), my_dist(st, m2), my_dist(st, m1)[m2])
            && forall|s1: usize, s2: usize| !#[trigger] connects(st.graph(), my_dist(st, m1), my_dist(st, m2), my_dist(st, m1)[m2], s1, s2),
        c is MissingDistance ==> apart(st, m1, m2) && lookup_fails(st.graph(), my_dist(st, m1), my_dist(st, m2), my_dist(st, m1)[m2]),
{
    let ghost g = st.graph();
    let d1 = my_distances(st, m1);
    let d12 = match d1.get(&m2) {
        Some(v) => *v,
        None => {
            return Connection::NotApart;
        },
    };
    if !(m2 > m1 && d12 > 0) {
        return Connection::NotApart;
    }
    let d2 = my_distances(st, m2);
    let ghost e1 = my_dist(st, m1);
    let ghost e2 = my_dist(st, m2);
    let es1 = entries_of(&d1);
    for a in 0..es1.len()
        invariant
            g == st.graph(),
            st.well_formed(),
            e1 == my_dist(st, m1),
            e2 == my_dist(st, m2),
            apart(st, m1, m2),
            agrees(d1@, e1),
            agrees(d2@, e2),
            d1@.dom().subset_of(g.dom()),
            e1.contains_key(m2),
            e1[m2] == d12,
            d12 > 0,
            forall|x: int| 0 <= x < es1@.len() ==> #[trigger] d1@.contains_key(es1@[x].0) && d1@[es1@[x].0] == es1@[x].1,
            forall|k: usize| #[trigger] d1@.contains_key(k) ==> exists|x: int| 0 <= x < es1@.len() && es1@[x].0 == k,
            forall|x: int, s2: usize| 0 <= x < a ==> !#[trigger] connects(g, e1, e2, e1[m2], es1@[x].0, s2),
            forall|x: int| 0 <= x < a && #[trigger] e1[es1@[x].0] == 0 ==> e2.contains_key(es1@[x].0) && (e2[es1@[x].0] == d12 ==> forall|s2: usize| #![trigger g[es1@[x].0].contains_key(s2)] g[es1@[x].0].contains_key(s2) ==> e2.contains_key(s2)),
    {
        let (s1, dd) = es1[a];
        assert(es1@[a as int] == (s1, dd));
        assert(d1@.contains_key(es1@[a as int].0));
        if dd == 0 {
            let here = match d2.get(&s1) {
                Some(v) => *v,
                None => {
                    proof {
                        assert(e1.contains_key(s1) && e1[s1] == 0 && !e2.contains_key(s1));
                    }
                    return Connection::MissingDistance;
                },
            };
            if here == d12 {
                assert(g.contains_key(s1));
                let table = st.rivermap.get(&s1).unwrap();
                assert(table@ == g[s1]);
                let es2 = entries_of(table);
                for b in 0..es2.len()
                    invariant
                        g == st.graph(),
                        e1 == my_dist(st, m1),
                        e2 == my_dist(st, m2),
                        apart(st, m1, m2),
                        agrees(d2@, e2),
                        e1.contains_key(m2),
                        e1[m2] == d12,
                        d12 > 0,
                        e1.contains_key(s1),
                        e1[s1] == 0,
                        e2.contains_key(s1),
                        e2[s1] == d12,
                        g.contains_key(s1),
                        table@ == g[s1],
                        forall|x: int| 0 <= x < es2@.len() ==> #[trigger] table@.contains_key(es2@[x].0) && table@[es2@[x].0] == es2@[x].1,
                        forall|x: int| 0 <= x < b ==> e2.contains_key(#[trigger] es2@[x].0) && e2[es2@[x].0] + 1 != d12,
                {
                    let (s2, r) = es2[b];
                    assert(es2@[b as int] == (s2, r));
                    assert(table@.contains_key(es2@[b as int].0));
                    match d2.get(&s2) {
                        None => {
                            proof {
                                assert(g[s1].contains_key(s2) && !e2.contains_key(s2));
                                assert(e1.contains_key(s1));
                            }
                            return Connection::MissingDistance;
                        },
                        Some(v) => {
                            if *v == d12 - 1 {
                                proof {
                                    assert(connects(g, e1, e2, e1[m2], s1, s2));
                                }
                                return Connection::River(r);
                            }
                        },
                    }
                }
                proof {
                    assert forall|s2: usize| !#[trigger] connects(g, e1, e2, e1[m2], s1, s2) by {
                        if connects(g, e1, e2, e1[m2], s1, s2) {
                            assert(table@.contains_key(s2));
                            let y = choose|y: int| 0 <= y < es2@.len() && es2@[y].0 == s2;
                            assert(e2.contains_key(es2@[y].0));
                        }
                    }
                    assert forall|s2: usize| #![trigger g[s1].contains_key(s2)] g[s1].contains_key(s2) implies e2.contains_key(s2) by {
                        assert(table@.contains_key(s2));
                        let y = choose|y: int| 0 <= y < es2@.len() && es2@[y].0 == s2;
                        assert(e2.contains_key(es2@[y].0));
                    }
                }
            }
        }
        proof {
            assert forall|x: int, s2: usize| 0 <= x < a + 1 implies !#[trigger] connects(g, e1, e2, e1[m2], es1@[x].0, s2) by {
                if x == a && dd != 0 {
                    assert(e1[s1] == dd);
                }
            }
        }
    }
    proof {
        assert forall|s1: usize, s2: usize| !#[trigger] connects(g, e1, e2, e1[m2], s1, s2) by {
            if connects(g, e1, e2, e1[m2], s1, s2) {
                assert(d1@.contains_key(s1));
                let x = choose|x: int| 0 <= x < es1@.len() && es1@[x].0 == s1;
                assert(!connects(g, e1, e2, e1[m2], es1@[x].0, s2));
            }
        }
        assert(!lookup_fails(g, e1, e2, e1[m2])) by {
            if lookup_fails(g, e1, e2, e1[m2]) {
                let s1 = choose|s1: usize| #![trigger e1.contains_key(s1)] e1.contains_key(s1) && e1[s1] == 0 && (!e2.contains_key(s1) || (e2[s1] == e1[m2] && g.contains_key(s1)
                    && exists|s2: usize| #![trigger g[s1].contains_key(s2)] g[s1].contains_key(s2) && !e2.contains_key(s2)));
                assert(d1@.contains_key(s1));
                let x = choose|x: int| 0 <= x < es1@.len() && es1@[x].0 == s1;
                assert(e1[es1@[x].0] == 0);
            }
        }
    }
    Connection::NoRiver
}

/// Two mines `a < b` are apart exactly when the search from `a` places `b`
/// and every walk that our punter may take from `a` to `b` still needs an
/// unclaimed river: no walk along our own rivers alone joins them. Mines
/// one unclaimed river apart are apart.
pub proof fn lemma_apart_needs_a_river(st: &State, a: usize, b: usize)
    ensures
        apart(st, a, b) <==> a < b && my_dist(st, a).contains_key(b) && forall|p: Seq<usize>|
            free_walk(st.graph(), st.claims(), st.punter, p) && p[0] == a && p.last() == b ==> walk_cost(
                st.graph(),
                st.claims(),
                st.punter,
                p,
            ) > 0,
        apart(st, a, b) <==> a < b && my_dist(st, a).contains_key(b) && my_dist(st, a)[b] != 0,
{
    let g = st.graph();
    let cl = st.claims();
    let n = st.map.sites@.len();
    if my_dist(st, a).contains_key(b) {
        lemma_my_distance_is_least_cost(g, cl, st.punter, a, n, b);
        if my_dist(st, a)[b] == 0 {
            let p = choose|p: Seq<usize>| free_walk(g, cl, st.punter, p) && p[0] == a && p.last() == b
                && walk_cost(g, cl, st.punter, p) == my_dist(st, a)[b];
            assert(free_walk(g, cl, st.punter, p) && p[0] == a && p.last() == b);
        }
    }
}

/// A mine is left to connect exactly when it is one of two mines `a < b`
/// of the board where the search from `a` places `b` at a positive number
/// of unclaimed rivers.
pub proof fn lemma_to_connect_pairs(st: &State, x: usize)
    ensures
        to_connect(st, x) <==> exists|i: int, j: int|
            0 <= i < st.map.mines@.len() && 0 <= j < st.map.mines@.len() && st.map.mines@[i] < st.map.mines@[j]
                && #[trigger] my_dist(st, st.map.mines@[i]).contains_key(st.map.mines@[j])
                && my_dist(st, st.map.mines@[i])[st.map.mines@[j]] != 0 && (x == st.map.mines@[i] || x == st.map.mines@[j]),
{
    let mines = st.map.mines@;
    if to_connect(st, x) {
        let (i, j) = choose|i: int, j: int|
            0 <= i < mines.len() && 0 <= j < mines.len() && #[trigger] apart(st, mines[i], mines[j]) && (x == mines[i] || x == mines[j]);
        assert(my_dist(st, mines[i]).contains_key(mines[j]));
    }
    if exists|i: int, j: int|
        0 <= i < mines.len() && 0 <= j < mines.len() && mines[i] < mines[j] && #[trigger] my_dist(st, mines[i]).contains_key(mines[j])
            && my_dist(st, mines[i])[mines[j]] != 0 && (x == mines[i] || x == mines[j]) {
        let (i, j) = choose|i: int, j: int|
            0 <= i < mines.len() && 0 <= j < mines.len() && mines[i] < mines[j] && #[trigger] my_dist(st, mines[i]).contains_key(mines[j])
                && my_dist(st, mines[i])[mines[j]] != 0 && (x == mines[i] || x == mines[j]);
        assert(apart(st, mines[i], mines[j]));
    }
}

} // verus!
