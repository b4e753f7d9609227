//! The game's score: for every mine, the sum over the sites that a punter
//! reaches from it along its own rivers of the square of their distance.
use vstd::prelude::*;
use crate::board::{State, entries_of};
use crate::search::{distances, reaches_enough, reaches_enough_sites, reach_table, spec_distances, spec_reaches, agrees, reach_run, reach_done_at, step, follows, EdgeMode};
use crate::board::graph_closed;

verus! {

broadcast use vstd::std_specs::hash::group_hash_axioms;

/// Adds the square of a site's distance to a running total.
pub open spec fn add_sq(d: Map<usize, nat>) -> spec_fn(nat, usize) -> nat {
    |acc: nat, x: usize| acc + d[x] * d[x]
}

/// The sum of the squared distances of the sites of `s`.
pub open spec fn sum_sq(d: Map<usize, nat>, s: Set<usize>) -> nat {
    s.fold(0nat, add_sq(d))
}

/// What one mine scores for `punter` on a board of `n` sites: the sum of
/// the squared distances of the sites it reaches from the mine. There is
/// no score when the mine is off the board or a reached site has no
/// distance.
pub open spec fn mine_score(g: Map<usize, Map<usize, usize>>, cl: Seq<Option<usize>>, punter: usize, n: nat, m: usize) -> Option<nat> {
    if !g.contains_key(m) {
        None
    } else {
        let d = spec_distances(g, cl, m, n);
        let r = spec_reaches(g, cl, punter, m);
        if r.subset_of(d.dom()) {
            Some(sum_sq(d, r))
        } else {
            None
        }
    }
}

/// The score of `punter` over the mines `mines`: the sum of what each
/// mine scores, or none if one of them has none.
pub open spec fn total_score(g: Map<usize, Map<usize, usize>>, cl: Seq<Option<usize>>, punter: usize, n: nat, mines: Seq<usize>) -> Option<nat>
    decreases mines.len(),
{
    if mines.len() == 0 {
        Some(0)
    } else {
        match (total_score(g, cl, punter, n, mines.drop_last()), mine_score(g, cl, punter, n, mines.last())) {
            (Some(a), Some(b)) => Some(a + b),
            _ => None,
        }
    }
}

/// Every mine on the board reaches at least `n` sites, so that the
/// distances from each can be counted out.
pub open spec fn mines_reach_enough(g: Map<usize, Map<usize, usize>>, mines: Seq<usize>, n: nat) -> bool {
    forall|i: int| 0 <= i < mines.len() && #[trigger] g.contains_key(mines[i]) ==> reaches_enough(g, mines[i], n)
}

/// Whether every mine on the board reaches at least as many sites as the
/// board lists, which is what the scores need to be counted out.
pub fn all_mines_reach_enough(st: &State) -> (b: bool)
    requires
        st.well_formed(),
    ensures
        b == mines_reach_enough(st.graph(), st.map.mines@, st.map.sites@.len()),
{
    let ghost g = st.graph();
    let ghost n = st.map.sites@.len();
    let ghost mines = st.map.mines@;
    for i in 0..st.map.mines.len()
        invariant
            g == st.graph(),
            n == st.map.sites@.len(),
            mines == st.map.mines@,
            st.well_formed(),
            forall|j: int| 0 <= j < i && #[trigger] g.contains_key(mines[j]) ==> reaches_enough(g, mines[j], n),
    {
        let m = st.map.mines[i];
        if st.rivermap.contains_key(&m) {
            assert(g.contains_key(m));
            if !reaches_enough_sites(st, m) {
                assert(!mines_reach_enough(g, mines, n)) by {
                    assert(g.contains_key(mines[i as int]));
                }
                return false;
            }
        } else {
            assert(!g.contains_key(mines[i as int]));
        }
    }
    true
}

proof fn lemma_add_sq_commutative(d: Map<usize, nat>)
    ensures
        vstd::set::fold::is_fun_commutative(add_sq(d)),
{
    assert forall|a1: usize, a2: usize, b: nat| #[trigger] add_sq(d)(add_sq(d)(b, a2), a1) == add_sq(d)(add_sq(d)(b, a1), a2) by {}
}

/// Over no sites, the sum of squared distances is zero.
pub proof fn lemma_sum_sq_empty(d: Map<usize, nat>)
    ensures
        sum_sq(d, Set::empty()) == 0,
{
    vstd::set::fold::lemma_fold_empty(0nat, add_sq(d));
}

/// Adding a site to a finite set of sites adds the square of its distance.
pub proof fn lemma_sum_sq_insert(d: Map<usize, nat>, s: Set<usize>, x: usize)
    requires
        s.finite(),
        !s.contains(x),
    ensures
        sum_sq(d, s.insert(x)) == sum_sq(d, s) + d[x] * d[x],
{
    lemma_add_sq_commutative(d);
    vstd::set::fold::lemma_fold_insert(s, 0nat, add_sq(d), x);
}

proof fn lemma_sum_sq_mono(d: Map<usize, nat>, s: Set<usize>, t: Set<usize>)
    requires
        t.finite(),
        s.subset_of(t),
    ensures
        sum_sq(d, s) <= sum_sq(d, t),
    decreases t.len() - s.len(),
{
    vstd::set_lib::lemma_len_subset(s, t);
    if !(s =~= t) {
        let x = choose|x: usize| t.contains(x) && !s.contains(x);
        lemma_sum_sq_insert(d, s, x);
        vstd::set_lib::lemma_len_subset(s.insert(x), t);
        assert(s.insert(x).len() == s.len() + 1);
        lemma_sum_sq_mono(d, s.insert(x), t);
        assert(d[x] * d[x] >= 0) by (nonlinear_arith);
    }
}

proof fn lemma_total_prefix(g: Map<usize, Map<usize, usize>>, cl: Seq<Option<usize>>, punter: usize, n: nat, mines: Seq<usize>, i: int)
    requires
        0 <= i < mines.len(),
        total_score(g, cl, punter, n, mines) is Some,
    ensures
        total_score(g, cl, punter, n, mines.take(i)) is Some,
        mine_score(g, cl, punter, n, mines[i]) is Some,
        total_score(g, cl, punter, n, mines.take(i))->0 + mine_score(g, cl, punter, n, mines[i])->0
            <= total_score(g, cl, punter, n, mines)->0,
    decreases mines.len(),
{
    let p = mines.drop_last();
    if i == mines.len() - 1 {
        assert(mines.take(i) == p);
    } else {
        lemma_total_prefix(g, cl, punter, n, p, i);
        assert(p.take(i) == mines.take(i));
        assert(p[i] == mines[i]);
    }
}

/// The score of `punter`: for every mine, the sum over the sites that the
/// punter reaches from it along its own rivers of the square of their
/// distance from the mine. `None` when that reckoning breaks down: a mine
/// is off the board, a reached site has no distance, or the sum passes
/// `usize::MAX`. Every mine on the board must reach as many sites as the
/// board lists (see `all_mines_reach_enough`): else counting out its
/// distances would never end.
pub fn score_for(st: &State, punter: usize) -> (r: Option<usize>)
    requires
        st.well_formed(),
        mines_reach_enough(st.graph(), st.map.mines@, st.map.sites@.len()),
    ensures
        match r {
            Some(v) => total_score(st.graph(), st.claims(), punter, st.map.sites@.len(), st.map.mines@) == Some(v as nat),
            None => match total_score(st.graph(), st.claims(), punter, st.map.sites@.len(), st.map.mines@) {
                None => true,
                Some(t) => t > usize::MAX,
            },
        },
{
    let ghost g = st.graph();
    let ghost cl = st.claims();
    let ghost n = st.map.sites@.len();
    let ghost mines = st.map.mines@;
    let mut total: usize = 0;
    for i in 0..st.map.mines.len()
        invariant
            g == st.graph(),
            cl == st.claims(),
            n == st.map.sites@.len(),
            mines == st.map.mines@,
            st.well_formed(),
            mines_reach_enough(g, mines, n),
            total_score(g, cl, punter, n, mines.take(i as int)) == Some(total as nat),
    {
        let m = st.map.mines[i];
        proof {
            assert(mines.take(i + 1).drop_last() == mines.take(i as int));
            assert(mines.take(i + 1).last() == m);
        }
        if !st.rivermap.contains_key(&m) {
            proof {
                assert(!g.contains_key(m));
                if total_score(g, cl, punter, n, mines) is Some {
                    lemma_total_prefix(g, cl, punter, n, mines, i as int);
                }
            }
            return None;
        }
        assert(g.contains_key(m));
        assert(g.contains_key(mines[i as int]));
        let d = distances(st, m);
        let reached = reach_table(st, punter, m);
        let es = entries_of(&reached);
        let ghost dd = spec_distances(g, cl, m, n);
        let ghost rr = spec_reaches(g, cl, punter, m);
        let mut partial: usize = 0;
        let ghost mut done: Set<usize> = Set::empty();
        proof {
            lemma_sum_sq_empty(dd);
        }
        for j in 0..es.len()
            invariant
                g == st.graph(),
                cl == st.claims(),
                n == st.map.sites@.len(),
                mines == st.map.mines@,
                0 <= i < mines.len(),
                m == mines[i as int],
                g.contains_key(m),
                dd == spec_distances(g, cl, m, n),
                rr == spec_reaches(g, cl, punter, m),
                total_score(g, cl, punter, n, mines.take(i as int)) == Some(total as nat),
                mines.take(i + 1).drop_last() == mines.take(i as int),
                mines.take(i + 1).last() == m,
                agrees(d@, dd),
                reached@.dom() == rr,
                forall|x: int| 0 <= x < es@.len() ==> #[trigger] reached@.contains_key(es@[x].0),
                forall|x: int, y: int| 0 <= x < y < es@.len() ==> es@[x].0 != es@[y].0,
                done.finite(),
                done.subset_of(rr),
                done.subset_of(dd.dom()),
                forall|u: usize| #[trigger] done.contains(u) <==> exists|x: int| 0 <= x < j && es@[x].0 == u,
                sum_sq(dd, done) == partial as nat,
        {
            let r = es[j].0;
            assert(reached@.contains_key(es@[j as int].0));
            proof {
                assert(!done.contains(r)) by {
                    if done.contains(r) {
                        let x = choose|x: int| 0 <= x < j && es@[x].0 == r;
                        assert(es@[x].0 != es@[j as int].0);
                    }
                }
            }
            match d.get(&r) {
                None => {
                    proof {
                        assert(!dd.contains_key(r));
                        assert(mine_score(g, cl, punter, n, m) is None);
                        if total_score(g, cl, punter, n, mines) is Some {
                            lemma_total_prefix(g, cl, punter, n, mines, i as int);
                        }
                    }
                    return None;
                },
                Some(dist) => {
                    let dist = *dist;
                    assert(dd[r] == dist);
                    proof {
                        lemma_sum_sq_insert(dd, done, r);
                    }
                    let sq = dist.checked_mul(dist);
                    let next = match sq {
                        None => None,
                        Some(q) => partial.checked_add(q),
                    };
                    match next {
                        None => {
                            proof {
                                assert(dist * dist >= 0) by (nonlinear_arith);
                                assert(sum_sq(dd, done.insert(r)) > usize::MAX);
                                if total_score(g, cl, punter, n, mines) is Some {
                                    lemma_total_prefix(g, cl, punter, n, mines, i as int);
                                    lemma_sum_sq_mono(dd, done.insert(r), rr);
                                }
                            }
                            return None;
                        },
                        Some(v) => {
                            partial = v;
                            proof {
                                done = done.insert(r);
                            }
                        },
                    }
                },
            }
            assert forall|u: usize| #[trigger] done.contains(u) <==> exists|x: int| 0 <= x < j + 1 && es@[x].0 == u by {
                if u == r {
                    assert(es@[j as int].0 == u);
                }
            }
        }
        proof {
            assert forall|u: usize| done.contains(u) <==> rr.contains(u) by {
                if rr.contains(u) {
                    assert(reached@.contains_key(u));
                }
            }
            assert(done =~= rr);
            assert(mine_score(g, cl, punter, n, m) == Some(partial as nat));
        }
        match total.checked_add(partial) {
            None => {
                proof {
                    if total_score(g, cl, punter, n, mines) is Some {
                        lemma_total_prefix(g, cl, punter, n, mines, i as int);
                    }
                }
                return None;
            },
            Some(v) => {
                total = v;
            },
        }
    }
    assert(mines.take(mines.len() as int) == mines);
    Some(total)
}

/// Our own score (see `score_for`).
pub fn score(st: &State) -> (r: Option<usize>)
    requires
        st.well_formed(),
        mines_reach_enough(st.graph(), st.map.mines@, st.map.sites@.len()),
    ensures
        match r {
            Some(v) => total_score(st.graph(), st.claims(), st.punter, st.map.sites@.len(), st.map.mines@) == Some(v as nat),
            None => match total_score(st.graph(), st.claims(), st.punter, st.map.sites@.len(), st.map.mines@) {
                None => true,
                Some(t) => t > usize::MAX,
            },
        },
{
    score_for(st, st.punter)
}

/// The scores of the punters below `k` other than `us`, added up; none if
/// one of them has none.
pub open spec fn others_score(g: Map<usize, Map<usize, usize>>, cl: Seq<Option<usize>>, n: nat, mines: Seq<usize>, us: usize, k: nat) -> Option<nat>
    decreases k,
{
    if k == 0 {
        Some(0)
    } else {
        let i = (k - 1) as nat;
        let before = others_score(g, cl, n, mines, us, i);
        if i == us {
            before
        } else {
            match (before, total_score(g, cl, i as usize, n, mines)) {
                (Some(a), Some(b)) => Some(a + b),
                _ => None,
            }
        }
    }
}

proof fn lemma_others_prefix(g: Map<usize, Map<usize, usize>>, cl: Seq<Option<usize>>, n: nat, mines: Seq<usize>, us: usize, j: nat, k: nat)
    requires
        j <= k,
        others_score(g, cl, n, mines, us, k) is Some,
    ensures
        others_score(g, cl, n, mines, us, j) is Some,
        others_score(g, cl, n, mines, us, j)->0 <= others_score(g, cl, n, mines, us, k)->0,
        j < k && j != us ==> total_score(g, cl, j as usize, n, mines) is Some
            && others_score(g, cl, n, mines, us, j)->0 + total_score(g, cl, j as usize, n, mines)->0
                <= others_score(g, cl, n, mines, us, k)->0,
    decreases k,
{
    if j < k {
        lemma_others_prefix(g, cl, n, mines, us, j, (k - 1) as nat);
        if j < k - 1 {
            lemma_others_prefix(g, cl, n, mines, us, (j + 1) as nat, (k - 1) as nat);
        }
    }
}

/// The scores of all the other punters, added up (the sum that the enemy
/// rating scales). `None` where one of their scores is `None` or the sum
/// passes `usize::MAX`. Needs what `score_for` needs.
pub fn enemy_score_total(st: &State) -> (r: Option<usize>)
    requires
        st.well_formed(),
        mines_reach_enough(st.graph(), st.map.mines@, st.map.sites@.len()),
    ensures
        match r {
            Some(v) => others_score(st.graph(), st.claims(), st.map.sites@.len(), st.map.mines@, st.punter, st.punters as nat) == Some(v as nat),
            None => match others_score(st.graph(), st.claims(), st.map.sites@.len(), st.map.mines@, st.punter, st.punters as nat) {
                None => true,
                Some(t) => t > usize::MAX,
            },
        },
{
    let ghost g = st.graph();
    let ghost cl = st.claims();
    let ghost n = st.map.sites@.len();
    let ghost mines = st.map.mines@;
    let mut total: usize = 0;
    for i in 0..st.punters
        invariant
            g == st.graph(),
            cl == st.claims(),
            n == st.map.sites@.len(),
            mines == st.map.mines@,
            st.well_formed(),
            mines_reach_enough(g, mines, n),
            others_score(g, cl, n, mines, st.punter, i as nat) == Some(total as nat),
    {
        if i != st.punter {
            match score_for(st, i) {
                None => {
                    proof {
                        if others_score(g, cl, n, mines, st.punter, st.punters as nat) is Some {
                            lemma_others_prefix(g, cl, n, mines, st.punter, i as nat, st.punters as nat);
                        }
                    }
                    return None;
                },
                Some(v) => {
                    match total.checked_add(v) {
                        None => {
                            proof {
                                if others_score(g, cl, n, mines, st.punter, st.punters as nat) is Some {
                                    lemma_others_prefix(g, cl, n, mines, st.punter, i as nat, st.punters as nat);
                                }
                            }
                            return None;
                        },
                        Some(t) => {
                            total = t;
                        },
                    }
                },
            }
        }
    }
    Some(total)
}

proof fn lemma_mine_scores_zero(g: Map<usize, Map<usize, usize>>, cl: Seq<Option<usize>>, punter: usize, n: nat, m: usize)
    requires
        graph_closed(g, cl.len()),
        g.contains_key(m),
        forall|i: int| 0 <= i < cl.len() ==> cl[i] != Some(punter),
    ensures
        mine_score(g, cl, punter, n, m) == Some(0nat),
{
    let r1 = reach_run(g, cl, punter, m, 1);
    assert(reach_run(g, cl, punter, m, 0) == (Set::<usize>::empty(), set![m]));
    let fresh = step(g, cl, EdgeMode::OwnedBy(punter), set![m], Set::empty());
    assert forall|t: usize| !fresh.contains(t) by {
        if fresh.contains(t) {
            let s = choose|s: usize| set![m].contains(s) && #[trigger] follows(g, cl, EdgeMode::OwnedBy(punter), s, t);
            assert(g[s].contains_key(t));
        }
    }
    assert(r1.1 == fresh);
    assert(r1.0 == Set::<usize>::empty().union(fresh));
    assert(r1.1 =~= Set::<usize>::empty());
    assert(r1.0 =~= Set::<usize>::empty());
    assert(reach_done_at(g, cl, punter, m, 1)) by {
        assert forall|j: nat| j < 1 implies !(#[trigger] reach_run(g, cl, punter, m, j)).1.is_empty() by {
            assert(reach_run(g, cl, punter, m, 0).1.contains(m));
        }
    }
    let k = choose|k: nat| reach_done_at(g, cl, punter, m, k);
    assert(reach_done_at(g, cl, punter, m, k));
    if k == 0 {
        assert(reach_run(g, cl, punter, m, 0).1.contains(m));
    } else if k > 1 {
        assert(!reach_run(g, cl, punter, m, 1).1.is_empty());
    }
    assert(spec_reaches(g, cl, punter, m) =~= Set::<usize>::empty());
    lemma_sum_sq_empty(spec_distances(g, cl, m, n));
}

/// A punter that holds no river scores nothing.
pub proof fn lemma_no_rivers_no_score(g: Map<usize, Map<usize, usize>>, cl: Seq<Option<usize>>, punter: usize, n: nat, mines: Seq<usize>)
    requires
        graph_closed(g, cl.len()),
        forall|i: int| 0 <= i < mines.len() ==> g.contains_key(#[trigger] mines[i]),
        forall|i: int| 0 <= i < cl.len() ==> cl[i] != Some(punter),
    ensures
        total_score(g, cl, punter, n, mines) == Some(0nat),
    decreases mines.len(),
{
    if mines.len() > 0 {
        let p = mines.drop_last();
        assert forall|i: int| 0 <= i < p.len() implies g.contains_key(#[trigger] p[i]) by {
            assert(p[i] == mines[i]);
        }
        lemma_no_rivers_no_score(g, cl, punter, n, p);
        assert(g.contains_key(mines[mines.len() - 1]));
        lemma_mine_scores_zero(g, cl, punter, n, mines.last());
    }
}

/// Two scores added up: none unless both exist.
pub open spec fn add_scores(a: Option<nat>, b: Option<nat>) -> Option<nat> {
    match (a, b) {
        (Some(x), Some(y)) => Some(x + y),
        _ => None,
    }
}

/// A single mine scores what that mine scores.
pub proof fn lemma_total_score_single(g: Map<usize, Map<usize, usize>>, cl: Seq<Option<usize>>, punter: usize, n: nat, m: usize)
    ensures
        total_score(g, cl, punter, n, seq![m]) == mine_score(g, cl, punter, n, m),
{
    assert(seq![m].drop_last() == Seq::<usize>::empty());
    assert(seq![m].last() == m);
    assert(total_score(g, cl, punter, n, Seq::<usize>::empty()) == Some(0nat));
}

/// Scores over two lists of mines add up: the score over `a + b` is the
/// score over `a` plus the score over `b`, and there is one exactly when
/// both parts have one. With `lemma_total_score_single`, the score over a
/// list of mines is the sum of the mines' own scores, defined exactly when
/// each of them is.
pub proof fn lemma_total_score_concat(
    g: Map<usize, Map<usize, usize>>,
    cl: Seq<Option<usize>>,
    punter: usize,
    n: nat,
    a: Seq<usize>,
    b: Seq<usize>,
)
    ensures
        total_score(g, cl, punter, n, a + b) == add_scores(total_score(g, cl, punter, n, a), total_score(g, cl, punter, n, b)),
    decreases b.len(),
{
    if b.len() == 0 {
        assert(a + b == a);
    } else {
        lemma_total_score_concat(g, cl, punter, n, a, b.drop_last());
        assert((a + b).drop_last() == a + b.drop_last());
        assert((a + b).last() == b.last());
    }
}

/// The scores of all the punters below `k`, added up.
pub open spec fn all_scores(g: Map<usize, Map<usize, usize>>, cl: Seq<Option<usize>>, n: nat, mines: Seq<usize>, k: nat) -> Option<nat>
    decreases k,
{
    if k == 0 {
        Some(0)
    } else {
        add_scores(all_scores(g, cl, n, mines, (k - 1) as nat), total_score(g, cl, (k - 1) as usize, n, mines))
    }
}

/// The enemy total counts every punter below `k` but us, and never us:
/// with our own score added it is the total of all the punters, whoever we
/// are; when we are not below `k` it is that total already.
pub proof fn lemma_enemies_and_us(g: Map<usize, Map<usize, usize>>, cl: Seq<Option<usize>>, n: nat, mines: Seq<usize>, us: usize, k: nat)
    ensures
        us < k ==> add_scores(others_score(g, cl, n, mines, us, k), total_score(g, cl, us, n, mines)) == all_scores(g, cl, n, mines, k),
        us >= k ==> others_score(g, cl, n, mines, us, k) == all_scores(g, cl, n, mines, k),
    decreases k,
{
    if k > 0 {
        let i = (k - 1) as nat;
        lemma_enemies_and_us(g, cl, n, mines, us, i);
    }
}

/// What one mine scores: nothing when the mine is off the board or a site
/// reached from it along the punter's own rivers has no distance from it;
/// otherwise the sum, over the reached sites, of the squares of their
/// distances from the mine (see `lemma_sum_sq_empty`, `lemma_sum_sq_insert`).
pub proof fn lemma_mine_score_cases(g: Map<usize, Map<usize, usize>>, cl: Seq<Option<usize>>, punter: usize, n: nat, m: usize)
    ensures
        !g.contains_key(m) ==> mine_score(g, cl, punter, n, m) is None,
        g.contains_key(m) && !spec_reaches(g, cl, punter, m).subset_of(spec_distances(g, cl, m, n).dom())
            ==> mine_score(g, cl, punter, n, m) is None,
        g.contains_key(m) && spec_reaches(g, cl, punter, m).subset_of(spec_distances(g, cl, m, n).dom())
            ==> mine_score(g, cl, punter, n, m) == Some(sum_sq(spec_distances(g, cl, m, n), spec_reaches(g, cl, punter, m))),
{
}

} // verus!
