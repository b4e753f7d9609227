//! Searches over the board: distances from a mine, the sites that a punter
//! reaches along its own rivers, and distances counting only the rivers
//! that a punter still has to claim.
use vstd::prelude::*;
use std::collections::{HashMap, HashSet};
use crate::board::{State, entries_of, graph_closed};

verus! {

broadcast use vstd::std_specs::hash::group_hash_axioms;

/// Which rivers a search may follow.
#[derive(Clone, Copy, Debug, PartialEq, Eq, Structural)]
pub enum EdgeMode {
    /// Every river.
    All,
    /// Only rivers claimed by the given punter.
    OwnedBy(usize),
    /// Only rivers that nobody has claimed.
    Unclaimed,
}

/// Whether a river with the given claim may be followed.
pub open spec fn edge_ok(mode: EdgeMode, claimed: Option<usize>) -> bool {
    match mode {
        EdgeMode::All => true,
        EdgeMode::OwnedBy(p) => claimed == Some(p),
        EdgeMode::Unclaimed => claimed is None,
    }
}

/// There is a river from `s` to `t` that the search may follow.
pub open spec fn follows(g: Map<usize, Map<usize, usize>>, claims: Seq<Option<usize>>, mode: EdgeMode, s: usize, t: usize) -> bool {
    &&& g.contains_key(s)
    &&& g[s].contains_key(t)
    &&& edge_ok(mode, claims[g[s][t] as int])
}

/// The sites reached in one step from `fr` that are not in `seen`.
pub open spec fn step(
    g: Map<usize, Map<usize, usize>>,
    claims: Seq<Option<usize>>,
    mode: EdgeMode,
    fr: Set<usize>,
    seen: Set<usize>,
) -> Set<usize> {
    Set::new(|t: usize| !seen.contains(t) && exists|s: usize| fr.contains(s) && #[trigger] follows(g, claims, mode, s, t))
}

/// `d` with every site of `fresh` that it lacks added at distance `v`.
pub open spec fn add_layer(d: Map<usize, nat>, fresh: Set<usize>, v: nat) -> Map<usize, nat> {
    Map::new(|t: usize| d.contains_key(t) || fresh.contains(t), |t: usize| if d.contains_key(t) { d[t] } else { v })
}

/// An executable distance table holds exactly what the mathematical one does.
pub open spec fn agrees(d: Map<usize, usize>, m: Map<usize, nat>) -> bool {
    &&& d.dom() == m.dom()
    &&& forall|t: usize| #[trigger] d.contains_key(t) ==> d[t] == m[t]
}

/// Adds to `d`, at distance `value`, every site that the search reaches in
/// one step from `frontier` and that `d` lacks; returns those sites.
fn expand(st: &State, frontier: &Vec<usize>, d: &mut HashMap<usize, usize>, value: usize, mode: EdgeMode) -> (fresh: Vec<usize>)
    requires
        st.well_formed(),
        forall|i: int| 0 <= i < frontier@.len() ==> st.graph().contains_key(#[trigger] frontier@[i]),
    ensures
        fresh@.no_duplicates(),
        fresh@.to_set() == step(st.graph(), st.claims(), mode, frontier@.to_set(), old(d)@.dom()),
        forall|t: usize| #[trigger] final(d)@.contains_key(t) <==> (old(d)@.contains_key(t) || fresh@.contains(t)),
        forall|t: usize| #[trigger] old(d)@.contains_key(t) ==> final(d)@[t] == old(d)@[t],
        forall|t: usize| #[trigger] fresh@.contains(t) ==> final(d)@[t] == value,
{
    let ghost g = st.graph();
    let ghost cl = st.claims();
    let ghost d0 = d@;
    let mut fresh: Vec<usize> = Vec::new();
    for i in 0..frontier.len()
        invariant
            g == st.graph(),
            cl == st.claims(),
            st.well_formed(),
            forall|a: int| 0 <= a < frontier@.len() ==> g.contains_key(#[trigger] frontier@[a]),
            fresh@.no_duplicates(),
            forall|t: usize| #[trigger] d@.contains_key(t) <==> (d0.contains_key(t) || fresh@.contains(t)),
            forall|t: usize| #[trigger] d0.contains_key(t) ==> d@[t] == d0[t],
            forall|t: usize| #[trigger] fresh@.contains(t) ==> d@[t] == value && !d0.contains_key(t),
            forall|t: usize| #[trigger] fresh@.contains(t) ==> exists|s: usize| frontier@.to_set().contains(s) && #[trigger] follows(g, cl, mode, s, t),
            forall|a: int, t: usize| 0 <= a < i && #[trigger] follows(g, cl, mode, frontier@[a], t) ==> d@.contains_key(t),
    {
        let site = frontier[i];
        let table = st.rivermap.get(&site).unwrap();
        let es = entries_of(table);
        assert(table@ == g[site]);
        for j in 0..es.len()
            invariant
                g == st.graph(),
                cl == st.claims(),
                st.well_formed(),
                0 <= i < frontier@.len(),
                site == frontier@[i as int],
                g.contains_key(site),
                table@ == g[site],
                es@.len() == table@.dom().len(),
                forall|x: int| 0 <= x < es@.len() ==> #[trigger] table@.contains_key(es@[x].0) && table@[es@[x].0] == es@[x].1,
                forall|k: usize| #[trigger] table@.contains_key(k) ==> exists|x: int| 0 <= x < es@.len() && es@[x].0 == k,
                fresh@.no_duplicates(),
                forall|t: usize| #[trigger] d@.contains_key(t) <==> (d0.contains_key(t) || fresh@.contains(t)),
                forall|t: usize| #[trigger] d0.contains_key(t) ==> d@[t] == d0[t],
                forall|t: usize| #[trigger] fresh@.contains(t) ==> d@[t] == value && !d0.contains_key(t),
                forall|t: usize| #[trigger] fresh@.contains(t) ==> exists|s: usize| frontier@.to_set().contains(s) && #[trigger] follows(g, cl, mode, s, t),
                forall|a: int, t: usize| 0 <= a < i && #[trigger] follows(g, cl, mode, frontier@[a], t) ==> d@.contains_key(t),
                forall|x: int| 0 <= x < j && follows(g, cl, mode, site, #[trigger] es@[x].0) ==> d@.contains_key(es@[x].0),
        {
            let (nb, rid) = es[j];
            assert(es@[j as int] == (nb, rid));
            assert(table@.contains_key(es@[j as int].0));
            assert(table@.contains_key(nb) && table@[nb] == rid);
            assert(graph_closed(g, st.riverdata@.len()));
            assert(g[site].contains_key(nb));
            let claimed = st.riverdata[rid].claimed;
            let ok = match mode {
                EdgeMode::All => true,
                EdgeMode::OwnedBy(p) => claimed == Some(p),
                EdgeMode::Unclaimed => claimed.is_none(),
            };
            assert(cl[rid as int] == claimed);
            assert(ok == follows(g, cl, mode, site, nb));
            if ok && !d.contains_key(&nb) {
                d.insert(nb, value);
                let ghost f0 = fresh@;
                proof {
                    assert(frontier@.to_set().contains(site)) by {
                        assert(frontier@[i as int] == site);
                    }
                    assert(!fresh@.contains(nb));
                }
                fresh.push(nb);
                proof {
                    assert forall|t: usize| #[trigger] fresh@.contains(t) <==> (f0.contains(t) || t == nb) by {
                        if fresh@.contains(t) && t != nb {
                            let w = choose|w: int| 0 <= w < fresh@.len() && fresh@[w] == t;
                            assert(f0[w] == t);
                        }
                        if f0.contains(t) {
                            let w = choose|w: int| 0 <= w < f0.len() && f0[w] == t;
                            assert(fresh@[w] == t);
                        }
                        if t == nb {
                            assert(fresh@[fresh@.len() - 1] == t);
                        }
                    }
                    assert forall|t: usize| #[trigger] fresh@.contains(t) implies exists|s: usize| frontier@.to_set().contains(s) && #[trigger] follows(g, cl, mode, s, t) by {
                        if t == nb {
                            assert(follows(g, cl, mode, site, t));
                        }
                    }
                }
            }
        }
        proof {
            assert forall|a: int, t: usize| 0 <= a < i + 1 && #[trigger] follows(g, cl, mode, frontier@[a], t) implies d@.contains_key(t) by {
                if a == i {
                    let x = choose|x: int| 0 <= x < es@.len() && es@[x].0 == t;
                    assert(follows(g, cl, mode, site, es@[x].0));
                }
            }
        }
    }
    proof {
        let sset = step(g, cl, mode, frontier@.to_set(), d0.dom());
        assert forall|t: usize| fresh@.to_set().contains(t) <==> sset.contains(t) by {
            if sset.contains(t) {
                let s = choose|s: usize| frontier@.to_set().contains(s) && #[trigger] follows(g, cl, mode, s, t);
                let a = choose|a: int| 0 <= a < frontier@.len() && frontier@[a] == s;
                assert(follows(g, cl, mode, frontier@[a], t));
            }
        }
        assert(fresh@.to_set() =~= sset);
    }
    fresh
}

/// A set between `small` and a finite `big` is no larger than `big`, and
/// larger than `small` if it holds something `small` lacks.
proof fn lemma_grow(small: Set<usize>, mid: Set<usize>, big: Set<usize>)
    requires
        big.finite(),
        small.subset_of(mid),
        mid.subset_of(big),
    ensures
        small.finite(),
        mid.finite(),
        small.len() <= mid.len() <= big.len(),
        (exists|t: usize| mid.contains(t) && !small.contains(t)) ==> small.len() < mid.len(),
{
    vstd::set_lib::lemma_len_subset(mid, big);
    vstd::set_lib::lemma_len_subset(small, mid);
    if exists|t: usize| mid.contains(t) && !small.contains(t) {
        let t = choose|t: usize| mid.contains(t) && !small.contains(t);
        vstd::set_lib::lemma_len_subset(small.insert(t), mid);
    }
}

/// The distance table and the sites of the last layer after `k` rounds of
/// the search from `mine`: the mine is at distance 0, and the sites first
/// reached in round `k` are at distance `k + 1`.
pub open spec fn dist_run(g: Map<usize, Map<usize, usize>>, cl: Seq<Option<usize>>, mine: usize, k: nat) -> (Map<usize, nat>, Set<usize>)
    decreases k,
{
    if k == 0 {
        (map![mine => 0nat], set![mine])
    } else {
        let prev = dist_run(g, cl, mine, (k - 1) as nat);
        let fresh = step(g, cl, EdgeMode::All, prev.1, prev.0.dom());
        (add_layer(prev.0, fresh, k + 1), fresh)
    }
}

/// The search stops once it has placed at least `n` sites, or once a round
/// reaches nothing new.
pub open spec fn dist_stops(g: Map<usize, Map<usize, usize>>, cl: Seq<Option<usize>>, mine: usize, n: nat, k: nat) -> bool {
    dist_run(g, cl, mine, k).0.dom().len() >= n || dist_run(g, cl, mine, k).1.is_empty()
}

/// `k` is the round at which the search stops.
pub open spec fn dist_done_at(g: Map<usize, Map<usize, usize>>, cl: Seq<Option<usize>>, mine: usize, n: nat, k: nat) -> bool {
    &&& dist_stops(g, cl, mine, n, k)
    &&& forall|j: nat| j < k ==> !#[trigger] dist_stops(g, cl, mine, n, j)
}

/// The distances from `mine` over all rivers, as far as the search goes
/// for a board of `n` sites.
pub open spec fn spec_distances(g: Map<usize, Map<usize, usize>>, cl: Seq<Option<usize>>, mine: usize, n: nat) -> Map<usize, nat> {
    dist_run(g, cl, mine, choose|k: nat| dist_done_at(g, cl, mine, n, k)).0
}

proof fn lemma_dist_done_unique(g: Map<usize, Map<usize, usize>>, cl: Seq<Option<usize>>, mine: usize, n: nat, k: nat)
    requires
        dist_done_at(g, cl, mine, n, k),
    ensures
        (choose|j: nat| dist_done_at(g, cl, mine, n, j)) == k,
{
    let j = choose|j: nat| dist_done_at(g, cl, mine, n, j);
    assert(dist_done_at(g, cl, mine, n, j));
    if j < k {
        assert(!dist_stops(g, cl, mine, n, j));
    } else if j > k {
        assert(!dist_stops(g, cl, mine, n, k));
    }
}

/// The breadth-first search behind `distances`, run until it has placed
/// as many sites as the board lists or a round reaches no new site; the
/// second stop lets `reaches_enough_sites` run it on any board.
fn search_distances(st: &State, mine: usize) -> (d: HashMap<usize, usize>)
    requires
        st.well_formed(),
        st.graph().contains_key(mine),
    ensures
        exists|k: nat| dist_done_at(st.graph(), st.claims(), mine, st.map.sites@.len(), k),
        agrees(d@, spec_distances(st.graph(), st.claims(), mine, st.map.sites@.len())),
        d@.dom().subset_of(st.graph().dom()),
{
    let ghost g = st.graph();
    let ghost cl = st.claims();
    let ghost n = st.map.sites@.len();
    let nsites = st.map.sites.len();
    let mut d: HashMap<usize, usize> = HashMap::new();
    d.insert(mine, 0);
    let mut current_distance: usize = 0;
    let mut old_sites: Vec<usize> = Vec::new();
    old_sites.push(mine);
    let ghost mut k: nat = 0;
    proof {
        assert(agrees(d@, dist_run(g, cl, mine, 0).0));
        assert(old_sites@.to_set() =~= set![mine]) by {
            assert(old_sites@[0] == mine);
        }
        assert(d@.dom() =~= set![mine]);
        assert(set![mine].len() == 1);
    }
    while d.len() < nsites && old_sites.len() > 0
        invariant
            g == st.graph(),
            cl == st.claims(),
            n == nsites,
            st.well_formed(),
            g.contains_key(mine),
            k == current_distance,
            agrees(d@, dist_run(g, cl, mine, k).0),
            old_sites@.to_set() == dist_run(g, cl, mine, k).1,
            forall|j: nat| j < k ==> !#[trigger] dist_stops(g, cl, mine, n, j),
            d@.dom().subset_of(g.dom()),
            forall|i: int| 0 <= i < old_sites@.len() ==> g.contains_key(#[trigger] old_sites@[i]),
            old_sites@.len() > 0 ==> d@.dom().len() >= current_distance + 1,
            old_sites@.len() == 0 ==> d@.dom().len() >= current_distance,
        decreases
            2 * (g.dom().len() - d@.dom().len()) + if old_sites@.len() > 0 { 1int } else { 0int },
    {
        proof {
            st.lemma_graph_finite();
            lemma_grow(d@.dom(), d@.dom(), g.dom());
            assert(!dist_stops(g, cl, mine, n, k)) by {
                if old_sites@.to_set().is_empty() {
                    assert(old_sites@.to_set().contains(old_sites@[0]));
                }
            }
        }
        current_distance = current_distance + 1;
        let ghost d_before = d@;
        let fresh = expand(st, &old_sites, &mut d, current_distance + 1, EdgeMode::All);
        proof {
            k = k + 1;
            let prev = dist_run(g, cl, mine, (k - 1) as nat);
            assert(d@.dom() =~= add_layer(prev.0, fresh@.to_set(), k + 1).dom());
            assert forall|t: usize| #[trigger] fresh@.contains(t) implies g.contains_key(t) by {
                assert(fresh@.to_set().contains(t));
                let s = choose|s: usize| old_sites@.to_set().contains(s) && #[trigger] follows(g, cl, EdgeMode::All, s, t);
                assert(graph_closed(g, st.riverdata@.len()));
                assert(g[s].contains_key(t));
            }
            assert(d@.dom().subset_of(g.dom()));
            lemma_grow(d_before.dom(), d@.dom(), g.dom());
            if fresh@.len() > 0 {
                assert(fresh@.contains(fresh@[0]));
                assert(fresh@.to_set().contains(fresh@[0]));
                assert(d@.contains_key(fresh@[0]) && !d_before.contains_key(fresh@[0]));
            }
        }
        old_sites = fresh;
    }
    proof {
        assert(d@.dom().len() == d.len());
        assert(dist_stops(g, cl, mine, n, k)) by {
            if old_sites@.len() == 0 {
                assert(old_sites@.to_set() =~= Set::<usize>::empty());
            }
        }
        assert(dist_done_at(g, cl, mine, n, k));
        lemma_dist_done_unique(g, cl, mine, n, k);
    }
    d
}

/// The sites at the end of some walk from `mine`.
pub open spec fn reachable_from(g: Map<usize, Map<usize, usize>>, mine: usize) -> Set<usize> {
    Set::new(|t: usize| exists|p: Seq<usize>| is_walk(g, p) && p[0] == mine && p.last() == t)
}

/// `mine` reaches at least `n` sites over the board's rivers. On a board
/// of `n` sites, each listed once, this says that every site can be reached.
pub open spec fn reaches_enough(g: Map<usize, Map<usize, usize>>, mine: usize, n: nat) -> bool {
    reachable_from(g, mine).len() >= n
}

/// Every site that the search places after `k` rounds is reachable.
proof fn lemma_placed_reachable(g: Map<usize, Map<usize, usize>>, cl: Seq<Option<usize>>, mine: usize, k: nat)
    ensures
        dist_run(g, cl, mine, k).0.dom().subset_of(reachable_from(g, mine)),
{
    assert forall|t: usize| dist_run(g, cl, mine, k).0.contains_key(t) implies #[trigger] reachable_from(g, mine).contains(t) by {
        if t == mine {
            let p = seq![mine];
            assert(is_walk(g, p) && p[0] == mine && p.last() == t);
        } else {
            lemma_dist_value(g, cl, mine, k, t);
            let j = choose|j: nat| 1 <= j <= k && #[trigger] dist_run(g, cl, mine, j).1.contains(t) && !dist_run(g, cl, mine, (j - 1) as nat).0.contains_key(t)
                && dist_run(g, cl, mine, k).0[t] == j + 1;
            lemma_fresh_has_walk(g, cl, mine, j, t);
        }
    }
}

/// Once a round of the search reaches no new site, it has placed every
/// reachable site.
proof fn lemma_reachable_placed(g: Map<usize, Map<usize, usize>>, cl: Seq<Option<usize>>, mine: usize, k: nat)
    requires
        dist_run(g, cl, mine, k).1.is_empty(),
    ensures
        reachable_from(g, mine).subset_of(dist_run(g, cl, mine, k).0.dom()),
{
    assert forall|t: usize| #[trigger] reachable_from(g, mine).contains(t) implies dist_run(g, cl, mine, k).0.contains_key(t) by {
        let p = choose|p: Seq<usize>| is_walk(g, p) && p[0] == mine && p.last() == t;
        lemma_walk_seen(g, cl, mine, p);
        let m = (p.len() - 1) as nat;
        if m <= k {
            lemma_dist_seen_mono(g, cl, mine, m, k);
        } else {
            lemma_dist_settled(g, cl, mine, k, m);
        }
    }
}

/// On a well-formed board, the reachable sites are sites of the board, so
/// there are finitely many of them.
proof fn lemma_reachable_finite(st: &State, mine: usize)
    requires
        st.well_formed(),
        st.graph().contains_key(mine),
    ensures
        reachable_from(st.graph(), mine).subset_of(st.graph().dom()),
        reachable_from(st.graph(), mine).finite(),
{
    let g = st.graph();
    st.lemma_graph_finite();
    assert forall|t: usize| #[trigger] reachable_from(g, mine).contains(t) implies g.contains_key(t) by {
        let p = choose|p: Seq<usize>| is_walk(g, p) && p[0] == mine && p.last() == t;
        if p.len() > 1 {
            let i = p.len() - 2;
            assert(g.contains_key(p[i]) && g[p[i]].contains_key(p[i + 1]));
            assert(p[i + 1] == t);
        }
    }
    vstd::set_lib::lemma_set_subset_finite(g.dom(), reachable_from(g, mine));
}

/// Distances from `mine` over every river, counted in rounds of a
/// breadth-first search: the mine is at 0, and a site first reached in
/// round `k` is at `k + 1`, that is, one more than the fewest rivers on a
/// walk from the mine (see `lemma_distance_is_shortest_walk`). The search
/// stops once it has placed as many sites as the board lists. It needs the
/// mine to reach that many sites: on a board that lists a site the mine
/// cannot reach, or lists a site twice, it would never end.
/// `reaches_enough_sites` tells whether a board is fit.
pub fn distances(st: &State, mine: usize) -> (d: HashMap<usize, usize>)
    requires
        st.well_formed(),
        st.graph().contains_key(mine),
        reaches_enough(st.graph(), mine, st.map.sites@.len()),
    ensures
        exists|k: nat| dist_done_at(st.graph(), st.claims(), mine, st.map.sites@.len(), k),
        agrees(d@, spec_distances(st.graph(), st.claims(), mine, st.map.sites@.len())),
        d@.dom().subset_of(st.graph().dom()),
        d@.dom().len() >= st.map.sites@.len(),
{
    let d = search_distances(st, mine);
    proof {
        let g = st.graph();
        let cl = st.claims();
        let n = st.map.sites@.len();
        let k = choose|k: nat| dist_done_at(g, cl, mine, n, k);
        assert(dist_done_at(g, cl, mine, n, k));
        if dist_run(g, cl, mine, k).1.is_empty() {
            lemma_placed_reachable(g, cl, mine, k);
            lemma_reachable_placed(g, cl, mine, k);
            assert(dist_run(g, cl, mine, k).0.dom() =~= reachable_from(g, mine));
        }
        assert(d@.dom() == spec_distances(g, cl, mine, n).dom());
    }
    d
}

/// Whether `mine` reaches at least as many sites as the board lists, which
/// is what `distances` needs to end.
pub fn reaches_enough_sites(st: &State, mine: usize) -> (b: bool)
    requires
        st.well_formed(),
        st.graph().contains_key(mine),
    ensures
        b == reaches_enough(st.graph(), mine, st.map.sites@.len()),
{
    let d = search_distances(st, mine);
    let b = d.len() >= st.map.sites.len();
    proof {
        let g = st.graph();
        let cl = st.claims();
        let n = st.map.sites@.len();
        let k = choose|k: nat| dist_done_at(g, cl, mine, n, k);
        assert(dist_done_at(g, cl, mine, n, k));
        assert(d@.dom() == dist_run(g, cl, mine, k).0.dom());
        lemma_placed_reachable(g, cl, mine, k);
        lemma_reachable_finite(st, mine);
        vstd::set_lib::lemma_len_subset(d@.dom(), reachable_from(g, mine));
        if dist_run(g, cl, mine, k).1.is_empty() {
            lemma_reachable_placed(g, cl, mine, k);
            assert(dist_run(g, cl, mine, k).0.dom() =~= reachable_from(g, mine));
        }
    }
    b
}

proof fn lemma_concat_to_set(a: Seq<usize>, b: Seq<usize>)
    ensures
        (a + b).to_set() == a.to_set().union(b.to_set()),
{
    assert forall|x: usize| (a + b).to_set().contains(x) <==> a.to_set().union(b.to_set()).contains(x) by {
        if (a + b).contains(x) {
            let w = choose|w: int| 0 <= w < (a + b).len() && (a + b)[w] == x;
            if w < a.len() {
                assert(a[w] == x);
            } else {
                assert(b[w - a.len()] == x);
            }
        }
        if a.contains(x) {
            let w = choose|w: int| 0 <= w < a.len() && a[w] == x;
            assert((a + b)[w] == x);
        }
        if b.contains(x) {
            let w = choose|w: int| 0 <= w < b.len() && b[w] == x;
            assert((a + b)[a.len() + w] == x);
        }
    }
    assert((a + b).to_set() =~= a.to_set().union(b.to_set()));
}

/// The keys of a table, as a set.
fn key_set(d: &HashMap<usize, usize>) -> (s: HashSet<usize>)
    ensures
        s@ == d@.dom(),
{
    let es = entries_of(d);
    let mut s: HashSet<usize> = HashSet::new();
    for i in 0..es.len()
        invariant
            forall|x: int| 0 <= x < es@.len() ==> #[trigger] d@.contains_key(es@[x].0),
            forall|k: usize| #[trigger] d@.contains_key(k) ==> exists|x: int| 0 <= x < es@.len() && es@[x].0 == k,
            forall|k: usize| s@.contains(k) <==> exists|x: int| 0 <= x < i && #[trigger] es@[x].0 == k,
    {
        s.insert(es[i].0);
        assert forall|k: usize| s@.contains(k) <==> exists|x: int| 0 <= x < i + 1 && #[trigger] es@[x].0 == k by {
            if k == es@[i as int].0 {
                assert(es@[i as int].0 == k);
            }
        }
    }
    assert forall|k: usize| s@.contains(k) <==> d@.contains_key(k) by {
        if d@.contains_key(k) {
            let x = choose|x: int| 0 <= x < es@.len() && es@[x].0 == k;
            assert(es@[x].0 == k);
        }
    }
    assert(s@ =~= d@.dom());
    s
}

/// The sites reached, and the sites first reached in the last round, after
/// `k` rounds of following `punter`'s rivers from `mine`.
pub open spec fn reach_run(g: Map<usize, Map<usize, usize>>, cl: Seq<Option<usize>>, punter: usize, mine: usize, k: nat) -> (Set<usize>, Set<usize>)
    decreases k,
{
    if k == 0 {
        (Set::empty(), set![mine])
    } else {
        let prev = reach_run(g, cl, punter, mine, (k - 1) as nat);
        let fresh = step(g, cl, EdgeMode::OwnedBy(punter), prev.1, prev.0);
        (prev.0.union(fresh), fresh)
    }
}

/// `k` is the first round that reaches nothing new.
pub open spec fn reach_done_at(g: Map<usize, Map<usize, usize>>, cl: Seq<Option<usize>>, punter: usize, mine: usize, k: nat) -> bool {
    &&& reach_run(g, cl, punter, mine, k).1.is_empty()
    &&& forall|j: nat| j < k ==> !(#[trigger] reach_run(g, cl, punter, mine, j)).1.is_empty()
}

/// The sites that `punter` reaches from `mine` along a path of one or more
/// of its own rivers.
pub open spec fn spec_reaches(g: Map<usize, Map<usize, usize>>, cl: Seq<Option<usize>>, punter: usize, mine: usize) -> Set<usize> {
    reach_run(g, cl, punter, mine, choose|k: nat| reach_done_at(g, cl, punter, mine, k)).0
}

/// The sites that our punter reaches from `mine` along one or more of its
/// own rivers (the mine too, once one of its rivers touches it, since a
/// river leads back).
pub fn punter_reaches(st: &State, mine: usize) -> (reached: HashSet<usize>)
    requires
        st.well_formed(),
        st.graph().contains_key(mine),
    ensures
        exists|k: nat| reach_done_at(st.graph(), st.claims(), st.punter, mine, k),
        reached@ == spec_reaches(st.graph(), st.claims(), st.punter, mine),
{
    let table = reach_table(st, st.punter, mine);
    key_set(&table)
}

/// The sites that `punter` reaches from `mine` along its own rivers, as the
/// keys of a table.
pub(crate) fn reach_table(st: &State, punter: usize, mine: usize) -> (reached: HashMap<usize, usize>)
    requires
        st.well_formed(),
        st.graph().contains_key(mine),
    ensures
        exists|k: nat| reach_done_at(st.graph(), st.claims(), punter, mine, k),
        reached@.dom() == spec_reaches(st.graph(), st.claims(), punter, mine),
{
    let ghost g = st.graph();
    let ghost cl = st.claims();
    let ghost p = punter;
    let mut reached: HashMap<usize, usize> = HashMap::new();
    let mut old_sites: Vec<usize> = Vec::new();
    old_sites.push(mine);
    let ghost mut k: nat = 0;
    proof {
        assert(old_sites@.to_set() =~= set![mine]) by {
            assert(old_sites@[0] == mine);
        }
        assert(reached@.dom() =~= Set::<usize>::empty());
    }
    while old_sites.len() > 0
        invariant
            g == st.graph(),
            cl == st.claims(),
            p == punter,
            st.well_formed(),
            g.contains_key(mine),
            reached@.dom() == reach_run(g, cl, p, mine, k).0,
            old_sites@.to_set() == reach_run(g, cl, p, mine, k).1,
            forall|j: nat| j < k ==> !(#[trigger] reach_run(g, cl, p, mine, j)).1.is_empty(),
            reached@.dom().subset_of(g.dom()),
            forall|i: int| 0 <= i < old_sites@.len() ==> g.contains_key(#[trigger] old_sites@[i]),
        decreases
            2 * (g.dom().len() - reached@.dom().len()) + if old_sites@.len() > 0 { 1int } else { 0int },
    {
        proof {
            st.lemma_graph_finite();
            lemma_grow(reached@.dom(), reached@.dom(), g.dom());
            assert(!reach_run(g, cl, p, mine, k).1.is_empty()) by {
                assert(old_sites@.to_set().contains(old_sites@[0]));
            }
        }
        let ghost before = reached@;
        let fresh = expand(st, &old_sites, &mut reached, 0, EdgeMode::OwnedBy(punter));
        proof {
            k = k + 1;
            assert(reached@.dom() =~= reach_run(g, cl, p, mine, k).0);
            assert forall|t: usize| #[trigger] fresh@.contains(t) implies g.contains_key(t) by {
                assert(fresh@.to_set().contains(t));
                let s = choose|s: usize| old_sites@.to_set().contains(s) && #[trigger] follows(g, cl, EdgeMode::OwnedBy(p), s, t);
                assert(graph_closed(g, st.riverdata@.len()));
                assert(g[s].contains_key(t));
            }
            assert(reached@.dom().subset_of(g.dom()));
            lemma_grow(before.dom(), reached@.dom(), g.dom());
            if fresh@.len() > 0 {
                assert(fresh@.to_set().contains(fresh@[0]));
                assert(reached@.contains_key(fresh@[0]) && !before.contains_key(fresh@[0]));
            }
        }
        old_sites = fresh;
    }
    proof {
        assert(old_sites@.to_set() =~= Set::<usize>::empty());
        assert(reach_done_at(g, cl, p, mine, k));
        let j = choose|j: nat| reach_done_at(g, cl, p, mine, j);
        assert(reach_done_at(g, cl, p, mine, j));
        if j < k {
            assert(!reach_run(g, cl, p, mine, j).1.is_empty());
        } else if j > k {
            assert(!reach_run(g, cl, p, mine, k).1.is_empty());
        }
    }
    reached
}

/// The state of the search that counts only rivers still to be claimed,
/// after `k` steps: the distance table, the sites to search from, and the
/// current distance.
pub open spec fn my_run(g: Map<usize, Map<usize, usize>>, cl: Seq<Option<usize>>, punter: usize, mine: usize, k: nat) -> (Map<usize, nat>, Set<usize>, nat)
    decreases k,
{
    if k == 0 {
        (map![mine => 0nat], set![mine], 0)
    } else {
        let prev = my_run(g, cl, punter, mine, (k - 1) as nat);
        let zero = step(g, cl, EdgeMode::OwnedBy(punter), prev.1, prev.0.dom());
        if !zero.is_empty() {
            (add_layer(prev.0, zero, prev.2), prev.1.union(zero), prev.2)
        } else {
            let one = step(g, cl, EdgeMode::Unclaimed, prev.1, prev.0.dom());
            (add_layer(prev.0, one, prev.2 + 1), one, prev.2 + 1)
        }
    }
}

/// The search stops once it has placed at least `n` sites, or has no sites
/// left to search from.
pub open spec fn my_stops(g: Map<usize, Map<usize, usize>>, cl: Seq<Option<usize>>, punter: usize, mine: usize, n: nat, k: nat) -> bool {
    my_run(g, cl, punter, mine, k).0.dom().len() >= n || my_run(g, cl, punter, mine, k).1.is_empty()
}

/// `k` is the step at which the search stops.
pub open spec fn my_done_at(g: Map<usize, Map<usize, usize>>, cl: Seq<Option<usize>>, punter: usize, mine: usize, n: nat, k: nat) -> bool {
    &&& my_stops(g, cl, punter, mine, n, k)
    &&& forall|j: nat| j < k ==> !#[trigger] my_stops(g, cl, punter, mine, n, j)
}

/// How many unclaimed rivers `punter` still needs to reach each site from
/// `mine`, moving freely along its own rivers.
pub open spec fn spec_my_distances(g: Map<usize, Map<usize, usize>>, cl: Seq<Option<usize>>, punter: usize, mine: usize, n: nat) -> Map<usize, nat> {
    my_run(g, cl, punter, mine, choose|k: nat| my_done_at(g, cl, punter, mine, n, k)).0
}

/// For each site, how many unclaimed rivers our punter would still have to
/// claim to connect it to `mine`: rivers it owns cost nothing, rivers that
/// others own are never crossed. Each placed site is at the least number
/// of unclaimed rivers on a walk the punter may take from the mine (see
/// `lemma_my_distance_is_least_cost`). The search stops once it has placed
/// as many sites as the board lists, or has nowhere left to go; in the
/// second case it has placed every site such a walk reaches (see
/// `lemma_my_distances_complete`).
pub fn my_distances(st: &State, mine: usize) -> (d: HashMap<usize, usize>)
    requires
        st.well_formed(),
        st.graph().contains_key(mine),
    ensures
        exists|k: nat| my_done_at(st.graph(), st.claims(), st.punter, mine, st.map.sites@.len(), k),
        agrees(d@, spec_my_distances(st.graph(), st.claims(), st.punter, mine, st.map.sites@.len())),
        d@.dom().subset_of(st.graph().dom()),
{
    let ghost g = st.graph();
    let ghost cl = st.claims();
    let ghost p = st.punter;
    let ghost n = st.map.sites@.len();
    let nsites = st.map.sites.len();
    let mut d: HashMap<usize, usize> = HashMap::new();
    d.insert(mine, 0);
    let mut current_distance: usize = 0;
    let mut old_sites: Vec<usize> = Vec::new();
    old_sites.push(mine);
    let ghost mut k: nat = 0;
    proof {
        assert(agrees(d@, my_run(g, cl, p, mine, 0).0));
        assert(old_sites@.to_set() =~= set![mine]) by {
            assert(old_sites@[0] == mine);
        }
        assert(d@.dom() =~= set![mine]);
        assert(set![mine].len() == 1);
    }
    while d.len() < nsites && old_sites.len() > 0
        invariant
            g == st.graph(),
            cl == st.claims(),
            p == st.punter,
            n == nsites,
            st.well_formed(),
            g.contains_key(mine),
            current_distance == my_run(g, cl, p, mine, k).2,
            agrees(d@, my_run(g, cl, p, mine, k).0),
            old_sites@.to_set() == my_run(g, cl, p, mine, k).1,
            forall|j: nat| j < k ==> !#[trigger] my_stops(g, cl, p, mine, n, j),
            d@.dom().subset_of(g.dom()),
            forall|i: int| 0 <= i < old_sites@.len() ==> g.contains_key(#[trigger] old_sites@[i]),
            old_sites@.len() > 0 ==> d@.dom().len() >= current_distance + 1,
            old_sites@.len() == 0 ==> d@.dom().len() >= current_distance,
        decreases
            2 * (g.dom().len() - d@.dom().len()) + if old_sites@.len() > 0 { 1int } else { 0int },
    {
        proof {
            st.lemma_graph_finite();
            lemma_grow(d@.dom(), d@.dom(), g.dom());
            assert(!my_stops(g, cl, p, mine, n, k)) by {
                assert(old_sites@.to_set().contains(old_sites@[0]));
            }
        }
        let ghost d_before = d@;
        let ghost prev = my_run(g, cl, p, mine, k);
        let mut zero = expand(st, &old_sites, &mut d, current_distance, EdgeMode::OwnedBy(st.punter));
        proof {
            assert forall|t: usize| #[trigger] zero@.contains(t) implies g.contains_key(t) by {
                assert(zero@.to_set().contains(t));
                let s = choose|s: usize| old_sites@.to_set().contains(s) && #[trigger] follows(g, cl, EdgeMode::OwnedBy(p), s, t);
                assert(graph_closed(g, st.riverdata@.len()));
                assert(g[s].contains_key(t));
            }
            assert(d@.dom().subset_of(g.dom()));
            lemma_grow(d_before.dom(), d@.dom(), g.dom());
        }
        if zero.len() > 0 {
            let ghost old_before = old_sites@;
            let ghost zv = zero@;
            old_sites.append(&mut zero);
            proof {
                k = k + 1;
                assert(zv.to_set().contains(zv[0]));
                assert(!prev.1.union(step(g, cl, EdgeMode::OwnedBy(p), prev.1, prev.0.dom())).is_empty());
                assert(!step(g, cl, EdgeMode::OwnedBy(p), prev.1, prev.0.dom()).is_empty()) by {
                    assert(step(g, cl, EdgeMode::OwnedBy(p), prev.1, prev.0.dom()).contains(zv[0]));
                }
                lemma_concat_to_set(old_before, zv);
                assert(d@.dom() =~= my_run(g, cl, p, mine, k).0.dom());
                assert(d@.contains_key(zv[0]) && !d_before.contains_key(zv[0]));
                assert forall|i: int| 0 <= i < old_sites@.len() implies g.contains_key(#[trigger] old_sites@[i]) by {
                    if i >= old_before.len() {
                        assert(old_sites@[i] == zv[i - old_before.len()]);
                        assert(zv.contains(zv[i - old_before.len()]));
                    }
                }
            }
        } else {
            proof {
                assert(zero@.to_set() =~= Set::<usize>::empty());
                assert(d@ == d_before) by {
                    assert(d@ =~= d_before);
                }
            }
            current_distance = current_distance + 1;
            let ghost d_mid = d@;
            let one = expand(st, &old_sites, &mut d, current_distance, EdgeMode::Unclaimed);
            proof {
                k = k + 1;
                assert(d@.dom() =~= my_run(g, cl, p, mine, k).0.dom());
                assert forall|t: usize| #[trigger] one@.contains(t) implies g.contains_key(t) by {
                    assert(one@.to_set().contains(t));
                    let s = choose|s: usize| old_sites@.to_set().contains(s) && #[trigger] follows(g, cl, EdgeMode::Unclaimed, s, t);
                    assert(graph_closed(g, st.riverdata@.len()));
                    assert(g[s].contains_key(t));
                }
                assert(d@.dom().subset_of(g.dom()));
                lemma_grow(d_mid.dom(), d@.dom(), g.dom());
                if one@.len() > 0 {
                    assert(one@.to_set().contains(one@[0]));
                    assert(d@.contains_key(one@[0]) && !d_mid.contains_key(one@[0]));
                }
            }
            old_sites = one;
        }
    }
    proof {
        assert(d@.dom().len() == d.len());
        assert(my_stops(g, cl, p, mine, n, k)) by {
            if old_sites@.len() == 0 {
                assert(old_sites@.to_set() =~= Set::<usize>::empty());
            }
        }
        assert(my_done_at(g, cl, p, mine, n, k));
        let j = choose|j: nat| my_done_at(g, cl, p, mine, n, j);
        assert(my_done_at(g, cl, p, mine, n, j));
        if j < k {
            assert(!my_stops(g, cl, p, mine, n, j));
        } else if j > k {
            assert(!my_stops(g, cl, p, mine, n, k));
        }
    }
    d
}

proof fn lemma_dist_run_mine(g: Map<usize, Map<usize, usize>>, cl: Seq<Option<usize>>, mine: usize, k: nat)
    ensures
        dist_run(g, cl, mine, k).0.contains_key(mine),
        dist_run(g, cl, mine, k).0[mine] == 0,
    decreases k,
{
    if k > 0 {
        lemma_dist_run_mine(g, cl, mine, (k - 1) as nat);
    }
}

/// A mine is at distance zero from itself.
pub proof fn lemma_mine_at_zero(g: Map<usize, Map<usize, usize>>, cl: Seq<Option<usize>>, mine: usize, n: nat)
    ensures
        spec_distances(g, cl, mine, n).contains_key(mine),
        spec_distances(g, cl, mine, n)[mine] == 0,
{
    lemma_dist_run_mine(g, cl, mine, choose|k: nat| dist_done_at(g, cl, mine, n, k));
}

proof fn lemma_my_run_mine(g: Map<usize, Map<usize, usize>>, cl: Seq<Option<usize>>, punter: usize, mine: usize, k: nat)
    ensures
        my_run(g, cl, punter, mine, k).0.contains_key(mine),
        my_run(g, cl, punter, mine, k).0[mine] == 0,
    decreases k,
{
    if k > 0 {
        lemma_my_run_mine(g, cl, punter, mine, (k - 1) as nat);
    }
}

/// A mine needs no river to reach itself.
pub proof fn lemma_my_mine_at_zero(g: Map<usize, Map<usize, usize>>, cl: Seq<Option<usize>>, punter: usize, mine: usize, n: nat)
    ensures
        spec_my_distances(g, cl, punter, mine, n).contains_key(mine),
        spec_my_distances(g, cl, punter, mine, n)[mine] == 0,
{
    lemma_my_run_mine(g, cl, punter, mine, choose|k: nat| my_done_at(g, cl, punter, mine, n, k));
}

proof fn lemma_reach_run_closed(g: Map<usize, Map<usize, usize>>, cl: Seq<Option<usize>>, punter: usize, mine: usize, k: nat)
    requires
        k >= 1,
    ensures
        reach_run(g, cl, punter, mine, k).1.subset_of(reach_run(g, cl, punter, mine, k).0),
        forall|t: usize| #[trigger] follows(g, cl, EdgeMode::OwnedBy(punter), mine, t) ==> reach_run(g, cl, punter, mine, k).0.contains(t),
        forall|s: usize, t: usize|
            reach_run(g, cl, punter, mine, k).0.contains(s) && !reach_run(g, cl, punter, mine, k).1.contains(s)
                && #[trigger] follows(g, cl, EdgeMode::OwnedBy(punter), s, t) ==> reach_run(g, cl, punter, mine, k).0.contains(t),
    decreases k,
{
    let prev = reach_run(g, cl, punter, mine, (k - 1) as nat);
    let cur = reach_run(g, cl, punter, mine, k);
    let fresh = step(g, cl, EdgeMode::OwnedBy(punter), prev.1, prev.0);
    if k == 1 {
        assert forall|t: usize| #[trigger] follows(g, cl, EdgeMode::OwnedBy(punter), mine, t) implies cur.0.contains(t) by {
            assert(prev.1.contains(mine));
            assert(fresh.contains(t));
        }
        assert forall|s: usize, t: usize|
            cur.0.contains(s) && !cur.1.contains(s) && #[trigger] follows(g, cl, EdgeMode::OwnedBy(punter), s, t)
            implies cur.0.contains(t) by {
            assert(prev.0 =~= Set::<usize>::empty());
        }
    } else {
        lemma_reach_run_closed(g, cl, punter, mine, (k - 1) as nat);
        assert forall|s: usize, t: usize|
            cur.0.contains(s) && !cur.1.contains(s) && #[trigger] follows(g, cl, EdgeMode::OwnedBy(punter), s, t)
            implies cur.0.contains(t) by {
            assert(prev.0.contains(s));
            if prev.1.contains(s) {
                if !prev.0.contains(t) {
                    assert(fresh.contains(t));
                }
            }
        }
    }
}

/// The sites that a punter reaches are closed under its rivers: every
/// river of the punter from the mine or from a reached site leads to a
/// reached site.
pub proof fn lemma_reaches_closed(g: Map<usize, Map<usize, usize>>, cl: Seq<Option<usize>>, punter: usize, mine: usize, s: usize, t: usize)
    requires
        exists|k: nat| reach_done_at(g, cl, punter, mine, k),
        s == mine || spec_reaches(g, cl, punter, mine).contains(s),
        follows(g, cl, EdgeMode::OwnedBy(punter), s, t),
    ensures
        spec_reaches(g, cl, punter, mine).contains(t),
{
    let k = choose|k: nat| reach_done_at(g, cl, punter, mine, k);
    assert(reach_done_at(g, cl, punter, mine, k));
    assert(k >= 1) by {
        if k == 0 {
            assert(reach_run(g, cl, punter, mine, 0).1.contains(mine));
        }
    }
    lemma_reach_run_closed(g, cl, punter, mine, k);
    assert(!reach_run(g, cl, punter, mine, k).1.contains(s));
}

/// Every site that the search counting unclaimed rivers goes on from
/// already has a distance, so it never needs checking apart from the table.
pub proof fn lemma_my_frontier_placed(g: Map<usize, Map<usize, usize>>, cl: Seq<Option<usize>>, punter: usize, mine: usize, k: nat)
    ensures
        my_run(g, cl, punter, mine, k).1.subset_of(my_run(g, cl, punter, mine, k).0.dom()),
    decreases k,
{
    if k > 0 {
        lemma_my_frontier_placed(g, cl, punter, mine, (k - 1) as nat);
    }
}

/// `c` holds the far end of every river of `punter` that starts at `mine`
/// or at a site of `c`.
pub open spec fn closed_from(g: Map<usize, Map<usize, usize>>, cl: Seq<Option<usize>>, punter: usize, mine: usize, c: Set<usize>) -> bool {
    forall|s: usize, t: usize|
        (s == mine || c.contains(s)) && #[trigger] follows(g, cl, EdgeMode::OwnedBy(punter), s, t) ==> c.contains(t)
}

proof fn lemma_reach_run_within(g: Map<usize, Map<usize, usize>>, cl: Seq<Option<usize>>, punter: usize, mine: usize, c: Set<usize>, k: nat)
    requires
        closed_from(g, cl, punter, mine, c),
    ensures
        reach_run(g, cl, punter, mine, k).0.subset_of(c),
        forall|s: usize| #[trigger] reach_run(g, cl, punter, mine, k).1.contains(s) ==> s == mine || c.contains(s),
    decreases k,
{
    if k > 0 {
        lemma_reach_run_within(g, cl, punter, mine, c, (k - 1) as nat);
        let prev = reach_run(g, cl, punter, mine, (k - 1) as nat);
        let fresh = step(g, cl, EdgeMode::OwnedBy(punter), prev.1, prev.0);
        assert forall|t: usize| fresh.contains(t) implies c.contains(t) by {
            let s = choose|s: usize| prev.1.contains(s) && #[trigger] follows(g, cl, EdgeMode::OwnedBy(punter), s, t);
        }
    }
}

/// The sites that a punter reaches are the least set closed under its
/// rivers from the mine: any such set holds them all.
pub proof fn lemma_reaches_least(g: Map<usize, Map<usize, usize>>, cl: Seq<Option<usize>>, punter: usize, mine: usize, c: Set<usize>)
    requires
        closed_from(g, cl, punter, mine, c),
    ensures
        spec_reaches(g, cl, punter, mine).subset_of(c),
{
    lemma_reach_run_within(g, cl, punter, mine, c, choose|k: nat| reach_done_at(g, cl, punter, mine, k));
}

/// `p` is a walk along rivers of `g`: each site but the last has a river
/// to the next.
pub open spec fn is_walk(g: Map<usize, Map<usize, usize>>, p: Seq<usize>) -> bool {
    &&& p.len() >= 1
    &&& forall|i: int| #![trigger p[i]] 0 <= i < p.len() - 1 ==> g.contains_key(p[i]) && g[p[i]].contains_key(p[i + 1])
}

proof fn lemma_dist_run_shape(g: Map<usize, Map<usize, usize>>, cl: Seq<Option<usize>>, mine: usize, k: nat)
    ensures
        dist_run(g, cl, mine, k).1.subset_of(dist_run(g, cl, mine, k).0.dom()),
        dist_run(g, cl, mine, k).0.dom().subset_of(dist_run(g, cl, mine, k + 1).0.dom()),
        forall|t: usize| #[trigger] dist_run(g, cl, mine, k).0.contains_key(t) ==> dist_run(g, cl, mine, k + 1).0[t] == dist_run(g, cl, mine, k).0[t],
        forall|t: usize| #[trigger] dist_run(g, cl, mine, k + 1).0.contains_key(t) ==>
            dist_run(g, cl, mine, k).0.contains_key(t) || dist_run(g, cl, mine, k + 1).1.contains(t),
        forall|t: usize| #[trigger] dist_run(g, cl, mine, k + 1).1.contains(t) ==>
            !dist_run(g, cl, mine, k).0.contains_key(t) && dist_run(g, cl, mine, k + 1).0[t] == k + 2,
        k == 0 ==> dist_run(g, cl, mine, k).0.dom() == set![mine] && dist_run(g, cl, mine, k).1 == set![mine],
    decreases k,
{
    if k > 0 {
        lemma_dist_run_shape(g, cl, mine, (k - 1) as nat);
    } else {
        assert(dist_run(g, cl, mine, 0).0.dom() =~= set![mine]);
    }
}

proof fn lemma_dist_seen_mono(g: Map<usize, Map<usize, usize>>, cl: Seq<Option<usize>>, mine: usize, a: nat, b: nat)
    requires
        a <= b,
    ensures
        dist_run(g, cl, mine, a).0.dom().subset_of(dist_run(g, cl, mine, b).0.dom()),
    decreases b,
{
    if a < b {
        lemma_dist_seen_mono(g, cl, mine, a, (b - 1) as nat);
        lemma_dist_run_shape(g, cl, mine, (b - 1) as nat);
    }
}

proof fn lemma_dist_closed(g: Map<usize, Map<usize, usize>>, cl: Seq<Option<usize>>, mine: usize, k: nat, s: usize, t: usize)
    requires
        dist_run(g, cl, mine, k).0.contains_key(s),
        g.contains_key(s),
        g[s].contains_key(t),
    ensures
        dist_run(g, cl, mine, k + 1).0.contains_key(t),
    decreases k,
{
    lemma_dist_run_shape(g, cl, mine, k);
    let cur = dist_run(g, cl, mine, k);
    let fresh = step(g, cl, EdgeMode::All, cur.1, cur.0.dom());
    assert(follows(g, cl, EdgeMode::All, s, t));
    if cur.1.contains(s) {
        if !cur.0.contains_key(t) {
            assert(fresh.contains(t));
        }
    } else {
        assert(k > 0);
        lemma_dist_run_shape(g, cl, mine, (k - 1) as nat);
        lemma_dist_closed(g, cl, mine, (k - 1) as nat, s, t);
    }
}

proof fn lemma_walk_seen(g: Map<usize, Map<usize, usize>>, cl: Seq<Option<usize>>, mine: usize, p: Seq<usize>)
    requires
        is_walk(g, p),
        p[0] == mine,
    ensures
        dist_run(g, cl, mine, (p.len() - 1) as nat).0.contains_key(p.last()),
    decreases p.len(),
{
    if p.len() == 1 {
        lemma_dist_run_shape(g, cl, mine, 0);
        assert(set![mine].contains(mine));
    } else {
        let q = p.drop_last();
        assert(is_walk(g, q)) by {
            assert forall|i: int| #![trigger q[i]] 0 <= i < q.len() - 1 implies g.contains_key(q[i]) && g[q[i]].contains_key(q[i + 1]) by {
                assert(q[i] == p[i] && q[i + 1] == p[i + 1]);
            }
        }
        lemma_walk_seen(g, cl, mine, q);
        let i = p.len() - 2;
        assert(p[i] == q.last());
        assert(g.contains_key(p[i]) && g[p[i]].contains_key(p[i + 1]));
        lemma_dist_closed(g, cl, mine, (q.len() - 1) as nat, q.last(), p.last());
    }
}

proof fn lemma_fresh_has_walk(g: Map<usize, Map<usize, usize>>, cl: Seq<Option<usize>>, mine: usize, k: nat, t: usize)
    requires
        dist_run(g, cl, mine, k).1.contains(t),
    ensures
        exists|p: Seq<usize>| is_walk(g, p) && p[0] == mine && p.last() == t && p.len() == k + 1,
    decreases k,
{
    if k == 0 {
        lemma_dist_run_shape(g, cl, mine, 0);
        let p = seq![mine];
        assert(is_walk(g, p));
    } else {
        let prev = dist_run(g, cl, mine, (k - 1) as nat);
        assert(step(g, cl, EdgeMode::All, prev.1, prev.0.dom()).contains(t));
        let s = choose|s: usize| prev.1.contains(s) && #[trigger] follows(g, cl, EdgeMode::All, s, t);
        lemma_fresh_has_walk(g, cl, mine, (k - 1) as nat, s);
        let q = choose|q: Seq<usize>| is_walk(g, q) && q[0] == mine && q.last() == s && q.len() == k;
        let p = q.push(t);
        assert(is_walk(g, p)) by {
            assert forall|i: int| #![trigger p[i]] 0 <= i < p.len() - 1 implies g.contains_key(p[i]) && g[p[i]].contains_key(p[i + 1]) by {
                if i < q.len() - 1 {
                    assert(p[i] == q[i] && p[i + 1] == q[i + 1]);
                    assert(g.contains_key(q[i]) && g[q[i]].contains_key(q[i + 1]));
                } else {
                    assert(p[i] == s && p[i + 1] == t);
                }
            }
        }
        assert(p[0] == mine && p.last() == t);
    }
}

proof fn lemma_dist_value(g: Map<usize, Map<usize, usize>>, cl: Seq<Option<usize>>, mine: usize, k: nat, t: usize)
    requires
        dist_run(g, cl, mine, k).0.contains_key(t),
        t != mine,
    ensures
        exists|j: nat| 1 <= j <= k && #[trigger] dist_run(g, cl, mine, j).1.contains(t) && !dist_run(g, cl, mine, (j - 1) as nat).0.contains_key(t)
            && dist_run(g, cl, mine, k).0[t] == j + 1,
    decreases k,
{
    if k == 0 {
        lemma_dist_run_shape(g, cl, mine, 0);
        assert(set![mine].contains(t));
    } else {
        lemma_dist_run_shape(g, cl, mine, (k - 1) as nat);
        let prev = dist_run(g, cl, mine, (k - 1) as nat);
        if prev.0.contains_key(t) {
            lemma_dist_value(g, cl, mine, (k - 1) as nat, t);
        } else {
            assert(dist_run(g, cl, mine, k).1.contains(t));
        }
    }
}

/// Every site that the search places, other than the mine, is at one more
/// than the fewest rivers on a walk to it from the mine: some walk of that
/// many rivers reaches it, and no walk of fewer does.
pub proof fn lemma_distance_is_shortest_walk(g: Map<usize, Map<usize, usize>>, cl: Seq<Option<usize>>, mine: usize, n: nat, t: usize)
    requires
        exists|k: nat| dist_done_at(g, cl, mine, n, k),
        spec_distances(g, cl, mine, n).contains_key(t),
        t != mine,
    ensures
        spec_distances(g, cl, mine, n)[t] >= 2,
        exists|p: Seq<usize>| is_walk(g, p) && p[0] == mine && p.last() == t && p.len() == spec_distances(g, cl, mine, n)[t],
        forall|p: Seq<usize>| is_walk(g, p) && p[0] == mine && p.last() == t ==> p.len() >= spec_distances(g, cl, mine, n)[t],
{
    let k = choose|k: nat| dist_done_at(g, cl, mine, n, k);
    lemma_dist_value(g, cl, mine, k, t);
    let j = choose|j: nat| 1 <= j <= k && #[trigger] dist_run(g, cl, mine, j).1.contains(t) && !dist_run(g, cl, mine, (j - 1) as nat).0.contains_key(t)
        && dist_run(g, cl, mine, k).0[t] == j + 1;
    lemma_fresh_has_walk(g, cl, mine, j, t);
    assert forall|p: Seq<usize>| is_walk(g, p) && p[0] == mine && p.last() == t implies p.len() >= spec_distances(g, cl, mine, n)[t] by {
        lemma_walk_seen(g, cl, mine, p);
        if p.len() < j + 1 {
            lemma_dist_seen_mono(g, cl, mine, (p.len() - 1) as nat, (j - 1) as nat);
        }
    }
}

proof fn lemma_dist_settled(g: Map<usize, Map<usize, usize>>, cl: Seq<Option<usize>>, mine: usize, k: nat, m: nat)
    requires
        dist_run(g, cl, mine, k).1.is_empty(),
        k <= m,
    ensures
        dist_run(g, cl, mine, m).1.is_empty(),
        dist_run(g, cl, mine, m).0.dom() == dist_run(g, cl, mine, k).0.dom(),
    decreases m,
{
    if k < m {
        lemma_dist_settled(g, cl, mine, k, (m - 1) as nat);
        let prev = dist_run(g, cl, mine, (m - 1) as nat);
        let fresh = step(g, cl, EdgeMode::All, prev.1, prev.0.dom());
        assert(fresh =~= Set::<usize>::empty());
        assert(dist_run(g, cl, mine, m).0.dom() =~= prev.0.dom());
    }
}

/// When the search ends on a round that reaches nothing new, it has placed
/// every site that some walk from the mine reaches.
pub proof fn lemma_distances_complete(g: Map<usize, Map<usize, usize>>, cl: Seq<Option<usize>>, mine: usize, n: nat, p: Seq<usize>)
    requires
        exists|k: nat| dist_done_at(g, cl, mine, n, k),
        dist_run(g, cl, mine, choose|k: nat| dist_done_at(g, cl, mine, n, k)).1.is_empty(),
        is_walk(g, p),
        p[0] == mine,
    ensures
        spec_distances(g, cl, mine, n).contains_key(p.last()),
{
    let k = choose|k: nat| dist_done_at(g, cl, mine, n, k);
    lemma_walk_seen(g, cl, mine, p);
    let m = (p.len() - 1) as nat;
    if m <= k {
        lemma_dist_seen_mono(g, cl, mine, m, k);
    } else {
        lemma_dist_settled(g, cl, mine, k, m);
    }
}

/// `punter` may cross the river from `s` to `t`: it owns it, or nobody
/// has claimed it.
pub open spec fn may_cross(g: Map<usize, Map<usize, usize>>, cl: Seq<Option<usize>>, punter: usize, s: usize, t: usize) -> bool {
    follows(g, cl, EdgeMode::OwnedBy(punter), s, t) || follows(g, cl, EdgeMode::Unclaimed, s, t)
}

/// `p` is a walk that `punter` may take: each step crosses a river it owns
/// or a river that nobody has claimed.
pub open spec fn free_walk(g: Map<usize, Map<usize, usize>>, cl: Seq<Option<usize>>, punter: usize, p: Seq<usize>) -> bool {
    &&& p.len() >= 1
    &&& forall|i: int| #![trigger p[i]] 0 <= i < p.len() - 1 ==> may_cross(g, cl, punter, p[i], p[i + 1])
}

/// How many rivers of the walk `p` `punter` would still have to claim:
/// its own rivers cost nothing, unclaimed ones one each.
pub open spec fn walk_cost(g: Map<usize, Map<usize, usize>>, cl: Seq<Option<usize>>, punter: usize, p: Seq<usize>) -> nat
    decreases p.len(),
{
    if p.len() <= 1 {
        0
    } else {
        walk_cost(g, cl, punter, p.drop_last()) + if follows(g, cl, EdgeMode::OwnedBy(punter), p[p.len() - 2], p.last()) {
            0nat
        } else {
            1nat
        }
    }
}

/// The cost of crossing the river from `s` to `t`.
pub open spec fn cross_cost(g: Map<usize, Map<usize, usize>>, cl: Seq<Option<usize>>, punter: usize, s: usize, t: usize) -> nat {
    if follows(g, cl, EdgeMode::OwnedBy(punter), s, t) { 0 } else { 1 }
}

/// What holds after every step of the search counting unclaimed rivers,
/// with `d` the table, `old` the sites to go on from and `cur` the current
/// distance: the sites to go on from are those at the current distance; no
/// site is farther; every site nearer than the current distance has all its
/// crossable neighbours placed no farther than the crossing allows; and
/// every placed site is reached by a walk of its cost.
pub open spec fn layer_inv(
    g: Map<usize, Map<usize, usize>>,
    cl: Seq<Option<usize>>,
    punter: usize,
    mine: usize,
    d: Map<usize, nat>,
    old: Set<usize>,
    cur: nat,
) -> bool {
    &&& forall|t: usize| #[trigger] d.contains_key(t) ==> d[t] <= cur
    &&& forall|t: usize| #[trigger] old.contains(t) ==> d.contains_key(t) && d[t] == cur
    &&& forall|t: usize| #[trigger] d.contains_key(t) && d[t] == cur ==> old.contains(t)
    &&& forall|s: usize, t: usize|
        d.contains_key(s) && d[s] < cur && #[trigger] may_cross(g, cl, punter, s, t) ==> d.contains_key(t) && d[t] <= d[s]
            + cross_cost(g, cl, punter, s, t)
    &&& forall|t: usize| #[trigger] d.contains_key(t) ==> exists|p: Seq<usize>|
        free_walk(g, cl, punter, p) && p[0] == mine && p.last() == t && walk_cost(g, cl, punter, p) == d[t]
}

/// The invariant of the search counting unclaimed rivers, after `k` steps.
pub open spec fn my_run_inv(g: Map<usize, Map<usize, usize>>, cl: Seq<Option<usize>>, punter: usize, mine: usize, k: nat) -> bool {
    layer_inv(g, cl, punter, mine, my_run(g, cl, punter, mine, k).0, my_run(g, cl, punter, mine, k).1, my_run(g, cl, punter, mine, k).2)
}

proof fn lemma_extend_walk(g: Map<usize, Map<usize, usize>>, cl: Seq<Option<usize>>, punter: usize, q: Seq<usize>, t: usize)
    requires
        free_walk(g, cl, punter, q),
        may_cross(g, cl, punter, q.last(), t),
    ensures
        free_walk(g, cl, punter, q.push(t)),
        q.push(t)[0] == q[0],
        q.push(t).last() == t,
        walk_cost(g, cl, punter, q.push(t)) == walk_cost(g, cl, punter, q) + cross_cost(g, cl, punter, q.last(), t),
{
    let p = q.push(t);
    assert(p.drop_last() == q);
    assert(p[p.len() - 2] == q.last());
    assert forall|i: int| #![trigger p[i]] 0 <= i < p.len() - 1 implies may_cross(g, cl, punter, p[i], p[i + 1]) by {
        if i < q.len() - 1 {
            assert(p[i] == q[i] && p[i + 1] == q[i + 1]);
            assert(may_cross(g, cl, punter, q[i], q[i + 1]));
        }
    }
}

proof fn lemma_my_run_inv(g: Map<usize, Map<usize, usize>>, cl: Seq<Option<usize>>, punter: usize, mine: usize, k: nat)
    ensures
        my_run_inv(g, cl, punter, mine, k),
    decreases k,
{
    if k == 0 {
        let d = my_run(g, cl, punter, mine, 0).0;
        let old = my_run(g, cl, punter, mine, 0).1;
        assert(d == map![mine => 0nat]);
        assert(old == set![mine]);
        assert(my_run(g, cl, punter, mine, 0).2 == 0);
        let p = seq![mine];
        assert(free_walk(g, cl, punter, p));
        assert(walk_cost(g, cl, punter, p) == 0);
        assert forall|t: usize| #[trigger] d.contains_key(t) implies exists|p: Seq<usize>|
            free_walk(g, cl, punter, p) && p[0] == mine && p.last() == t && walk_cost(g, cl, punter, p) == d[t] by {
            assert(t == mine);
            assert(p[0] == mine && p.last() == t);
        }
    } else {
        lemma_my_run_inv(g, cl, punter, mine, (k - 1) as nat);
        let d = my_run(g, cl, punter, mine, (k - 1) as nat).0;
        let old = my_run(g, cl, punter, mine, (k - 1) as nat).1;
        let cur = my_run(g, cl, punter, mine, (k - 1) as nat).2;
        assert(layer_inv(g, cl, punter, mine, d, old, cur));
        let zero = step(g, cl, EdgeMode::OwnedBy(punter), old, d.dom());
        let d2 = my_run(g, cl, punter, mine, k).0;
        let old2 = my_run(g, cl, punter, mine, k).1;
        let cur2 = my_run(g, cl, punter, mine, k).2;
        if !zero.is_empty() {
            assert(d2 == add_layer(d, zero, cur));
            assert(old2 == old.union(zero));
            assert(cur2 == cur);
            assert forall|t: usize| #[trigger] d2.contains_key(t) implies d2[t] <= cur2 by {}
            assert forall|t: usize| #[trigger] old2.contains(t) implies d2.contains_key(t) && d2[t] == cur2 by {
                if old.contains(t) {
                    assert(d.contains_key(t));
                }
            }
            assert forall|t: usize| #[trigger] d2.contains_key(t) && d2[t] == cur2 implies old2.contains(t) by {
                if d.contains_key(t) {
                    assert(old.contains(t));
                }
            }
            assert forall|t: usize| #[trigger] d2.contains_key(t) implies exists|p: Seq<usize>|
                free_walk(g, cl, punter, p) && p[0] == mine && p.last() == t && walk_cost(g, cl, punter, p) == d2[t] by {
                if !d.contains_key(t) {
                    assert(zero.contains(t));
                    let s = choose|s: usize| old.contains(s) && #[trigger] follows(g, cl, EdgeMode::OwnedBy(punter), s, t);
                    assert(d.contains_key(s) && d[s] == cur);
                    let q = choose|q: Seq<usize>| free_walk(g, cl, punter, q) && q[0] == mine && q.last() == s && walk_cost(g, cl, punter, q) == d[s];
                    assert(may_cross(g, cl, punter, s, t));
                    lemma_extend_walk(g, cl, punter, q, t);
                    assert(cross_cost(g, cl, punter, s, t) == 0);
                    let p = q.push(t);
                    assert(free_walk(g, cl, punter, p) && p[0] == mine && p.last() == t && walk_cost(g, cl, punter, p) == d2[t]);
                } else {
                    assert(d2[t] == d[t]);
                    let p = choose|p: Seq<usize>| free_walk(g, cl, punter, p) && p[0] == mine && p.last() == t && walk_cost(g, cl, punter, p) == d[t];
                    assert(free_walk(g, cl, punter, p) && p[0] == mine && p.last() == t && walk_cost(g, cl, punter, p) == d2[t]);
                }
            }
            assert forall|s: usize, t: usize|
                d2.contains_key(s) && d2[s] < cur2 && #[trigger] may_cross(g, cl, punter, s, t) implies d2.contains_key(t) && d2[t] <= d2[s]
                    + cross_cost(g, cl, punter, s, t) by {
                assert(d.contains_key(s));
                assert(d.contains_key(t));
            }
            assert(layer_inv(g, cl, punter, mine, d2, old2, cur2));
        } else {
            let one = step(g, cl, EdgeMode::Unclaimed, old, d.dom());
            assert(d2 == add_layer(d, one, cur + 1));
            assert(old2 == one);
            assert(cur2 == cur + 1);
            assert forall|t: usize| #[trigger] d2.contains_key(t) implies d2[t] <= cur2 by {
                if d.contains_key(t) {
                    assert(d[t] <= cur);
                }
            }
            assert forall|t: usize| #[trigger] old2.contains(t) implies d2.contains_key(t) && d2[t] == cur2 by {
                assert(one.contains(t));
            }
            assert forall|t: usize| #[trigger] d2.contains_key(t) && d2[t] == cur2 implies old2.contains(t) by {
                if d.contains_key(t) {
                    assert(d[t] <= cur);
                }
            }
            assert forall|t: usize| #[trigger] d2.contains_key(t) implies exists|p: Seq<usize>|
                free_walk(g, cl, punter, p) && p[0] == mine && p.last() == t && walk_cost(g, cl, punter, p) == d2[t] by {
                if !d.contains_key(t) {
                    assert(one.contains(t));
                    let s = choose|s: usize| old.contains(s) && #[trigger] follows(g, cl, EdgeMode::Unclaimed, s, t);
                    assert(d.contains_key(s) && d[s] == cur);
                    let q = choose|q: Seq<usize>| free_walk(g, cl, punter, q) && q[0] == mine && q.last() == s && walk_cost(g, cl, punter, q) == d[s];
                    assert(may_cross(g, cl, punter, s, t));
                    assert(!follows(g, cl, EdgeMode::OwnedBy(punter), s, t));
                    lemma_extend_walk(g, cl, punter, q, t);
                    assert(cross_cost(g, cl, punter, s, t) == 1);
                    let p = q.push(t);
                    assert(free_walk(g, cl, punter, p) && p[0] == mine && p.last() == t && walk_cost(g, cl, punter, p) == d2[t]);
                } else {
                    assert(d2[t] == d[t]);
                    let p = choose|p: Seq<usize>| free_walk(g, cl, punter, p) && p[0] == mine && p.last() == t && walk_cost(g, cl, punter, p) == d[t];
                    assert(free_walk(g, cl, punter, p) && p[0] == mine && p.last() == t && walk_cost(g, cl, punter, p) == d2[t]);
                }
            }
            assert forall|s: usize, t: usize|
                d2.contains_key(s) && d2[s] < cur2 && #[trigger] may_cross(g, cl, punter, s, t) implies d2.contains_key(t) && d2[t] <= d2[s]
                    + cross_cost(g, cl, punter, s, t) by {
                assert(d.contains_key(s));
                if d[s] == cur {
                    assert(old.contains(s));
                    if follows(g, cl, EdgeMode::OwnedBy(punter), s, t) {
                        if !d.contains_key(t) {
                            assert(zero.contains(t));
                        }
                        assert(d[t] <= cur);
                    } else {
                        if !d.contains_key(t) {
                            assert(one.contains(t));
                        } else {
                            assert(d[t] <= cur);
                        }
                    }
                } else {
                    assert(d[s] < cur);
                    assert(d.contains_key(t));
                }
            }
            assert(layer_inv(g, cl, punter, mine, d2, old2, cur2));
        }
    }
}

proof fn lemma_my_walk_bound(g: Map<usize, Map<usize, usize>>, cl: Seq<Option<usize>>, punter: usize, mine: usize, k: nat, p: Seq<usize>)
    requires
        free_walk(g, cl, punter, p),
        p[0] == mine,
        walk_cost(g, cl, punter, p) < my_run(g, cl, punter, mine, k).2,
    ensures
        my_run(g, cl, punter, mine, k).0.contains_key(p.last()),
        my_run(g, cl, punter, mine, k).0[p.last()] <= walk_cost(g, cl, punter, p),
    decreases p.len(),
{
    lemma_my_run_inv(g, cl, punter, mine, k);
    lemma_my_run_mine(g, cl, punter, mine, k);
    if p.len() > 1 {
        let q = p.drop_last();
        assert(free_walk(g, cl, punter, q)) by {
            assert forall|i: int| #![trigger q[i]] 0 <= i < q.len() - 1 implies may_cross(g, cl, punter, q[i], q[i + 1]) by {
                assert(q[i] == p[i] && q[i + 1] == p[i + 1]);
            }
        }
        assert(q[0] == mine);
        lemma_my_walk_bound(g, cl, punter, mine, k, q);
        let i = p.len() - 2;
        assert(q.last() == p[i]);
        assert(may_cross(g, cl, punter, p[i], p[i + 1]));
        assert(p[i + 1] == p.last());
    }
}

/// Every site that the search counting unclaimed rivers places is at the
/// least cost of a walk to it from the mine: some walk that the punter may
/// take costs that many unclaimed rivers, and none costs fewer.
pub proof fn lemma_my_distance_is_least_cost(g: Map<usize, Map<usize, usize>>, cl: Seq<Option<usize>>, punter: usize, mine: usize, n: nat, t: usize)
    requires
        spec_my_distances(g, cl, punter, mine, n).contains_key(t),
    ensures
        exists|p: Seq<usize>| free_walk(g, cl, punter, p) && p[0] == mine && p.last() == t
            && walk_cost(g, cl, punter, p) == spec_my_distances(g, cl, punter, mine, n)[t],
        forall|p: Seq<usize>| free_walk(g, cl, punter, p) && p[0] == mine && p.last() == t
            ==> walk_cost(g, cl, punter, p) >= spec_my_distances(g, cl, punter, mine, n)[t],
{
    let k = choose|k: nat| my_done_at(g, cl, punter, mine, n, k);
    lemma_my_run_inv(g, cl, punter, mine, k);
    assert forall|p: Seq<usize>| free_walk(g, cl, punter, p) && p[0] == mine && p.last() == t
        implies walk_cost(g, cl, punter, p) >= spec_my_distances(g, cl, punter, mine, n)[t] by {
        if walk_cost(g, cl, punter, p) < spec_my_distances(g, cl, punter, mine, n)[t] {
            lemma_my_walk_bound(g, cl, punter, mine, k, p);
        }
    }
}

/// Once the search counting unclaimed rivers has no sites left to go on
/// from, every walk that the punter may take from the mine ends at a
/// placed site.
proof fn lemma_my_walk_placed(g: Map<usize, Map<usize, usize>>, cl: Seq<Option<usize>>, punter: usize, mine: usize, k: nat, p: Seq<usize>)
    requires
        my_run(g, cl, punter, mine, k).1.is_empty(),
        free_walk(g, cl, punter, p),
        p[0] == mine,
    ensures
        my_run(g, cl, punter, mine, k).0.contains_key(p.last()),
    decreases p.len(),
{
    lemma_my_run_inv(g, cl, punter, mine, k);
    lemma_my_run_mine(g, cl, punter, mine, k);
    let d = my_run(g, cl, punter, mine, k).0;
    let old = my_run(g, cl, punter, mine, k).1;
    let cur = my_run(g, cl, punter, mine, k).2;
    if p.len() > 1 {
        let q = p.drop_last();
        assert(free_walk(g, cl, punter, q)) by {
            assert forall|i: int| #![trigger q[i]] 0 <= i < q.len() - 1 implies may_cross(g, cl, punter, q[i], q[i + 1]) by {
                assert(q[i] == p[i] && q[i + 1] == p[i + 1]);
            }
        }
        assert(q[0] == mine);
        lemma_my_walk_placed(g, cl, punter, mine, k, q);
        let i = p.len() - 2;
        assert(q.last() == p[i]);
        let s = p[i];
        assert(d.contains_key(s));
        assert(d[s] < cur) by {
            assert(d[s] <= cur);
            if d[s] == cur {
                assert(old.contains(s));
            }
        }
        assert(may_cross(g, cl, punter, p[i], p[i + 1]));
        assert(p[i + 1] == p.last());
    }
}

/// When the search counting unclaimed rivers ends with nowhere left to go,
/// it has placed every site that a walk the punter may take from the mine
/// reaches.
pub proof fn lemma_my_distances_complete(g: Map<usize, Map<usize, usize>>, cl: Seq<Option<usize>>, punter: usize, mine: usize, n: nat, p: Seq<usize>)
    requires
        exists|k: nat| my_done_at(g, cl, punter, mine, n, k),
        my_run(g, cl, punter, mine, choose|k: nat| my_done_at(g, cl, punter, mine, n, k)).1.is_empty(),
        free_walk(g, cl, punter, p),
        p[0] == mine,
    ensures
        spec_my_distances(g, cl, punter, mine, n).contains_key(p.last()),
{
    let k = choose|k: nat| my_done_at(g, cl, punter, mine, n, k);
    lemma_my_walk_placed(g, cl, punter, mine, k, p);
}

} // verus!
