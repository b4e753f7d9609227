//! The punter's state of a game and its board index.
use vstd::prelude::*;
use std::collections::{HashMap, HashSet};
use crate::types::{GameMap, Move, Moves, River, RiverData, Setup, Site};
use vstd::std_specs::iter::IteratorSpec;

verus! {

broadcast use vstd::std_specs::hash::group_hash_axioms;

/// The entries of one site's neighbour table, as (neighbour, river index)
/// pairs: each entry once, no neighbour twice.
pub(crate) fn entries_of(m: &HashMap<usize, usize>) -> (v: Vec<(usize, usize)>)
    ensures
        v@.len() == m@.dom().len(),
        forall|i: int| 0 <= i < v@.len() ==> #[trigger] m@.contains_key(v@[i].0) && m@[v@[i].0] == v@[i].1,
        forall|k: usize| #[trigger] m@.contains_key(k) ==> exists|i: int| 0 <= i < v@.len() && v@[i].0 == k,
        forall|i: int, j: int| 0 <= i < j < v@.len() ==> v@[i].0 != v@[j].0,
{
    let mut v: Vec<(usize, usize)> = Vec::new();
    let ghost s = vstd::std_specs::hash::spec_keys_iter(m).remaining();
    assert(s.unref().to_set() == m@.dom() && s.no_duplicates() && s.len() == m@.dom().len());
    for k in it: m.keys()
        invariant
            it.seq() == s,
            s.unref().to_set() == m@.dom(),
            s.no_duplicates(),
            s.len() == m@.dom().len(),
            v@.len() == it.index(),
            forall|i: int| 0 <= i < it.index() ==> #[trigger] v@[i].0 == *s[i],
            forall|i: int| 0 <= i < it.index() ==> m@.contains_key(#[trigger] v@[i].0),
            forall|i: int| 0 <= i < it.index() ==> m@[#[trigger] v@[i].0] == v@[i].1,
    {
        let r = *m.get(k).unwrap();
        v.push((*k, r));
    }
    assert forall|k: usize| #[trigger] m@.contains_key(k) implies exists|i: int| 0 <= i < v@.len() && v@[i].0 == k by {
        assert(s.unref().to_set().contains(k));
        let i = choose|i: int| 0 <= i < s.unref().len() && s.unref()[i] == k;
        assert(v@[i].0 == k);
    }
    assert forall|i: int, j: int| 0 <= i < j < v@.len() implies v@[i].0 != v@[j].0 by {
        assert(s.unref()[i] == *s[i]);
        assert(s.unref()[j] == *s[j]);
    }
    v
}

/// The state a punter keeps between turns: who we are, how many punters
/// play, the board, an index from each site to its neighbours (with the
/// river that joins them), and what we know of every river.
#[derive(Debug)]
pub struct State {
    pub punter: usize,
    pub punters: usize,
    pub map: GameMap,
    pub rivermap: HashMap<usize, HashMap<usize, usize>>,
    pub riverdata: Vec<RiverData>,
}

/// The river index as a map from each site to its neighbour table.
pub open spec fn index_view(rm: HashMap<usize, HashMap<usize, usize>>) -> Map<usize, Map<usize, usize>> {
    rm@.map_values(|m: HashMap<usize, usize>| m@)
}

/// Every neighbour of an indexed site is indexed itself, and every river
/// index in the table is below `n`.
pub open spec fn graph_closed(g: Map<usize, Map<usize, usize>>, n: nat) -> bool {
    forall|s: usize, t: usize|
        #![trigger g[s].contains_key(t)]
        g.contains_key(s) && g[s].contains_key(t) ==> g.contains_key(t) && g[s][t] < n
}

impl State {
    /// The board as a graph: each indexed site with its neighbour table.
    pub open spec fn graph(&self) -> Map<usize, Map<usize, usize>> {
        index_view(self.rivermap)
    }

    /// The board graph has finitely many sites.
    pub proof fn lemma_graph_finite(&self)
        ensures
            self.graph().dom().finite(),
    {
        assert(self.graph().dom() =~= self.rivermap@.dom());
    }

    /// The state is consistent: every river knows its own index, and the
    /// neighbour index only names indexed sites and existing rivers.
    pub open spec fn well_formed(&self) -> bool {
        &&& forall|i: int| 0 <= i < self.riverdata@.len() ==> #[trigger] self.riverdata@[i].id == i
        &&& graph_closed(self.graph(), self.riverdata@.len())
    }
}

/// The key by which rivers are told apart when the board is indexed.
pub open spec fn river_pair(r: River) -> (usize, usize) {
    (r.source, r.target)
}

/// A river touches a set of sites when one of its ends is in it.
pub open spec fn touches(r: River, old: Set<usize>) -> bool {
    old.contains(r.target) || old.contains(r.source)
}

/// A river is taken in a round when it was not taken before and touches
/// the sites reached in the previous round.
pub open spec fn picked(r: River, done: Set<(usize, usize)>, old: Set<usize>) -> bool {
    !done.contains(river_pair(r)) && touches(r, old)
}

/// The rivers taken in one round, in board order.
pub open spec fn round_rivers(rivers: Seq<River>, done: Set<(usize, usize)>, old: Set<usize>) -> Seq<River>
    decreases rivers.len(),
{
    if rivers.len() == 0 {
        Seq::empty()
    } else {
        let rest = round_rivers(rivers.drop_last(), done, old);
        if picked(rivers.last(), done, old) {
            rest.push(rivers.last())
        } else {
            rest
        }
    }
}

/// `done` with the keys of the rivers `rs` added.
pub open spec fn add_pairs(done: Set<(usize, usize)>, rs: Seq<River>) -> Set<(usize, usize)>
    decreases rs.len(),
{
    if rs.len() == 0 {
        done
    } else {
        add_pairs(done, rs.drop_last()).insert(river_pair(rs.last()))
    }
}

/// The ends of the rivers `rs` that are not in `old`.
pub open spec fn fresh_sites(old: Set<usize>, rs: Seq<River>) -> Set<usize>
    decreases rs.len(),
{
    if rs.len() == 0 {
        Set::empty()
    } else {
        let s = fresh_sites(old, rs.drop_last());
        let r = rs.last();
        let s1 = if old.contains(r.target) { s } else { s.insert(r.target) };
        if old.contains(r.source) { s1 } else { s1.insert(r.source) }
    }
}

/// The ends of the rivers that are not taken yet.
pub open spec fn leftover_sites(rivers: Seq<River>, done: Set<(usize, usize)>) -> Set<usize>
    decreases rivers.len(),
{
    if rivers.len() == 0 {
        Set::empty()
    } else {
        let s = leftover_sites(rivers.drop_last(), done);
        let r = rivers.last();
        if done.contains(river_pair(r)) { s } else { s.insert(r.source).insert(r.target) }
    }
}

/// One round of ordering the rivers: take the rivers that touch the sites
/// of the previous round; their new ends are the sites of the next round,
/// or, where there are none, the ends of all rivers not yet taken.
pub open spec fn next_round(
    rivers: Seq<River>,
    st: (Set<(usize, usize)>, Set<usize>, Seq<River>),
) -> (Set<(usize, usize)>, Set<usize>, Seq<River>) {
    let rr = round_rivers(rivers, st.0, st.1);
    let done = add_pairs(st.0, rr);
    let fresh = fresh_sites(st.1, rr);
    let next = if fresh.is_empty() { leftover_sites(rivers, done) } else { fresh };
    (done, next, st.2 + rr)
}

/// The state of the ordering after `k` rounds, starting from the mines.
pub open spec fn rounds(rivers: Seq<River>, mines: Seq<usize>, k: nat) -> (Set<(usize, usize)>, Set<usize>, Seq<River>)
    decreases k,
{
    if k == 0 {
        (Set::empty(), mines.to_set(), Seq::empty())
    } else {
        next_round(rivers, rounds(rivers, mines, (k - 1) as nat))
    }
}

/// The ordering ends after round `k`: no sites are left to start from.
pub open spec fn finished_at(rivers: Seq<River>, mines: Seq<usize>, k: nat) -> bool {
    &&& rounds(rivers, mines, k).1.is_empty()
    &&& forall|j: nat| j < k ==> !(#[trigger] rounds(rivers, mines, j)).1.is_empty()
}

/// The rivers of the board in the order in which the state records them:
/// nearest to the mines first (see `lemma_nearest_rivers_first`).
pub open spec fn river_order(rivers: Seq<River>, mines: Seq<usize>) -> Seq<River> {
    rounds(rivers, mines, choose|k: nat| finished_at(rivers, mines, k)).2
}

/// What the state records of the `i`-th river of the order.
pub open spec fn river_record(i: int, r: River) -> RiverData {
    RiverData { id: i as usize, sites: (r.target, r.source), claimed: None, option_claimed: None }
}

/// `g` with `b` entered in the neighbour table of `a` under river `id`.
pub open spec fn link(g: Map<usize, Map<usize, usize>>, a: usize, b: usize, id: usize) -> Map<usize, Map<usize, usize>> {
    g.insert(a, (if g.contains_key(a) { g[a] } else { Map::empty() }).insert(b, id))
}

/// Every site of the board with an empty neighbour table.
pub open spec fn site_table(sites: Seq<Site>) -> Map<usize, Map<usize, usize>>
    decreases sites.len(),
{
    if sites.len() == 0 {
        Map::empty()
    } else {
        site_table(sites.drop_last()).insert(sites.last().id, Map::empty())
    }
}

/// `g` with the rivers of `order` entered, both ways, under their position.
pub open spec fn link_rivers(g: Map<usize, Map<usize, usize>>, order: Seq<River>) -> Map<usize, Map<usize, usize>>
    decreases order.len(),
{
    if order.len() == 0 {
        g
    } else {
        let i = (order.len() - 1) as usize;
        let r = order.last();
        link(link(link_rivers(g, order.drop_last()), r.source, r.target, i), r.target, r.source, i)
    }
}

/// The number of `false` entries of `s`.
spec fn count_false(s: Seq<bool>) -> nat
    decreases s.len(),
{
    if s.len() == 0 {
        0
    } else {
        count_false(s.drop_last()) + if s.last() { 0nat } else { 1nat }
    }
}

/// Every river not yet taken touches `old`.
spec fn all_undone_touch(rivers: Seq<River>, done: Seq<bool>, old: Set<usize>) -> bool {
    forall|j: int| 0 <= j < rivers.len() && !done[j] ==> touches(#[trigger] rivers[j], old)
}

proof fn lemma_count_false_mono(a: Seq<bool>, b: Seq<bool>)
    requires
        a.len() == b.len(),
        forall|j: int| 0 <= j < a.len() && a[j] ==> b[j],
    ensures
        count_false(b) <= count_false(a),
        (exists|j: int| 0 <= j < a.len() && !a[j] && b[j]) ==> count_false(b) < count_false(a),
    decreases a.len(),
{
    if a.len() > 0 {
        let n = a.len() - 1;
        lemma_count_false_mono(a.drop_last(), b.drop_last());
        if exists|j: int| 0 <= j < a.len() && !a[j] && b[j] {
            let j = choose|j: int| 0 <= j < a.len() && !a[j] && b[j];
            if j < n {
                assert(!a.drop_last()[j] && b.drop_last()[j]);
            }
        }
    }
}

proof fn lemma_round_rivers_push(s: Seq<River>, r: River, done: Set<(usize, usize)>, old: Set<usize>)
    ensures
        round_rivers(s.push(r), done, old) == if picked(r, done, old) {
            round_rivers(s, done, old).push(r)
        } else {
            round_rivers(s, done, old)
        },
{
    assert(s.push(r).drop_last() == s);
}

proof fn lemma_leftover_push(s: Seq<River>, r: River, done: Set<(usize, usize)>)
    ensures
        leftover_sites(s.push(r), done) == if done.contains(river_pair(r)) {
            leftover_sites(s, done)
        } else {
            leftover_sites(s, done).insert(r.source).insert(r.target)
        },
{
    assert(s.push(r).drop_last() == s);
}

proof fn lemma_leftover_contents(s: Seq<River>, done: Set<(usize, usize)>)
    ensures
        forall|j: int| 0 <= j < s.len() && !done.contains(river_pair(s[j])) ==>
            leftover_sites(s, done).contains(#[trigger] s[j].source) && leftover_sites(s, done).contains(s[j].target),
        (forall|j: int| 0 <= j < s.len() ==> done.contains(river_pair(#[trigger] s[j]))) ==> leftover_sites(s, done).is_empty(),
    decreases s.len(),
{
    if s.len() > 0 {
        let p = s.drop_last();
        lemma_leftover_contents(p, done);
        let l = leftover_sites(s, done);
        let lp = leftover_sites(p, done);
        assert forall|x: usize| lp.contains(x) implies l.contains(x) by {}
        assert forall|j: int| 0 <= j < s.len() && !done.contains(river_pair(s[j])) implies
            l.contains(#[trigger] s[j].source) && l.contains(s[j].target) by {
            if j < s.len() - 1 {
                assert(p[j] == s[j]);
            }
        }
        if forall|j: int| 0 <= j < s.len() ==> done.contains(river_pair(#[trigger] s[j])) {
            assert forall|j: int| 0 <= j < p.len() implies done.contains(river_pair(#[trigger] p[j])) by {
                assert(p[j] == s[j]);
            }
            assert(done.contains(river_pair(s[s.len() - 1])));
        }
    }
}

proof fn lemma_site_table_empty_tables(sites: Seq<Site>)
    ensures
        forall|k: usize| #[trigger] site_table(sites).contains_key(k) ==> site_table(sites)[k] == Map::<usize, usize>::empty(),
    decreases sites.len(),
{
    if sites.len() > 0 {
        lemma_site_table_empty_tables(sites.drop_last());
        let t = site_table(sites);
        let tp = site_table(sites.drop_last());
        assert forall|k: usize| #[trigger] t.contains_key(k) implies t[k] == Map::<usize, usize>::empty() by {
            if k != sites.last().id {
                assert(tp.contains_key(k));
            }
        }
    }
}

proof fn lemma_link_rivers_closed(sites: Seq<Site>, order: Seq<River>)
    ensures
        graph_closed(link_rivers(site_table(sites), order), order.len()),
    decreases order.len(),
{
    if order.len() == 0 {
        lemma_site_table_empty_tables(sites);
    } else {
        lemma_link_rivers_closed(sites, order.drop_last());
    }
}

/// Enters `b` in the neighbour table of `a` under river `id`.
fn link_exec(rm: &mut HashMap<usize, HashMap<usize, usize>>, a: usize, b: usize, id: usize)
    ensures
        index_view(*final(rm)) == link(index_view(*old(rm)), a, b, id),
{
    let mut child = match rm.remove(&a) {
        Some(c) => c,
        None => HashMap::new(),
    };
    child.insert(b, id);
    rm.insert(a, child);
    assert(index_view(*rm) =~= link(index_view(*old(rm)), a, b, id));
}

impl State {
    /// Builds the state for a new game: every site is indexed, and the
    /// rivers are recorded nearest to the mines first (see `river_order`),
    /// each under its position in that order and entered both ways in the
    /// neighbour index; no river is claimed yet.
    pub fn new(s: Setup) -> (st: State)
        ensures
            st.punter == s.punter,
            st.punters == s.punters,
            st.map == s.map,
            exists|k: nat| finished_at(s.map.rivers@, s.map.mines@, k),
            st.riverdata@.len() == river_order(s.map.rivers@, s.map.mines@).len(),
            forall|i: int| 0 <= i < st.riverdata@.len() ==>
                #[trigger] st.riverdata@[i] == river_record(i, river_order(s.map.rivers@, s.map.mines@)[i]),
            st.graph() == link_rivers(site_table(s.map.sites@), river_order(s.map.rivers@, s.map.mines@)),
            st.well_formed(),
            st.index_consistent(),
            st.rivers_indexed(),
    {
        let mut rivermap: HashMap<usize, HashMap<usize, usize>> = HashMap::new();
        let mut riverdata: Vec<RiverData> = Vec::new();
        let ghost sites = s.map.sites@;
        let ghost rv = s.map.rivers@;
        let ghost mines = s.map.mines@;
        for i in 0..s.map.sites.len()
            invariant
                sites == s.map.sites@,
                index_view(rivermap) == site_table(sites.take(i as int)),
        {
            rivermap.insert(s.map.sites[i].id, HashMap::new());
            assert(sites.take(i + 1).drop_last() == sites.take(i as int));
            assert(index_view(rivermap) =~= site_table(sites.take(i + 1)));
        }
        assert(sites.take(sites.len() as int) == sites);
        let mut old_sites: HashSet<usize> = HashSet::new();
        for i in 0..s.map.mines.len()
            invariant
                mines == s.map.mines@,
                old_sites@ == mines.take(i as int).to_set(),
        {
            old_sites.insert(s.map.mines[i]);
            assert(mines.take(i + 1) == mines.take(i as int).push(mines[i as int]));
            assert forall|x: usize| mines.take(i + 1).contains(x) <==> (mines.take(i as int).contains(x) || x == mines[i as int]) by {
                if mines.take(i + 1).contains(x) {
                    let w = choose|w: int| 0 <= w < i + 1 && #[trigger] mines.take(i + 1)[w] == x;
                    if w < i {
                        assert(mines.take(i as int)[w] == x);
                    }
                }
                if mines.take(i as int).contains(x) {
                    let w = choose|w: int| 0 <= w < i && #[trigger] mines.take(i as int)[w] == x;
                    assert(mines.take(i + 1)[w] == x);
                }
                if x == mines[i as int] {
                    assert(mines.take(i + 1)[i as int] == x);
                }
            }
            assert(old_sites@ =~= mines.take(i + 1).to_set());
        }
        assert(mines.take(mines.len() as int) == mines);
        let rivers = &s.map.rivers;
        let n = rivers.len();
        let mut done: Vec<bool> = Vec::new();
        for i in 0..n
            invariant
                done@.len() == i,
                forall|j: int| 0 <= j < i ==> !done@[j],
        {
            done.push(false);
        }
        let ghost mut k: nat = 0;
        let ghost mut done_set: Set<(usize, usize)> = Set::empty();
        let ghost mut out: Seq<River> = Seq::empty();
        while !old_sites.is_empty()
            invariant
                rv == rivers@,
                n == rv.len(),
                rounds(rv, mines, k).0 == done_set,
                rounds(rv, mines, k).1 == old_sites@,
                rounds(rv, mines, k).2 == out,
                forall|j: nat| j < k ==> !(#[trigger] rounds(rv, mines, j)).1.is_empty(),
                done@.len() == n,
                forall|j: int| 0 <= j < n ==> #[trigger] done@[j] == done_set.contains(river_pair(rv[j])),
                index_view(rivermap) == link_rivers(site_table(sites), out),
                riverdata@.len() == out.len(),
                forall|i: int| 0 <= i < out.len() ==> #[trigger] riverdata@[i] == river_record(i, out[i]),
            decreases
                3 * count_false(done@) + (if all_undone_touch(rv, done@, old_sites@) { 0int } else { 1int })
                    + (if old_sites@.is_empty() { 0int } else { 1int }),
        {
            let ghost d0 = done_set;
            let ghost o0 = old_sites@;
            let ghost out0 = out;
            let ghost flags0 = done@;
            let mut pick: Vec<bool> = Vec::new();
            for i in 0..n
                invariant
                    rv == rivers@,
                    n == rv.len(),
                    done@.len() == n,
                    forall|j: int| 0 <= j < n ==> #[trigger] done@[j] == d0.contains(river_pair(rv[j])),
                    o0 == old_sites@,
                    pick@.len() == i,
                    forall|j: int| 0 <= j < i ==> #[trigger] pick@[j] == picked(rv[j], d0, o0),
            {
                let r = rivers[i];
                pick.push(!done[i] && (old_sites.contains(&r.target) || old_sites.contains(&r.source)));
            }
            let mut new_sites: HashSet<usize> = HashSet::new();
            let ghost mut any_picked = false;
            for i in 0..n
                invariant
                    rv == rivers@,
                    n == rv.len(),
                    o0 == old_sites@,
                    pick@.len() == n,
                    forall|j: int| 0 <= j < n ==> #[trigger] pick@[j] == picked(rv[j], d0, o0),
                    out == out0 + round_rivers(rv.take(i as int), d0, o0),
                    done_set == add_pairs(d0, round_rivers(rv.take(i as int), d0, o0)),
                    new_sites@ == fresh_sites(o0, round_rivers(rv.take(i as int), d0, o0)),
                    done@.len() == n,
                    forall|j: int| 0 <= j < n ==> #[trigger] done@[j] == done_set.contains(river_pair(rv[j])),
                    forall|j: int| 0 <= j < n && flags0[j] ==> #[trigger] done@[j],
                    flags0.len() == n,
                    forall|j: int| 0 <= j < n ==> #[trigger] flags0[j] == d0.contains(river_pair(rv[j])),
                    any_picked ==> exists|j: int| 0 <= j < n && !flags0[j] && #[trigger] done@[j],
                    !any_picked ==> round_rivers(rv.take(i as int), d0, o0).len() == 0,
                    index_view(rivermap) == link_rivers(site_table(sites), out),
                    riverdata@.len() == out.len(),
                    forall|i: int| 0 <= i < out.len() ==> #[trigger] riverdata@[i] == river_record(i, out[i]),
            {
                proof {
                    assert(rv.take(i + 1) == rv.take(i as int).push(rv[i as int]));
                    lemma_round_rivers_push(rv.take(i as int), rv[i as int], d0, o0);
                }
                if pick[i] {
                    let r = rivers[i];
                    let ghost rr = round_rivers(rv.take(i as int), d0, o0);
                    let ghost before = done@;
                    for j in 0..n
                        invariant
                            rv == rivers@,
                            n == rv.len(),
                            i < n,
                            r == rv[i as int],
                            done@.len() == n,
                            before.len() == n,
                            forall|m: int| 0 <= m < j ==> #[trigger] done@[m] == (before[m] || river_pair(rv[m]) == river_pair(r)),
                            forall|m: int| j <= m < n ==> #[trigger] done@[m] == before[m],
                    {
                        if rivers[j].source == r.source && rivers[j].target == r.target {
                            done.set(j, true);
                        }
                    }
                    if !old_sites.contains(&r.target) {
                        new_sites.insert(r.target);
                    }
                    if !old_sites.contains(&r.source) {
                        new_sites.insert(r.source);
                    }
                    let id = riverdata.len();
                    riverdata.push(RiverData { id, sites: (r.target, r.source), claimed: None, option_claimed: None });
                    link_exec(&mut rivermap, r.source, r.target, id);
                    link_exec(&mut rivermap, r.target, r.source, id);
                    proof {
                        assert(rr.push(r).drop_last() == rr);
                        out = out.push(r);
                        done_set = done_set.insert(river_pair(r));
                        any_picked = true;
                        assert(out0 + rr.push(r) == (out0 + rr).push(r));
                        assert((out0 + rr).push(r).drop_last() == out0 + rr);
                        assert(!flags0[i as int] && done@[i as int]);
                    }
                }
            }
            assert(rv.take(n as int) == rv);
            let ghost rr = round_rivers(rv, d0, o0);
            assert(new_sites@ == fresh_sites(o0, rr));
            if new_sites.is_empty() {
                for i in 0..n
                    invariant
                        rv == rivers@,
                        n == rv.len(),
                        done@.len() == n,
                        forall|j: int| 0 <= j < n ==> #[trigger] done@[j] == done_set.contains(river_pair(rv[j])),
                        new_sites@ == leftover_sites(rv.take(i as int), done_set),
                {
                    proof {
                        assert(rv.take(i + 1) == rv.take(i as int).push(rv[i as int]));
                        lemma_leftover_push(rv.take(i as int), rv[i as int], done_set);
                    }
                    if !done[i] {
                        new_sites.insert(rivers[i].source);
                        new_sites.insert(rivers[i].target);
                    }
                    assert(new_sites@ =~= leftover_sites(rv.take(i + 1), done_set));
                }
                assert(rv.take(n as int) == rv);
            }
            proof {
                lemma_count_false_mono(flags0, done@);
                lemma_leftover_contents(rv, done_set);
                if !any_picked {
                    assert(done@ =~= flags0);
                    if exists|j: int| 0 <= j < n && !done@[j] {
                        let j = choose|j: int| 0 <= j < n && !done@[j];
                        assert(!picked(rv[j], d0, o0)) by {
                            if picked(rv[j], d0, o0) {
                                assert(pick@[j]);
                                lemma_round_rivers_nonempty(rv, d0, o0, j);
                            }
                        }
                        assert(!all_undone_touch(rv, flags0, o0));
                        assert(new_sites@.contains(rv[j].source));
                    }
                }
            }
            old_sites = new_sites;
            proof {
                k = k + 1;
            }
        }
        proof {
            assert(finished_at(rv, mines, k));
            lemma_finished_unique(rv, mines, k);
            lemma_link_rivers_closed(sites, out);
            assert(out.len() == riverdata.len());
            lemma_index_matches(sites, out);
        }
        let st = State { punter: s.punter, punters: s.punters, map: s.map, rivermap, riverdata };
        assert(graph_closed(st.graph(), st.riverdata@.len()));
        assert forall|i: int| 0 <= i < st.riverdata@.len() implies #[trigger] st.riverdata@[i].id == i by {
            assert(st.riverdata@[i] == river_record(i, out[i]));
            assert(i < st.riverdata.len());
        }
        assert forall|i: int| #![trigger st.riverdata@[i]] 0 <= i < st.riverdata@.len() implies st.graph().contains_key(st.riverdata@[i].sites.0)
            && st.graph()[st.riverdata@[i].sites.0].contains_key(st.riverdata@[i].sites.1) by {
            assert(st.riverdata@[i] == river_record(i, out[i]));
            lemma_recorded_river_indexed(site_table(sites), out, i);
        }
        assert forall|a: usize, b: usize| #![trigger st.graph()[a].contains_key(b)] st.graph().contains_key(a) && st.graph()[a].contains_key(b) implies {
            let i = st.graph()[a][b] as int;
            &&& st.graph()[b].contains_key(a)
            &&& st.graph()[b][a] == st.graph()[a][b]
            &&& 0 <= i < st.riverdata@.len()
            &&& (st.riverdata@[i].sites == (a, b) || st.riverdata@[i].sites == (b, a))
        } by {
            let i = st.graph()[a][b] as int;
            assert(st.riverdata@[i] == river_record(i, out[i]));
        }
        st
    }
}

proof fn lemma_round_rivers_nonempty(rivers: Seq<River>, done: Set<(usize, usize)>, old: Set<usize>, j: int)
    requires
        0 <= j < rivers.len(),
        picked(rivers[j], done, old),
    ensures
        round_rivers(rivers, done, old).len() > 0,
    decreases rivers.len(),
{
    if j < rivers.len() - 1 {
        assert(rivers.drop_last()[j] == rivers[j]);
        lemma_round_rivers_nonempty(rivers.drop_last(), done, old, j);
    }
}

/// The round at which the ordering ends is the first round with no sites
/// left, so it is unique.
pub proof fn lemma_finished_unique(rivers: Seq<River>, mines: Seq<usize>, k: nat)
    requires
        finished_at(rivers, mines, k),
    ensures
        (choose|j: nat| finished_at(rivers, mines, j)) == k,
{
    let j = choose|j: nat| finished_at(rivers, mines, j);
    assert(finished_at(rivers, mines, j));
    if j < k {
        assert(!rounds(rivers, mines, j).1.is_empty());
    } else if j > k {
        assert(!rounds(rivers, mines, k).1.is_empty());
    }
}

/// Who has claimed each river, after the claims of `moves` are applied in
/// order to `claims`: a claim of the river between `source` and `target`
/// is recorded when nobody holds that river yet; passes change nothing.
pub open spec fn apply_claims(g: Map<usize, Map<usize, usize>>, claims: Seq<Option<usize>>, moves: Seq<Move>) -> Seq<Option<usize>>
    decreases moves.len(),
{
    if moves.len() == 0 {
        claims
    } else {
        let before = apply_claims(g, claims, moves.drop_last());
        match moves.last() {
            Move::Pass { .. } => before,
            Move::Claim { punter, source, target } => {
                let rid = g[source][target] as int;
                if before[rid] is None {
                    before.update(rid, Some(punter))
                } else {
                    before
                }
            },
        }
    }
}

/// Every claim in `moves` names two sites joined by an indexed river.
pub open spec fn moves_on_board(g: Map<usize, Map<usize, usize>>, moves: Seq<Move>) -> bool {
    forall|i: int|
        0 <= i < moves.len() ==> match #[trigger] moves[i] {
            Move::Pass { .. } => true,
            Move::Claim { source, target, .. } => g.contains_key(source) && g[source].contains_key(target),
        }
}

/// The ids of the rivers that nobody has claimed, in the order the state
/// records them.
pub open spec fn unclaimed_ids(rd: Seq<RiverData>) -> Seq<usize>
    decreases rd.len(),
{
    if rd.len() == 0 {
        Seq::empty()
    } else {
        let rest = unclaimed_ids(rd.drop_last());
        if rd.last().claimed is None {
            rest.push(rd.last().id)
        } else {
            rest
        }
    }
}

impl State {
    /// Who has claimed each river.
    pub open spec fn claims(&self) -> Seq<Option<usize>> {
        self.riverdata@.map_values(|r: RiverData| r.claimed)
    }

    /// Everything but the claims is as in `other`.
    pub open spec fn same_but_claims(&self, other: &State) -> bool {
        &&& self.punter == other.punter
        &&& self.punters == other.punters
        &&& self.map == other.map
        &&& self.graph() == other.graph()
        &&& self.riverdata@.len() == other.riverdata@.len()
        &&& forall|i: int|
            0 <= i < self.riverdata@.len() ==> {
                &&& (#[trigger] self.riverdata@[i]).id == other.riverdata@[i].id
                &&& self.riverdata@[i].sites == other.riverdata@[i].sites
                &&& self.riverdata@[i].option_claimed == other.riverdata@[i].option_claimed
            }
    }

    /// Whether every claim of `moves` names a river of the board.
    pub fn moves_on_board(&self, moves: &Moves) -> (ok: bool)
        ensures
            ok == moves_on_board(self.graph(), moves.moves@),
    {
        let ghost g = self.graph();
        for i in 0..moves.moves.len()
            invariant
                g == self.graph(),
                forall|j: int| 0 <= j < i ==> match #[trigger] moves.moves@[j] {
                    Move::Pass { .. } => true,
                    Move::Claim { source, target, .. } => g.contains_key(source) && g[source].contains_key(target),
                },
        {
            match moves.moves[i] {
                Move::Pass { .. } => {},
                Move::Claim { punter: _, source, target } => {
                    match self.rivermap.get(&source) {
                        None => {
                            return false;
                        },
                        Some(table) => {
                            assert(table@ == g[source]);
                            if !table.contains_key(&target) {
                                return false;
                            }
                        },
                    }
                },
            }
        }
        true
    }

    /// Records the claims of the moves the server reported, in order: a
    /// river goes to the first punter who claims it.
    pub fn apply_moves(&mut self, moves: Moves)
        requires
            old(self).well_formed(),
            moves_on_board(old(self).graph(), moves.moves@),
        ensures
            final(self).well_formed(),
            final(self).same_but_claims(&*old(self)),
            final(self).claims() == apply_claims(old(self).graph(), old(self).claims(), moves.moves@),
    {
        let ghost g = self.graph();
        let ghost start = *self;
        for i in 0..moves.moves.len()
            invariant
                g == self.graph(),
                g == start.graph(),
                self.well_formed(),
                self.same_but_claims(&start),
                moves_on_board(g, moves.moves@),
                self.claims() == apply_claims(g, start.claims(), moves.moves@.take(i as int)),
        {
            proof {
                assert(moves.moves@.take(i + 1).drop_last() == moves.moves@.take(i as int));
                assert(moves.moves@.take(i + 1).last() == moves.moves@[i as int]);
            }
            match moves.moves[i] {
                Move::Pass { .. } => {},
                Move::Claim { punter, source, target } => {
                    assert(match moves.moves@[i as int] {
                        Move::Pass { .. } => true,
                        Move::Claim { source, target, .. } => g.contains_key(source) && g[source].contains_key(target),
                    });
                    let table = self.rivermap.get(&source).unwrap();
                    assert(table@ == g[source]);
                    let rid = *table.get(&target).unwrap();
                    assert(graph_closed(g, self.riverdata@.len()));
                    assert(g[source].contains_key(target));
                    if self.riverdata[rid].claimed.is_none() {
                        let mut r = self.riverdata[rid];
                        r.claimed = Some(punter);
                        let ghost before = self.claims();
                        self.riverdata.set(rid, r);
                        assert(self.claims() =~= before.update(rid as int, Some(punter)));
                    }
                },
            }
        }
        assert(moves.moves@.take(moves.moves@.len() as int) == moves.moves@);
    }

    /// Sets who holds river `rid`.
    pub fn set_claim(&mut self, rid: usize, who: Option<usize>)
        requires
            old(self).well_formed(),
            rid < old(self).riverdata@.len(),
        ensures
            final(self).well_formed(),
            final(self).same_but_claims(&*old(self)),
            final(self).claims() == old(self).claims().update(rid as int, who),
    {
        let mut r = self.riverdata[rid];
        r.claimed = who;
        self.riverdata.set(rid, r);
        assert(self.claims() =~= old(self).claims().update(rid as int, who));
    }

    /// The move that claims river `river` for us: from its first recorded
    /// site to its second.
    pub fn claim_move(&self, river: usize) -> (m: Move)
        requires
            river < self.riverdata@.len(),
        ensures
            m == (Move::Claim {
                punter: self.punter,
                source: self.riverdata@[river as int].sites.0,
                target: self.riverdata@[river as int].sites.1,
            }),
    {
        let sites = self.riverdata[river].sites;
        Move::Claim { punter: self.punter, source: sites.0, target: sites.1 }
    }

    /// The ids of the rivers that nobody has claimed, in recorded order.
    pub fn unclaimed_rivers(&self) -> (v: Vec<usize>)
        ensures
            v@ == unclaimed_ids(self.riverdata@),
    {
        let mut v: Vec<usize> = Vec::new();
        for i in 0..self.riverdata.len()
            invariant
                v@ == unclaimed_ids(self.riverdata@.take(i as int)),
        {
            assert(self.riverdata@.take(i + 1).drop_last() == self.riverdata@.take(i as int));
            if self.riverdata[i].claimed.is_none() {
                v.push(self.riverdata[i].id);
            }
        }
        assert(self.riverdata@.take(self.riverdata@.len() as int) == self.riverdata@);
        v
    }
}

/// Once a river is claimed, later moves never change who holds it.
pub proof fn lemma_claims_persist(g: Map<usize, Map<usize, usize>>, claims: Seq<Option<usize>>, moves: Seq<Move>, rid: int)
    requires
        graph_closed(g, claims.len()),
        moves_on_board(g, moves),
        0 <= rid < claims.len(),
        claims[rid] is Some,
    ensures
        apply_claims(g, claims, moves).len() == claims.len(),
        apply_claims(g, claims, moves)[rid] == claims[rid],
    decreases moves.len(),
{
    if moves.len() > 0 {
        let ms = moves.drop_last();
        assert(moves_on_board(g, ms)) by {
            assert forall|i: int| 0 <= i < ms.len() implies #[trigger] ms[i] == moves[i] by {}
        }
        lemma_claims_persist(g, claims, ms, rid);
        let last = moves[moves.len() - 1];
        assert(moves.last() == last);
        match last {
            Move::Pass { .. } => {},
            Move::Claim { punter, source, target } => {
                assert(g[source].contains_key(target));
            },
        }
    }
}

/// A claim of an unclaimed river on the board gives it to the claimer.
pub proof fn lemma_claim_takes_free_river(
    g: Map<usize, Map<usize, usize>>,
    claims: Seq<Option<usize>>,
    punter: usize,
    source: usize,
    target: usize,
)
    requires
        g.contains_key(source),
        g[source].contains_key(target),
        0 <= g[source][target] < claims.len(),
        claims[g[source][target] as int] is None,
    ensures
        apply_claims(g, claims, seq![Move::Claim { punter, source, target }])[g[source][target] as int] == Some(punter),
{
    let ms = seq![Move::Claim { punter, source, target }];
    assert(ms.drop_last() == Seq::<Move>::empty());
    assert(ms.last() == Move::Claim { punter, source, target });
    assert(apply_claims(g, claims, Seq::<Move>::empty()) == claims);
}

/// The sites that the index lists.
fn indexed_sites(m: &HashMap<usize, HashMap<usize, usize>>) -> (v: Vec<usize>)
    ensures
        forall|i: int| 0 <= i < v@.len() ==> #[trigger] m@.contains_key(v@[i]),
        forall|k: usize| #[trigger] m@.contains_key(k) ==> exists|i: int| 0 <= i < v@.len() && v@[i] == k,
{
    let mut v: Vec<usize> = Vec::new();
    let ghost s = vstd::std_specs::hash::spec_keys_iter(m).remaining();
    assert(s.unref().to_set() == m@.dom() && s.no_duplicates() && s.len() == m@.dom().len());
    for k in it: m.keys()
        invariant
            it.seq() == s,
            s.unref().to_set() == m@.dom(),
            s.len() == m@.dom().len(),
            v@.len() == it.index(),
            forall|i: int| 0 <= i < it.index() ==> #[trigger] v@[i] == *s[i],
    {
        v.push(*k);
    }
    assert forall|i: int| 0 <= i < v@.len() implies #[trigger] m@.contains_key(v@[i]) by {
        assert(s.unref()[i] == *s[i]);
        assert(s.unref().contains(s.unref()[i]));
    }
    assert forall|k: usize| #[trigger] m@.contains_key(k) implies exists|i: int| 0 <= i < v@.len() && v@[i] == k by {
        assert(s.unref().to_set().contains(k));
        let i = choose|i: int| 0 <= i < s.unref().len() && s.unref()[i] == k;
        assert(v@[i] == k);
    }
    v
}

impl State {
    /// Whether the state is consistent (see `well_formed`); a state read
    /// back from a message is checked with this before use.
    pub fn is_well_formed(&self) -> (b: bool)
        ensures
            b == self.well_formed(),
    {
        let n = self.riverdata.len();
        for i in 0..n
            invariant
                n == self.riverdata@.len(),
                forall|j: int| 0 <= j < i ==> #[trigger] self.riverdata@[j].id == j,
        {
            if self.riverdata[i].id != i {
                return false;
            }
        }
        let ghost g = self.graph();
        let keys = indexed_sites(&self.rivermap);
        for a in 0..keys.len()
            invariant
                g == self.graph(),
                n == self.riverdata@.len(),
                forall|j: int| 0 <= j < n ==> #[trigger] self.riverdata@[j].id == j,
                forall|i: int| 0 <= i < keys@.len() ==> #[trigger] self.rivermap@.contains_key(keys@[i]),
                forall|k: usize| #[trigger] self.rivermap@.contains_key(k) ==> exists|i: int| 0 <= i < keys@.len() && keys@[i] == k,
                forall|x: int, t: usize| 0 <= x < a && #[trigger] g[keys@[x]].contains_key(t) ==> g.contains_key(t) && g[keys@[x]][t] < n,
        {
            let s = keys[a];
            let table = self.rivermap.get(&s).unwrap();
            assert(table@ == g[s]);
            let es = entries_of(table);
            assert forall|x: int| 0 <= x < es@.len() implies table@.contains_key(#[trigger] es@[x].0) && table@[es@[x].0] == es@[x].1 by {
                assert(table@.contains_key(es@[x].0));
            }
            for b in 0..es.len()
                invariant
                    g == self.graph(),
                    n == self.riverdata@.len(),
                    0 <= a < keys@.len(),
                    s == keys@[a as int],
                    g.contains_key(s),
                    table@ == g[s],
                    forall|x: int| 0 <= x < es@.len() ==> table@.contains_key(#[trigger] es@[x].0) && table@[es@[x].0] == es@[x].1,
                    forall|x: int| 0 <= x < b ==> g.contains_key(#[trigger] es@[x].0) && es@[x].1 < n,
            {
                let (t, rid) = es[b];
                assert(es@[b as int] == (t, rid));
                assert(table@.contains_key(es@[b as int].0));
                if !self.rivermap.contains_key(&t) || rid >= n {
                    assert(g[s].contains_key(t));
                    return false;
                }
            }
            proof {
                assert forall|x: int, t: usize| 0 <= x < a + 1 && #[trigger] g[keys@[x]].contains_key(t) implies g.contains_key(t) && g[keys@[x]][t] < n by {
                    if x == a {
                        assert(table@.contains_key(t));
                        let y = choose|y: int| 0 <= y < es@.len() && es@[y].0 == t;
                        assert(g.contains_key(es@[y].0));
                    }
                }
            }
        }
        proof {
            assert forall|s: usize, t: usize| #![trigger g[s].contains_key(t)] g.contains_key(s) && g[s].contains_key(t) implies g.contains_key(t) && g[s][t] < n by {
                let x = choose|x: int| 0 <= x < keys@.len() && keys@[x] == s;
                assert(g[keys@[x]].contains_key(t));
            }
        }
        true
    }
}

/// River `r` joins `s` and `t`, in one direction or the other.
pub open spec fn joins(r: River, s: usize, t: usize) -> bool {
    (r.source == s && r.target == t) || (r.source == t && r.target == s)
}

/// Every entry of the index names a river of `order` between its two
/// sites, and the entry for the other direction names the same river.
pub open spec fn index_matches(g: Map<usize, Map<usize, usize>>, order: Seq<River>) -> bool {
    forall|s: usize, t: usize|
        #![trigger g[s].contains_key(t)]
        g.contains_key(s) && g[s].contains_key(t) ==> {
            &&& g.contains_key(t)
            &&& g[t].contains_key(s)
            &&& g[t][s] == g[s][t]
            &&& g[s][t] < order.len()
            &&& joins(order[g[s][t] as int], s, t)
        }
}

/// The index built from `order` is symmetric, and each of its entries
/// names a river of `order` between the two sites.
pub proof fn lemma_index_matches(sites: Seq<Site>, order: Seq<River>)
    requires
        order.len() <= usize::MAX,
    ensures
        index_matches(link_rivers(site_table(sites), order), order),
    decreases order.len(),
{
    if order.len() == 0 {
        lemma_site_table_empty_tables(sites);
    } else {
        let p = order.drop_last();
        lemma_index_matches(sites, p);
        let g0 = link_rivers(site_table(sites), p);
        let i = (order.len() - 1) as usize;
        let r = order.last();
        let a = r.source;
        let b = r.target;
        let g1 = link(g0, a, b, i);
        let g2 = link(g1, b, a, i);
        assert(g2 == link_rivers(site_table(sites), order));
        assert forall|s: usize, t: usize| #![trigger g2[s].contains_key(t)] g2.contains_key(s) && g2[s].contains_key(t) implies {
            &&& g2.contains_key(t)
            &&& g2[t].contains_key(s)
            &&& g2[t][s] == g2[s][t]
            &&& g2[s][t] < order.len()
            &&& joins(order[g2[s][t] as int], s, t)
        } by {
            if (s == a && t == b) || (s == b && t == a) {
                assert(g2[s][t] == i);
                assert(g2[t][s] == i);
                assert(order[i as int] == r);
            } else {
                assert(g0.contains_key(s) && g0[s].contains_key(t));
                assert(g2[s][t] == g0[s][t]);
                assert(g0[t].contains_key(s));
                assert(g2[t][s] == g0[t][s]);
                assert(order[g0[s][t] as int] == p[g0[s][t] as int]);
            }
        }
    }
}

impl State {
    /// Each entry of the neighbour index names a recorded river between
    /// its two sites, and the entry the other way names the same river.
    pub open spec fn index_consistent(&self) -> bool {
        forall|s: usize, t: usize|
            #![trigger self.graph()[s].contains_key(t)]
            self.graph().contains_key(s) && self.graph()[s].contains_key(t) ==> {
                let i = self.graph()[s][t] as int;
                &&& self.graph()[t].contains_key(s)
                &&& self.graph()[t][s] == self.graph()[s][t]
                &&& 0 <= i < self.riverdata@.len()
                &&& (self.riverdata@[i].sites == (s, t) || self.riverdata@[i].sites == (t, s))
            }
    }
}

/// Passes change no claim.
pub proof fn lemma_passes_change_nothing(g: Map<usize, Map<usize, usize>>, claims: Seq<Option<usize>>, moves: Seq<Move>)
    requires
        forall|i: int| 0 <= i < moves.len() ==> #[trigger] moves[i] is Pass,
    ensures
        apply_claims(g, claims, moves) == claims,
    decreases moves.len(),
{
    if moves.len() > 0 {
        let p = moves.drop_last();
        assert forall|i: int| 0 <= i < p.len() implies #[trigger] p[i] is Pass by {
            assert(p[i] == moves[i]);
        }
        lemma_passes_change_nothing(g, claims, p);
        assert(moves[moves.len() - 1] is Pass);
    }
}

proof fn lemma_add_pairs_contents(done: Set<(usize, usize)>, rs: Seq<River>, p: (usize, usize))
    ensures
        add_pairs(done, rs).contains(p) <==> done.contains(p) || exists|j: int| 0 <= j < rs.len() && river_pair(#[trigger] rs[j]) == p,
    decreases rs.len(),
{
    if rs.len() > 0 {
        let q = rs.drop_last();
        lemma_add_pairs_contents(done, q, p);
        if exists|j: int| 0 <= j < q.len() && river_pair(#[trigger] q[j]) == p {
            let j = choose|j: int| 0 <= j < q.len() && river_pair(#[trigger] q[j]) == p;
            assert(rs[j] == q[j]);
        }
        if exists|j: int| 0 <= j < rs.len() && river_pair(#[trigger] rs[j]) == p {
            let j = choose|j: int| 0 <= j < rs.len() && river_pair(#[trigger] rs[j]) == p;
            if j < q.len() {
                assert(q[j] == rs[j]);
            }
        }
    }
}

proof fn lemma_rounds_pairs(rivers: Seq<River>, mines: Seq<usize>, k: nat, p: (usize, usize))
    ensures
        rounds(rivers, mines, k).0.contains(p) <==> exists|j: int|
            0 <= j < rounds(rivers, mines, k).2.len() && river_pair(#[trigger] rounds(rivers, mines, k).2[j]) == p,
    decreases k,
{
    if k > 0 {
        let prev = rounds(rivers, mines, (k - 1) as nat);
        let rr = round_rivers(rivers, prev.0, prev.1);
        let out = prev.2 + rr;
        assert(rounds(rivers, mines, k).0 == add_pairs(prev.0, rr));
        assert(rounds(rivers, mines, k).2 == out);
        lemma_rounds_pairs(rivers, mines, (k - 1) as nat, p);
        lemma_add_pairs_contents(prev.0, rr, p);
        if exists|j: int| 0 <= j < prev.2.len() && river_pair(#[trigger] prev.2[j]) == p {
            let j = choose|j: int| 0 <= j < prev.2.len() && river_pair(#[trigger] prev.2[j]) == p;
            assert(out[j] == prev.2[j]);
        }
        if exists|j: int| 0 <= j < rr.len() && river_pair(#[trigger] rr[j]) == p {
            let j = choose|j: int| 0 <= j < rr.len() && river_pair(#[trigger] rr[j]) == p;
            assert(out[prev.2.len() + j] == rr[j]);
        }
        if exists|j: int| 0 <= j < out.len() && river_pair(#[trigger] out[j]) == p {
            let j = choose|j: int| 0 <= j < out.len() && river_pair(#[trigger] out[j]) == p;
            if j < prev.2.len() {
                assert(out[j] == prev.2[j]);
            } else {
                assert(out[j] == rr[j - prev.2.len()]);
            }
        }
    }
}

proof fn lemma_rounds_prefix(rivers: Seq<River>, mines: Seq<usize>, j: nat, k: nat)
    requires
        j <= k,
    ensures
        rounds(rivers, mines, j).2.len() <= rounds(rivers, mines, k).2.len(),
        rounds(rivers, mines, k).2.take(rounds(rivers, mines, j).2.len() as int) == rounds(rivers, mines, j).2,
    decreases k,
{
    if j < k {
        lemma_rounds_prefix(rivers, mines, j, (k - 1) as nat);
        let prev = rounds(rivers, mines, (k - 1) as nat);
        let n = rounds(rivers, mines, j).2.len() as int;
        assert(rounds(rivers, mines, k).2.take(n) == prev.2.take(n));
    }
}

/// With at least one mine, every river of the board is recorded: the order
/// holds each river, as the board lists it.
pub proof fn lemma_every_river_recorded(rivers: Seq<River>, mines: Seq<usize>, i: int)
    requires
        mines.len() > 0,
        0 <= i < rivers.len(),
        exists|k: nat| finished_at(rivers, mines, k),
    ensures
        river_order(rivers, mines).contains(rivers[i]),
{
    let k = choose|k: nat| finished_at(rivers, mines, k);
    assert(finished_at(rivers, mines, k));
    assert(k >= 1) by {
        if k == 0 {
            assert(mines.to_set().contains(mines[0]));
        }
    }
    let prev = rounds(rivers, mines, (k - 1) as nat);
    let rr = round_rivers(rivers, prev.0, prev.1);
    let done = add_pairs(prev.0, rr);
    let fresh = fresh_sites(prev.1, rr);
    assert(fresh.is_empty()) by {
        if !fresh.is_empty() {
            assert(rounds(rivers, mines, k).1 == fresh);
        }
    }
    assert(leftover_sites(rivers, done).is_empty());
    lemma_leftover_contents(rivers, done);
    assert(done.contains(river_pair(rivers[i]))) by {
        if !done.contains(river_pair(rivers[i])) {
            assert(leftover_sites(rivers, done).contains(rivers[i].source));
        }
    }
    assert(rounds(rivers, mines, k).0 == done);
    lemma_rounds_pairs(rivers, mines, k, river_pair(rivers[i]));
    let order = rounds(rivers, mines, k).2;
    let j = choose|j: int| 0 <= j < order.len() && river_pair(#[trigger] order[j]) == river_pair(rivers[i]);
    assert(order[j] == rivers[i]);
}

/// With at least one mine, the order starts with the rivers at the mines,
/// in board order.
pub proof fn lemma_mine_rivers_first(rivers: Seq<River>, mines: Seq<usize>)
    requires
        mines.len() > 0,
        exists|k: nat| finished_at(rivers, mines, k),
    ensures
        ({
            let first = round_rivers(rivers, Set::empty(), mines.to_set());
            &&& first.len() <= river_order(rivers, mines).len()
            &&& river_order(rivers, mines).take(first.len() as int) == first
        }),
{
    let k = choose|k: nat| finished_at(rivers, mines, k);
    assert(finished_at(rivers, mines, k));
    assert(k >= 1) by {
        if k == 0 {
            assert(mines.to_set().contains(mines[0]));
        }
    }
    lemma_rounds_prefix(rivers, mines, 1, k);
    assert(rounds(rivers, mines, 0) == (Set::<(usize, usize)>::empty(), mines.to_set(), Seq::<River>::empty()));
    assert(rounds(rivers, mines, 1).2 == Seq::<River>::empty() + round_rivers(rivers, Set::empty(), mines.to_set()));
    assert(Seq::<River>::empty() + round_rivers(rivers, Set::empty(), mines.to_set()) == round_rivers(rivers, Set::empty(), mines.to_set()));
}

proof fn lemma_recorded_river_indexed(g: Map<usize, Map<usize, usize>>, order: Seq<River>, j: int)
    requires
        0 <= j < order.len(),
    ensures
        link_rivers(g, order).contains_key(order[j].source),
        link_rivers(g, order)[order[j].source].contains_key(order[j].target),
        link_rivers(g, order).contains_key(order[j].target),
        link_rivers(g, order)[order[j].target].contains_key(order[j].source),
    decreases order.len(),
{
    let p = order.drop_last();
    if j < order.len() - 1 {
        lemma_recorded_river_indexed(g, p, j);
        assert(p[j] == order[j]);
    }
}

/// With at least one mine, every river of the board can be looked up in
/// the index built for it, from either end.
pub proof fn lemma_board_rivers_indexed(sites: Seq<Site>, rivers: Seq<River>, mines: Seq<usize>, i: int)
    requires
        mines.len() > 0,
        0 <= i < rivers.len(),
        exists|k: nat| finished_at(rivers, mines, k),
    ensures
        ({
            let g = link_rivers(site_table(sites), river_order(rivers, mines));
            &&& g.contains_key(rivers[i].source)
            &&& g[rivers[i].source].contains_key(rivers[i].target)
            &&& g.contains_key(rivers[i].target)
            &&& g[rivers[i].target].contains_key(rivers[i].source)
        }),
{
    lemma_every_river_recorded(rivers, mines, i);
    let order = river_order(rivers, mines);
    let j = choose|j: int| 0 <= j < order.len() && order[j] == rivers[i];
    lemma_recorded_river_indexed(site_table(sites), order, j);
}

/// There are no more unclaimed rivers than rivers.
pub proof fn lemma_unclaimed_len(rd: Seq<RiverData>)
    ensures
        unclaimed_ids(rd).len() <= rd.len(),
    decreases rd.len(),
{
    if rd.len() > 0 {
        lemma_unclaimed_len(rd.drop_last());
    }
}

/// When each river is recorded under its own position, the unclaimed ids
/// are exactly the positions of the rivers nobody has claimed, each once,
/// in increasing order.
pub proof fn lemma_unclaimed_ids_exact(rd: Seq<RiverData>)
    requires
        forall|i: int| 0 <= i < rd.len() ==> #[trigger] rd[i].id == i,
    ensures
        forall|x: usize| unclaimed_ids(rd).contains(x) <==> x < rd.len() && rd[x as int].claimed is None,
        forall|a: int, b: int| 0 <= a < b < unclaimed_ids(rd).len() ==> unclaimed_ids(rd)[a] < unclaimed_ids(rd)[b],
        forall|a: int| 0 <= a < unclaimed_ids(rd).len() ==> unclaimed_ids(rd)[a] < rd.len(),
    decreases rd.len(),
{
    if rd.len() > 0 {
        let p = rd.drop_last();
        assert forall|i: int| 0 <= i < p.len() implies #[trigger] p[i].id == i by {
            assert(p[i] == rd[i]);
        }
        lemma_unclaimed_ids_exact(p);
        let rest = unclaimed_ids(p);
        let u = unclaimed_ids(rd);
        let last = rd.len() - 1;
        assert(rd.last() == rd[last]);
        assert(rd[last].id == last);
        assert forall|x: usize| u.contains(x) <==> x < rd.len() && rd[x as int].claimed is None by {
            if x < last {
                assert(p[x as int] == rd[x as int]);
            }
            if u.contains(x) {
                let k = choose|k: int| 0 <= k < u.len() && u[k] == x;
                if k < rest.len() {
                    assert(u[k] == rest[k]);
                    assert(rest.contains(x));
                }
            }
            if x < rd.len() && rd[x as int].claimed is None {
                if x < last {
                    assert(rest.contains(x));
                    let k = choose|k: int| 0 <= k < rest.len() && rest[k] == x;
                    assert(u[k] == rest[k]);
                } else {
                    assert(u[u.len() - 1] == x);
                }
            }
        }
        assert forall|a: int| 0 <= a < u.len() implies u[a] < rd.len() by {
            if a < rest.len() {
                assert(u[a] == rest[a]);
            }
        }
        assert forall|a: int, b: int| 0 <= a < b < u.len() implies u[a] < u[b] by {
            if b < rest.len() {
                assert(u[a] == rest[a] && u[b] == rest[b]);
            } else {
                assert(u[a] == rest[a]);
                assert(rest[a] < p.len());
            }
        }
    }
}

impl State {
    /// Every recorded river can be looked up in the index from its first
    /// site to its second.
    pub open spec fn rivers_indexed(&self) -> bool {
        forall|i: int|
            #![trigger self.riverdata@[i]]
            0 <= i < self.riverdata@.len() ==> self.graph().contains_key(self.riverdata@[i].sites.0)
                && self.graph()[self.riverdata@[i].sites.0].contains_key(self.riverdata@[i].sites.1)
    }

    /// No two recorded rivers join the same two sites.
    pub open spec fn distinct_river_pairs(&self) -> bool {
        forall|i: int, j: int|
            #![trigger self.riverdata@[i], self.riverdata@[j]]
            0 <= i < self.riverdata@.len() && 0 <= j < self.riverdata@.len() && i != j ==> {
                &&& self.riverdata@[i].sites != self.riverdata@[j].sites
                &&& self.riverdata@[i].sites != (self.riverdata@[j].sites.1, self.riverdata@[j].sites.0)
            }
    }
}

/// The move that claims one of our rivers, once applied, claims exactly
/// that river for us and leaves every other claim as it was, provided no
/// two rivers join the same two sites and the river is still free.
pub proof fn lemma_own_claim_takes_river(st: &State, r: int)
    requires
        st.well_formed(),
        st.index_consistent(),
        st.rivers_indexed(),
        st.distinct_river_pairs(),
        0 <= r < st.riverdata@.len(),
        st.claims()[r] is None,
    ensures
        apply_claims(
            st.graph(),
            st.claims(),
            seq![Move::Claim { punter: st.punter, source: st.riverdata@[r].sites.0, target: st.riverdata@[r].sites.1 }],
        ) == st.claims().update(r, Some(st.punter)),
{
    let s = st.riverdata@[r].sites.0;
    let t = st.riverdata@[r].sites.1;
    let g = st.graph();
    assert(g.contains_key(s) && g[s].contains_key(t));
    let j = g[s][t] as int;
    assert(0 <= j < st.riverdata@.len());
    assert(st.riverdata@[j].sites == (s, t) || st.riverdata@[j].sites == (t, s));
    assert(j == r) by {
        if j != r {
            assert(st.riverdata@[j].sites != st.riverdata@[r].sites);
        }
    }
    let m = Move::Claim { punter: st.punter, source: s, target: t };
    let ms = seq![m];
    assert(ms.drop_last() == Seq::<Move>::empty());
    assert(ms.last() == m);
    assert(apply_claims(g, st.claims(), Seq::<Move>::empty()) == st.claims());
}

/// Both ends of every river of `rivers` that touches `p`.
pub open spec fn ends_touching(rivers: Seq<River>, p: Set<usize>) -> Set<usize> {
    Set::new(|s: usize| exists|i: int| 0 <= i < rivers.len() && touches(#[trigger] rivers[i], p) && has_end(rivers[i], s))
}

/// The sites within `m` rivers of a mine: the mines themselves, then, step
/// by step, both ends of every river that touches a site already near.
pub open spec fn near(rivers: Seq<River>, mines: Seq<usize>, m: nat) -> Set<usize>
    decreases m,
{
    if m == 0 {
        mines.to_set()
    } else {
        let p = near(rivers, mines, (m - 1) as nat);
        p.union(ends_touching(rivers, p))
    }
}

proof fn lemma_near_mono(rivers: Seq<River>, mines: Seq<usize>, a: nat, b: nat)
    requires
        a <= b,
    ensures
        near(rivers, mines, a).subset_of(near(rivers, mines, b)),
    decreases b,
{
    if a < b {
        lemma_near_mono(rivers, mines, a, (b - 1) as nat);
    }
}

proof fn lemma_near_ends(rivers: Seq<River>, mines: Seq<usize>, m: nat, i: int)
    requires
        0 <= i < rivers.len(),
        touches(rivers[i], near(rivers, mines, m)),
    ensures
        near(rivers, mines, m + 1).contains(rivers[i].source),
        near(rivers, mines, m + 1).contains(rivers[i].target),
{
    let p = near(rivers, mines, m);
    assert(near(rivers, mines, m + 1) == p.union(ends_touching(rivers, p)));
    assert(ends_touching(rivers, p).contains(rivers[i].source));
    assert(ends_touching(rivers, p).contains(rivers[i].target));
}

/// Once a step adds no site, no later step does.
proof fn lemma_near_stable(rivers: Seq<River>, mines: Seq<usize>, k0: nat, m: nat)
    requires
        near(rivers, mines, k0 + 1).subset_of(near(rivers, mines, k0)),
    ensures
        near(rivers, mines, m).subset_of(near(rivers, mines, k0)),
    decreases m,
{
    if m <= k0 {
        lemma_near_mono(rivers, mines, m, k0);
    } else {
        lemma_near_stable(rivers, mines, k0, (m - 1) as nat);
        let p = near(rivers, mines, (m - 1) as nat);
        let q = near(rivers, mines, k0);
        assert forall|s: usize| near(rivers, mines, m).contains(s) implies q.contains(s) by {
            if !p.contains(s) {
                let i = choose|i: int| 0 <= i < rivers.len() && touches(#[trigger] rivers[i], p) && has_end(rivers[i], s);
                assert(touches(rivers[i], q));
                lemma_near_ends(rivers, mines, k0, i);
            }
        }
    }
}

proof fn lemma_round_rivers_contents(rivers: Seq<River>, done: Set<(usize, usize)>, old: Set<usize>)
    ensures
        forall|j: int| 0 <= j < round_rivers(rivers, done, old).len() ==>
            picked(#[trigger] round_rivers(rivers, done, old)[j], done, old)
            && exists|i: int| 0 <= i < rivers.len() && rivers[i] == round_rivers(rivers, done, old)[j],
        forall|i: int| 0 <= i < rivers.len() && picked(#[trigger] rivers[i], done, old) ==>
            exists|j: int| 0 <= j < round_rivers(rivers, done, old).len() && round_rivers(rivers, done, old)[j] == rivers[i],
    decreases rivers.len(),
{
    if rivers.len() > 0 {
        let q = rivers.drop_last();
        let rq = round_rivers(q, done, old);
        let rr = round_rivers(rivers, done, old);
        lemma_round_rivers_contents(q, done, old);
        assert forall|j: int| 0 <= j < rr.len() implies picked(#[trigger] rr[j], done, old)
            && exists|i: int| 0 <= i < rivers.len() && rivers[i] == rr[j] by {
            if j < rq.len() {
                assert(rr[j] == rq[j]);
                let i = choose|i: int| 0 <= i < q.len() && q[i] == rq[j];
                assert(rivers[i] == q[i]);
            } else {
                assert(rivers[rivers.len() - 1] == rr[j]);
            }
        }
        assert forall|i: int| 0 <= i < rivers.len() && picked(#[trigger] rivers[i], done, old) implies
            exists|j: int| 0 <= j < rr.len() && rr[j] == rivers[i] by {
            if i < q.len() {
                assert(q[i] == rivers[i]);
                let j = choose|j: int| 0 <= j < rq.len() && rq[j] == q[i];
                assert(rr[j] == rq[j]);
            } else {
                assert(rr[rr.len() - 1] == rivers[i]);
            }
        }
    }
}

/// `s` is one of the ends of `r`.
pub open spec fn has_end(r: River, s: usize) -> bool {
    r.source == s || r.target == s
}

proof fn lemma_fresh_contents(old: Set<usize>, rs: Seq<River>, s: usize)
    ensures
        fresh_sites(old, rs).contains(s) <==> !old.contains(s) && exists|j: int|
            0 <= j < rs.len() && has_end(#[trigger] rs[j], s),
    decreases rs.len(),
{
    if rs.len() > 0 {
        let q = rs.drop_last();
        lemma_fresh_contents(old, q, s);
        if exists|j: int| 0 <= j < q.len() && has_end(#[trigger] q[j], s) {
            let j = choose|j: int| 0 <= j < q.len() && has_end(#[trigger] q[j], s);
            assert(rs[j] == q[j]);
        }
        if exists|j: int| 0 <= j < rs.len() && has_end(#[trigger] rs[j], s) {
            let j = choose|j: int| 0 <= j < rs.len() && has_end(#[trigger] rs[j], s);
            if j < q.len() {
                assert(q[j] == rs[j]);
            }
        }
    }
}

/// In `s`, the rivers within any distance of a mine come before all
/// others: whenever a river touches the sites within `m` rivers of a mine,
/// so does every river before it.
pub open spec fn nearest_first(rivers: Seq<River>, mines: Seq<usize>, s: Seq<River>) -> bool {
    forall|m: nat, i: int, j: int|
        #![trigger touches(s[j], near(rivers, mines, m)), s[i]]
        0 <= i < j < s.len() && touches(s[j], near(rivers, mines, m)) ==> touches(s[i], near(rivers, mines, m))
}

/// What holds after `k` rounds that have each found new sites: the sites to
/// start from are within `k` rivers of a mine and include every site first
/// within `k`; a river has been taken exactly when it is within `k - 1`
/// rivers; every recorded river is within `k - 1` rivers.
spec fn layered(rivers: Seq<River>, mines: Seq<usize>, k: nat) -> bool {
    let st = rounds(rivers, mines, k);
    &&& forall|s: usize| #[trigger] st.1.contains(s) ==> near(rivers, mines, k).contains(s)
    &&& forall|s: usize|
        #[trigger] near(rivers, mines, k).contains(s) && (k == 0 || !near(rivers, mines, (k - 1) as nat).contains(s)) ==> st.1.contains(s)
    &&& forall|i: int|
        0 <= i < rivers.len() ==> (st.0.contains(river_pair(#[trigger] rivers[i])) <==> k > 0 && touches(
            rivers[i],
            near(rivers, mines, (k - 1) as nat),
        ))
    &&& forall|j: int| 0 <= j < st.2.len() ==> k > 0 && touches(#[trigger] st.2[j], near(rivers, mines, (k - 1) as nat))
}

/// After `k` rounds, the sites near the mines stopped growing at step `k0`
/// and every river that touches them has been taken.
spec fn settled(rivers: Seq<River>, mines: Seq<usize>, k: nat, k0: nat) -> bool {
    &&& near(rivers, mines, k0 + 1).subset_of(near(rivers, mines, k0))
    &&& forall|i: int|
        0 <= i < rivers.len() && touches(#[trigger] rivers[i], near(rivers, mines, k0)) ==> rounds(rivers, mines, k).0.contains(
            river_pair(rivers[i]),
        )
}

proof fn lemma_touch_mono(r: River, a: Set<usize>, b: Set<usize>)
    requires
        touches(r, a),
        a.subset_of(b),
    ensures
        touches(r, b),
{
    if a.contains(r.target) {
        assert(b.contains(r.target));
    } else {
        assert(b.contains(r.source));
    }
}

/// Appending `b` to `a` keeps the nearest rivers first, when each part does
/// and every river of `b` is no nearer than every river of `a`.
proof fn lemma_nearest_append(rivers: Seq<River>, mines: Seq<usize>, a: Seq<River>, b: Seq<River>)
    requires
        nearest_first(rivers, mines, a),
        nearest_first(rivers, mines, b),
        forall|m: nat, x: int, y: int|
            #![trigger touches(b[y], near(rivers, mines, m)), a[x]]
            0 <= x < a.len() && 0 <= y < b.len() && touches(b[y], near(rivers, mines, m)) ==> touches(a[x], near(rivers, mines, m)),
    ensures
        nearest_first(rivers, mines, a + b),
{
    let s = a + b;
    assert forall|m: nat, i: int, j: int|
        #![trigger touches(s[j], near(rivers, mines, m)), s[i]]
        0 <= i < j < s.len() && touches(s[j], near(rivers, mines, m)) implies touches(s[i], near(rivers, mines, m)) by {
        if j < a.len() {
            assert(s[i] == a[i] && s[j] == a[j]);
            assert(touches(a[j], near(rivers, mines, m)));
        } else if i < a.len() {
            assert(s[i] == a[i] && s[j] == b[j - a.len()]);
            assert(touches(b[j - a.len()], near(rivers, mines, m)));
        } else {
            assert(s[i] == b[i - a.len()] && s[j] == b[j - a.len()]);
            assert(touches(b[j - a.len()], near(rivers, mines, m)));
        }
    }
}

/// The rivers taken in round `k + 1`.
spec fn round_after(rivers: Seq<River>, mines: Seq<usize>, k: nat) -> Seq<River> {
    round_rivers(rivers, rounds(rivers, mines, k).0, rounds(rivers, mines, k).1)
}

proof fn lemma_round_after_shape(rivers: Seq<River>, mines: Seq<usize>, k: nat)
    ensures
        rounds(rivers, mines, k + 1).0 == add_pairs(rounds(rivers, mines, k).0, round_after(rivers, mines, k)),
        rounds(rivers, mines, k + 1).2 == rounds(rivers, mines, k).2 + round_after(rivers, mines, k),
        fresh_sites(rounds(rivers, mines, k).1, round_after(rivers, mines, k)).is_empty() ==> rounds(rivers, mines, k + 1).1
            == leftover_sites(rivers, rounds(rivers, mines, k + 1).0),
        !fresh_sites(rounds(rivers, mines, k).1, round_after(rivers, mines, k)).is_empty() ==> rounds(rivers, mines, k + 1).1
            == fresh_sites(rounds(rivers, mines, k).1, round_after(rivers, mines, k)),
        forall|p: (usize, usize)| #[trigger] rounds(rivers, mines, k).0.contains(p) ==> rounds(rivers, mines, k + 1).0.contains(p),
{
    assert(rounds(rivers, mines, k + 1) == next_round(rivers, rounds(rivers, mines, k)));
    assert forall|p: (usize, usize)| #[trigger] rounds(rivers, mines, k).0.contains(p) implies rounds(rivers, mines, k + 1).0.contains(p) by {
        lemma_add_pairs_contents(rounds(rivers, mines, k).0, round_after(rivers, mines, k), p);
    }
}

proof fn lemma_settled_step(rivers: Seq<River>, mines: Seq<usize>, k: nat, k0: nat)
    requires
        settled(rivers, mines, k, k0),
        nearest_first(rivers, mines, rounds(rivers, mines, k).2),
    ensures
        settled(rivers, mines, k + 1, k0),
        nearest_first(rivers, mines, rounds(rivers, mines, k + 1).2),
{
    let prev = rounds(rivers, mines, k);
    let rr = round_after(rivers, mines, k);
    lemma_round_after_shape(rivers, mines, k);
    lemma_round_rivers_contents(rivers, prev.0, prev.1);
    assert forall|y: int, m: nat| 0 <= y < rr.len() implies !#[trigger] touches(rr[y], near(rivers, mines, m)) by {
        let i = choose|i: int| 0 <= i < rivers.len() && rivers[i] == rr[y];
        assert(picked(rr[y], prev.0, prev.1));
        lemma_near_stable(rivers, mines, k0, m);
        if touches(rr[y], near(rivers, mines, m)) {
            lemma_touch_mono(rr[y], near(rivers, mines, m), near(rivers, mines, k0));
            assert(touches(rivers[i], near(rivers, mines, k0)));
        }
    }
    lemma_nearest_append(rivers, mines, prev.2, rr);
}

/// In a layered state, the rivers of the next round are within `k` rivers
/// of a mine and, past the first round, not within `k - 1`.
proof fn lemma_layer_round(rivers: Seq<River>, mines: Seq<usize>, k: nat)
    requires
        layered(rivers, mines, k),
    ensures
        forall|y: int| 0 <= y < round_after(rivers, mines, k).len() ==>
            touches(#[trigger] round_after(rivers, mines, k)[y], near(rivers, mines, k))
            && (k > 0 ==> !touches(round_after(rivers, mines, k)[y], near(rivers, mines, (k - 1) as nat))),
{
    let prev = rounds(rivers, mines, k);
    let rr = round_after(rivers, mines, k);
    lemma_round_rivers_contents(rivers, prev.0, prev.1);
    assert forall|y: int| 0 <= y < rr.len() implies touches(#[trigger] rr[y], near(rivers, mines, k))
        && (k > 0 ==> !touches(rr[y], near(rivers, mines, (k - 1) as nat))) by {
        let i = choose|i: int| 0 <= i < rivers.len() && rivers[i] == rr[y];
        assert(picked(rr[y], prev.0, prev.1));
        assert(!prev.0.contains(river_pair(rivers[i])));
        if prev.1.contains(rr[y].target) {
            assert(near(rivers, mines, k).contains(rr[y].target));
        } else {
            assert(near(rivers, mines, k).contains(rr[y].source));
        }
    }
}

/// In a layered state, a river within `k` rivers of a mine that was not
/// taken yet is taken in the next round.
proof fn lemma_layer_takes(rivers: Seq<River>, mines: Seq<usize>, k: nat, i: int)
    requires
        layered(rivers, mines, k),
        0 <= i < rivers.len(),
        touches(rivers[i], near(rivers, mines, k)),
        !rounds(rivers, mines, k).0.contains(river_pair(rivers[i])),
    ensures
        exists|j: int| 0 <= j < round_after(rivers, mines, k).len() && round_after(rivers, mines, k)[j] == rivers[i],
{
    let prev = rounds(rivers, mines, k);
    lemma_round_rivers_contents(rivers, prev.0, prev.1);
    let e = if near(rivers, mines, k).contains(rivers[i].target) { rivers[i].target } else { rivers[i].source };
    if k > 0 && near(rivers, mines, (k - 1) as nat).contains(e) {
        assert(touches(rivers[i], near(rivers, mines, (k - 1) as nat)));
    }
    assert(prev.1.contains(e));
    assert(picked(rivers[i], prev.0, prev.1));
    let rr = round_rivers(rivers, prev.0, prev.1);
    assert(round_after(rivers, mines, k) == rr);
    let j = choose|j: int| 0 <= j < rr.len() && rr[j] == rivers[i];
    assert(round_after(rivers, mines, k)[j] == rivers[i]);
}

/// In a layered state, after the next round a river has been taken exactly
/// when it is within `k` rivers of a mine.
proof fn lemma_layer_done(rivers: Seq<River>, mines: Seq<usize>, k: nat)
    requires
        layered(rivers, mines, k),
    ensures
        forall|i: int| 0 <= i < rivers.len() ==> (rounds(rivers, mines, k + 1).0.contains(river_pair(#[trigger] rivers[i]))
            <==> touches(rivers[i], near(rivers, mines, k))),
{
    let prev = rounds(rivers, mines, k);
    let rr = round_after(rivers, mines, k);
    lemma_round_after_shape(rivers, mines, k);
    lemma_layer_round(rivers, mines, k);
    assert forall|i: int| 0 <= i < rivers.len() implies (rounds(rivers, mines, k + 1).0.contains(river_pair(#[trigger] rivers[i]))
        <==> touches(rivers[i], near(rivers, mines, k))) by {
        lemma_add_pairs_contents(prev.0, rr, river_pair(rivers[i]));
        if touches(rivers[i], near(rivers, mines, k)) {
            if !prev.0.contains(river_pair(rivers[i])) {
                lemma_layer_takes(rivers, mines, k, i);
                let j = choose|j: int| 0 <= j < rr.len() && rr[j] == rivers[i];
                assert(river_pair(rr[j]) == river_pair(rivers[i]));
            }
        } else {
            if k > 0 && touches(rivers[i], near(rivers, mines, (k - 1) as nat)) {
                lemma_near_mono(rivers, mines, (k - 1) as nat, k);
                lemma_touch_mono(rivers[i], near(rivers, mines, (k - 1) as nat), near(rivers, mines, k));
            }
            assert(!prev.0.contains(river_pair(rivers[i])));
            if exists|j: int| 0 <= j < rr.len() && river_pair(#[trigger] rr[j]) == river_pair(rivers[i]) {
                let j = choose|j: int| 0 <= j < rr.len() && river_pair(#[trigger] rr[j]) == river_pair(rivers[i]);
                assert(touches(rr[j], near(rivers, mines, k)));
            }
        }
    }
}

/// In a layered state, the sites first within `k + 1` rivers of a mine are
/// new ends of the next round's rivers, and those are all within `k + 1`.
proof fn lemma_layer_fresh(rivers: Seq<River>, mines: Seq<usize>, k: nat)
    requires
        layered(rivers, mines, k),
    ensures
        forall|s: usize| #[trigger] near(rivers, mines, k + 1).contains(s) && !near(rivers, mines, k).contains(s)
            ==> fresh_sites(rounds(rivers, mines, k).1, round_after(rivers, mines, k)).contains(s),
        forall|s: usize| #[trigger] fresh_sites(rounds(rivers, mines, k).1, round_after(rivers, mines, k)).contains(s)
            ==> near(rivers, mines, k + 1).contains(s),
{
    let prev = rounds(rivers, mines, k);
    let rr = round_after(rivers, mines, k);
    let fresh = fresh_sites(prev.1, rr);
    lemma_round_rivers_contents(rivers, prev.0, prev.1);
    lemma_layer_round(rivers, mines, k);
    assert forall|s: usize| #[trigger] near(rivers, mines, k + 1).contains(s) && !near(rivers, mines, k).contains(s)
        implies fresh.contains(s) by {
        let p = near(rivers, mines, k);
        assert(near(rivers, mines, k + 1) == p.union(ends_touching(rivers, p)));
        let i = choose|i: int| 0 <= i < rivers.len() && touches(#[trigger] rivers[i], p) && has_end(rivers[i], s);
        if k > 0 && touches(rivers[i], near(rivers, mines, (k - 1) as nat)) {
            lemma_near_ends(rivers, mines, (k - 1) as nat, i);
        }
        assert(!prev.0.contains(river_pair(rivers[i])));
        lemma_layer_takes(rivers, mines, k, i);
        let j = choose|j: int| 0 <= j < rr.len() && rr[j] == rivers[i];
        assert(!prev.1.contains(s));
        assert(has_end(rr[j], s));
        lemma_fresh_contents(prev.1, rr, s);
    }
    assert forall|s: usize| #[trigger] fresh.contains(s) implies near(rivers, mines, k + 1).contains(s) by {
        lemma_fresh_contents(prev.1, rr, s);
        let j = choose|j: int| 0 <= j < rr.len() && has_end(#[trigger] rr[j], s);
        let i = choose|i: int| 0 <= i < rivers.len() && rivers[i] == rr[j];
        assert(touches(rivers[i], near(rivers, mines, k)));
        lemma_near_ends(rivers, mines, k, i);
    }
}

/// In a layered state, the next round keeps the nearest rivers first.
proof fn lemma_layer_nearest(rivers: Seq<River>, mines: Seq<usize>, k: nat)
    requires
        layered(rivers, mines, k),
        nearest_first(rivers, mines, rounds(rivers, mines, k).2),
    ensures
        nearest_first(rivers, mines, rounds(rivers, mines, k + 1).2),
{
    let prev = rounds(rivers, mines, k);
    let rr = round_after(rivers, mines, k);
    lemma_round_after_shape(rivers, mines, k);
    lemma_layer_round(rivers, mines, k);
    assert forall|m: nat, i: int, j: int|
        #![trigger touches(rr[j], near(rivers, mines, m)), rr[i]]
        0 <= i < j < rr.len() && touches(rr[j], near(rivers, mines, m)) implies touches(rr[i], near(rivers, mines, m)) by {
        assert(touches(rr[i], near(rivers, mines, k)));
        if m < k {
            lemma_near_mono(rivers, mines, m, (k - 1) as nat);
            lemma_touch_mono(rr[j], near(rivers, mines, m), near(rivers, mines, (k - 1) as nat));
        }
        lemma_near_mono(rivers, mines, k, m);
        lemma_touch_mono(rr[i], near(rivers, mines, k), near(rivers, mines, m));
    }
    assert forall|m: nat, x: int, y: int|
        #![trigger touches(rr[y], near(rivers, mines, m)), prev.2[x]]
        0 <= x < prev.2.len() && 0 <= y < rr.len() && touches(rr[y], near(rivers, mines, m)) implies touches(
            prev.2[x],
            near(rivers, mines, m),
        ) by {
        assert(touches(prev.2[x], near(rivers, mines, (k - 1) as nat)));
        assert(touches(rr[y], near(rivers, mines, k)));
        if m < k {
            lemma_near_mono(rivers, mines, m, (k - 1) as nat);
            lemma_touch_mono(rr[y], near(rivers, mines, m), near(rivers, mines, (k - 1) as nat));
        }
        lemma_near_mono(rivers, mines, (k - 1) as nat, m);
        lemma_touch_mono(prev.2[x], near(rivers, mines, (k - 1) as nat), near(rivers, mines, m));
    }
    lemma_nearest_append(rivers, mines, prev.2, rr);
}

/// In a layered state, the next round leaves a layered state if it finds new
/// sites, and a settled one if it finds none.
proof fn lemma_layer_step(rivers: Seq<River>, mines: Seq<usize>, k: nat)
    requires
        layered(rivers, mines, k),
    ensures
        fresh_sites(rounds(rivers, mines, k).1, round_after(rivers, mines, k)).is_empty() ==> settled(rivers, mines, k + 1, k),
        !fresh_sites(rounds(rivers, mines, k).1, round_after(rivers, mines, k)).is_empty() ==> layered(rivers, mines, k + 1),
{
    let prev = rounds(rivers, mines, k);
    let rr = round_after(rivers, mines, k);
    let fresh = fresh_sites(prev.1, rr);
    let st = rounds(rivers, mines, k + 1);
    lemma_round_after_shape(rivers, mines, k);
    lemma_layer_round(rivers, mines, k);
    lemma_layer_done(rivers, mines, k);
    lemma_layer_fresh(rivers, mines, k);
    if fresh.is_empty() {
        assert(near(rivers, mines, k + 1).subset_of(near(rivers, mines, k)));
    } else {
        assert(st.1 == fresh);
        assert forall|j: int| 0 <= j < st.2.len() implies touches(#[trigger] st.2[j], near(rivers, mines, k)) by {
            if j < prev.2.len() {
                assert(st.2[j] == prev.2[j]);
                lemma_near_mono(rivers, mines, (k - 1) as nat, k);
                lemma_touch_mono(prev.2[j], near(rivers, mines, (k - 1) as nat), near(rivers, mines, k));
            } else {
                assert(st.2[j] == rr[j - prev.2.len()]);
            }
        }
        assert(((k + 1) - 1) as nat == k);
    }
}

/// The rounds keep the nearest rivers first; while each round finds new
/// sites they go out one river at a time (`layered`), and once a round finds
/// none, every river near the mines has been taken (`settled`).
proof fn lemma_rounds_layers(rivers: Seq<River>, mines: Seq<usize>, k: nat) -> (k0: Option<nat>)
    ensures
        nearest_first(rivers, mines, rounds(rivers, mines, k).2),
        k0 is None ==> layered(rivers, mines, k),
        k0 is Some ==> settled(rivers, mines, k, k0->0),
    decreases k,
{
    if k == 0 {
        let st = rounds(rivers, mines, 0);
        assert(st.2 == Seq::<River>::empty());
        assert(st.0 == Set::<(usize, usize)>::empty());
        assert(st.1 == near(rivers, mines, 0));
        None
    } else {
        let kp = (k - 1) as nat;
        let before = lemma_rounds_layers(rivers, mines, kp);
        match before {
            Some(k0) => {
                lemma_settled_step(rivers, mines, kp, k0);
                Some(k0)
            },
            None => {
                lemma_layer_nearest(rivers, mines, kp);
                lemma_layer_step(rivers, mines, kp);
                if fresh_sites(rounds(rivers, mines, kp).1, round_after(rivers, mines, kp)).is_empty() {
                    Some(kp)
                } else {
                    None
                }
            },
        }
    }
}

/// Nearest first: in the order in which the state records the rivers,
/// for every `m`, the rivers within `m` rivers of a mine come before all
/// others. Whenever a recorded river touches a site within `m` rivers of a
/// mine, so does every river recorded before it.
pub proof fn lemma_nearest_rivers_first(rivers: Seq<River>, mines: Seq<usize>, m: nat, i: int, j: int)
    requires
        0 <= i < j < river_order(rivers, mines).len(),
        touches(river_order(rivers, mines)[j], near(rivers, mines, m)),
    ensures
        touches(river_order(rivers, mines)[i], near(rivers, mines, m)),
{
    let k = choose|k: nat| finished_at(rivers, mines, k);
    let _ = lemma_rounds_layers(rivers, mines, k);
    let s = rounds(rivers, mines, k).2;
    assert(touches(s[j], near(rivers, mines, m)));
    assert(s[i] == river_order(rivers, mines)[i]);
}

} // verus!
