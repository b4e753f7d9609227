//! Measures of a position: which rivers are free, which sites and mines a
//! punter touches, and choices among free rivers.
use vstd::prelude::*;
use crate::board::{State, graph_closed, unclaimed_ids, entries_of};
use crate::search::{EdgeMode, edge_ok};
use crate::random::{shuffle_ids, random_usize, index_of_draw};

verus! {

broadcast use vstd::std_specs::hash::group_hash_axioms;

/// The neighbours of `s` joined to it by a river that `mode` accepts.
pub open spec fn touching(g: Map<usize, Map<usize, usize>>, cl: Seq<Option<usize>>, mode: EdgeMode, s: usize) -> Set<usize> {
    g[s].dom().filter(|t: usize| edge_ok(mode, cl[g[s][t] as int]))
}

/// The rivers at `s` that `mode` accepts, counted once per neighbour.
pub fn count_rivers(st: &State, s: usize, mode: EdgeMode) -> (n: usize)
    requires
        st.well_formed(),
        st.graph().contains_key(s),
    ensures
        touching(st.graph(), st.claims(), mode, s).finite(),
        n == touching(st.graph(), st.claims(), mode, s).len(),
{
    let ghost g = st.graph();
    let ghost cl = st.claims();
    let table = st.rivermap.get(&s).unwrap();
    assert(table@ == g[s]);
    let es = entries_of(table);
    let mut n: usize = 0;
    let ghost mut seen: Set<usize> = Set::empty();
    for j in 0..es.len()
        invariant
            g == st.graph(),
            cl == st.claims(),
            st.well_formed(),
            g.contains_key(s),
            table@ == g[s],
            es@.len() == table@.dom().len(),
            forall|x: int| 0 <= x < es@.len() ==> #[trigger] table@.contains_key(es@[x].0) && table@[es@[x].0] == es@[x].1,
            forall|x: int, y: int| 0 <= x < y < es@.len() ==> es@[x].0 != es@[y].0,
            forall|k: usize| #[trigger] table@.contains_key(k) ==> exists|x: int| 0 <= x < es@.len() && es@[x].0 == k,
            seen.finite(),
            n == seen.len(),
            forall|t: usize| #[trigger] seen.contains(t) <==> exists|x: int| 0 <= x < j && es@[x].0 == t && edge_ok(mode, cl[g[s][t] as int]),
            n <= j,
    {
        let (t, rid) = es[j];
        assert(es@[j as int] == (t, rid));
        assert(table@.contains_key(es@[j as int].0));
        assert(graph_closed(g, st.riverdata@.len()));
        assert(g[s].contains_key(t));
        let claimed = st.riverdata[rid].claimed;
        let ok = match mode {
            EdgeMode::All => true,
            EdgeMode::OwnedBy(p) => claimed == Some(p),
            EdgeMode::Unclaimed => claimed.is_none(),
        };
        assert(cl[rid as int] == claimed);
        assert(ok == edge_ok(mode, cl[g[s][t] as int]));
        if ok {
            proof {
                assert(!seen.contains(t)) by {
                    if seen.contains(t) {
                        let x = choose|x: int| 0 <= x < j && es@[x].0 == t && edge_ok(mode, cl[g[s][t] as int]);
                        assert(es@[x].0 != es@[j as int].0);
                    }
                }
                seen = seen.insert(t);
            }
            n = n + 1;
        }
        assert forall|u: usize| #[trigger] seen.contains(u) <==> exists|x: int| 0 <= x < j + 1 && es@[x].0 == u && edge_ok(mode, cl[g[s][u] as int]) by {
            if u == t && ok {
                assert(es@[j as int].0 == u);
            }
        }
    }
    proof {
        let tset = touching(g, cl, mode, s);
        assert forall|u: usize| seen.contains(u) <==> tset.contains(u) by {
            if tset.contains(u) {
                assert(table@.contains_key(u));
            }
        }
        assert(seen =~= tset);
    }
    n
}

/// Do we have a river to `s`?
pub fn we_touch(st: &State, s: usize) -> (b: bool)
    requires
        st.well_formed(),
        st.graph().contains_key(s),
    ensures
        b == !touching(st.graph(), st.claims(), EdgeMode::OwnedBy(st.punter), s).is_empty(),
{
    let n = count_rivers(st, s, EdgeMode::OwnedBy(st.punter));
    proof {
        let t = touching(st.graph(), st.claims(), EdgeMode::OwnedBy(st.punter), s);
        if t.is_empty() {
            assert(t =~= Set::<usize>::empty());
        } else {
            let x = t.choose();
            vstd::set_lib::lemma_len_subset(set![x], t);
        }
    }
    n > 0
}

/// How many of our rivers reach `s`?
pub fn num_touch(st: &State, s: usize) -> (n: usize)
    requires
        st.well_formed(),
        st.graph().contains_key(s),
    ensures
        n == touching(st.graph(), st.claims(), EdgeMode::OwnedBy(st.punter), s).len(),
{
    count_rivers(st, s, EdgeMode::OwnedBy(st.punter))
}

/// The rivers that nobody has claimed, in random order.
pub fn rivers_available(st: &State) -> (v: Vec<usize>)
    ensures
        v@.to_multiset() == unclaimed_ids(st.riverdata@).to_multiset(),
{
    let mut v = st.unclaimed_rivers();
    shuffle_ids(&mut v);
    v
}

/// The unclaimed river that a drawn `usize` `r` picks: the one at `r`
/// modulo their number, in recorded order; `None` when every river is
/// taken.
pub fn unclaimed_at_draw(st: &State, r: usize) -> (x: Option<usize>)
    ensures
        unclaimed_ids(st.riverdata@).len() == 0 ==> x is None,
        unclaimed_ids(st.riverdata@).len() > 0 ==> x == Some(
            unclaimed_ids(st.riverdata@)[(r % unclaimed_ids(st.riverdata@).len() as usize) as int],
        ),
{
    let available = st.unclaimed_rivers();
    if available.len() > 0 {
        let choice = index_of_draw(r, available.len());
        Some(available[choice])
    } else {
        None
    }
}

/// A river that nobody has claimed, picked at random (see
/// `unclaimed_at_draw`); `None` when every river is taken.
pub fn random_unclaimed_river(st: &State) -> (r: Option<usize>)
    ensures
        r is None <==> unclaimed_ids(st.riverdata@).len() == 0,
        r matches Some(x) ==> unclaimed_ids(st.riverdata@).contains(x),
{
    let draw = random_usize();
    let r = unclaimed_at_draw(st, draw);
    proof {
        let u = unclaimed_ids(st.riverdata@);
        crate::board::lemma_unclaimed_len(st.riverdata@);
        assert(st.riverdata@.len() == st.riverdata.len());
        if u.len() > 0 {
            let i = (draw % u.len() as usize) as int;
            assert(u.contains(u[i]));
        }
    }
    r
}

/// The mines of `mines` that `punter` has no river to yet, in order.
pub open spec fn untouched_mines(g: Map<usize, Map<usize, usize>>, cl: Seq<Option<usize>>, punter: usize, mines: Seq<usize>) -> Seq<usize>
    decreases mines.len(),
{
    if mines.len() == 0 {
        Seq::empty()
    } else {
        let rest = untouched_mines(g, cl, punter, mines.drop_last());
        if touching(g, cl, EdgeMode::OwnedBy(punter), mines.last()).is_empty() {
            rest.push(mines.last())
        } else {
            rest
        }
    }
}

/// Every mine of the board is an indexed site.
pub open spec fn mines_on_board(st: &State) -> bool {
    forall|i: int| 0 <= i < st.map.mines@.len() ==> st.graph().contains_key(#[trigger] st.map.mines@[i])
}

/// Whether every mine of the board is an indexed site.
pub fn all_mines_on_board(st: &State) -> (b: bool)
    ensures
        b == mines_on_board(st),
{
    for i in 0..st.map.mines.len()
        invariant
            forall|j: int| 0 <= j < i ==> st.graph().contains_key(#[trigger] st.map.mines@[j]),
    {
        if !st.rivermap.contains_key(&st.map.mines[i]) {
            return false;
        }
    }
    true
}

/// The mines that we have no river to yet, in random order.
pub fn unreached_mines(st: &State) -> (v: Vec<usize>)
    requires
        st.well_formed(),
        mines_on_board(st),
    ensures
        v@.to_multiset() == untouched_mines(st.graph(), st.claims(), st.punter, st.map.mines@).to_multiset(),
{
    let ghost mines = st.map.mines@;
    let mut v: Vec<usize> = Vec::new();
    for i in 0..st.map.mines.len()
        invariant
            mines == st.map.mines@,
            st.well_formed(),
            mines_on_board(st),
            v@ == untouched_mines(st.graph(), st.claims(), st.punter, mines.take(i as int)),
    {
        assert(mines.take(i + 1).drop_last() == mines.take(i as int));
        assert(mines.take(i + 1).last() == mines[i as int]);
        let m = st.map.mines[i];
        if !we_touch(st, m) {
            v.push(m);
        }
    }
    assert(mines.take(mines.len() as int) == mines);
    shuffle_ids(&mut v);
    v
}

/// `r` is the river from one of `mines` to a neighbour, and nobody has
/// claimed it.
pub open spec fn free_mine_river(g: Map<usize, Map<usize, usize>>, cl: Seq<Option<usize>>, mines: Seq<usize>, r: usize) -> bool {
    exists|a: int, t: usize|
        0 <= a < mines.len() && touching(g, cl, EdgeMode::Unclaimed, mines[a]).contains(t) && r == #[trigger] g[mines[a]][t]
}

/// How many free rivers the mines `mines` have, counted per mine and
/// neighbour.
pub open spec fn free_count(g: Map<usize, Map<usize, usize>>, cl: Seq<Option<usize>>, mines: Seq<usize>) -> nat
    decreases mines.len(),
{
    if mines.len() == 0 {
        0
    } else {
        free_count(g, cl, mines.drop_last()) + touching(g, cl, EdgeMode::Unclaimed, mines.last()).len()
    }
}

/// The unclaimed neighbours of mine `m` that river `r` joins it to.
pub open spec fn free_at(g: Map<usize, Map<usize, usize>>, cl: Seq<Option<usize>>, m: usize, r: usize) -> Set<usize> {
    touching(g, cl, EdgeMode::Unclaimed, m).filter(|t: usize| g[m][t] == r)
}

/// How often river `r` is among the free rivers of the mines `mines`:
/// once per mine and unclaimed neighbour it joins that mine to.
pub open spec fn free_times(g: Map<usize, Map<usize, usize>>, cl: Seq<Option<usize>>, mines: Seq<usize>, r: usize) -> nat
    decreases mines.len(),
{
    if mines.len() == 0 {
        0
    } else {
        free_times(g, cl, mines.drop_last(), r) + free_at(g, cl, mines.last(), r).len()
    }
}

/// The free rivers at the mines `mines`: for each mine in turn, the
/// river to each neighbour that nobody has claimed. Each such river is
/// listed, once per mine and neighbour, and nothing else: a river between
/// two mines is listed twice.
pub fn mine_rivers(st: &State, mines: &Vec<usize>) -> (v: Vec<usize>)
    requires
        st.well_formed(),
        forall|i: int| 0 <= i < mines@.len() ==> st.graph().contains_key(#[trigger] mines@[i]),
    ensures
        forall|x: int| 0 <= x < v@.len() ==> free_mine_river(st.graph(), st.claims(), mines@, #[trigger] v@[x]),
        forall|i: int, t: usize|
            0 <= i < mines@.len() && touching(st.graph(), st.claims(), EdgeMode::Unclaimed, mines@[i]).contains(t)
                ==> v@.contains(#[trigger] st.graph()[mines@[i]][t]),
        v@.len() == free_count(st.graph(), st.claims(), mines@),
        forall|r: usize| #[trigger] v@.to_multiset().count(r) == free_times(st.graph(), st.claims(), mines@, r),
{
    broadcast use vstd::seq_lib::group_to_multiset_ensures;
    let ghost g = st.graph();
    let ghost cl = st.claims();
    let mut v: Vec<usize> = Vec::new();
    for i in 0..mines.len()
        invariant
            g == st.graph(),
            cl == st.claims(),
            st.well_formed(),
            forall|a: int| 0 <= a < mines@.len() ==> g.contains_key(#[trigger] mines@[a]),
            forall|x: int| 0 <= x < v@.len() ==> free_mine_river(g, cl, mines@, #[trigger] v@[x]),
            forall|a: int, t: usize|
                0 <= a < i && touching(g, cl, EdgeMode::Unclaimed, mines@[a]).contains(t)
                    ==> v@.contains(#[trigger] g[mines@[a]][t]),
            v@.len() == free_count(g, cl, mines@.take(i as int)),
            forall|r: usize| #[trigger] v@.to_multiset().count(r) == free_times(g, cl, mines@.take(i as int), r),
    {
        let m = mines[i];
        let ghost base = v@.len();
        let ghost mut seen: Set<usize> = Set::empty();
        proof {
            assert(mines@.take(i + 1).drop_last() == mines@.take(i as int));
            assert(mines@.take(i + 1).last() == m);
            assert forall|r: usize| #[trigger] v@.to_multiset().count(r) == free_times(g, cl, mines@.take(i as int), r)
                + seen.filter(|u: usize| g[m][u] == r).len() by {
                assert(seen.filter(|u: usize| g[m][u] == r) =~= Set::<usize>::empty());
            }
        }
        let table = st.rivermap.get(&m).unwrap();
        assert(table@ == g[m]);
        let es = entries_of(table);
        assert forall|x: int| 0 <= x < es@.len() implies #[trigger] table@.contains_key(es@[x].0) && table@[es@[x].0] == es@[x].1 by {
            assert(table@.contains_key(es@[x].0));
        }
        for j in 0..es.len()
            invariant
                g == st.graph(),
                cl == st.claims(),
                st.well_formed(),
                0 <= i < mines@.len(),
                m == mines@[i as int],
                g.contains_key(m),
                table@ == g[m],
                forall|x: int| 0 <= x < es@.len() ==> #[trigger] table@.contains_key(es@[x].0) && table@[es@[x].0] == es@[x].1,
                forall|k: usize| #[trigger] table@.contains_key(k) ==> exists|x: int| 0 <= x < es@.len() && es@[x].0 == k,
                forall|x: int| 0 <= x < v@.len() ==> free_mine_river(g, cl, mines@, #[trigger] v@[x]),
                forall|a: int, t: usize|
                    0 <= a < i && touching(g, cl, EdgeMode::Unclaimed, mines@[a]).contains(t)
                        ==> v@.contains(#[trigger] g[mines@[a]][t]),
                forall|x: int| 0 <= x < j && #[trigger] touching(g, cl, EdgeMode::Unclaimed, m).contains(es@[x].0)
                    ==> v@.contains(g[m][es@[x].0]),
                forall|x: int, y: int| 0 <= x < y < es@.len() ==> es@[x].0 != es@[y].0,
                seen.finite(),
                v@.len() == base + seen.len(),
                forall|t: usize| #[trigger] seen.contains(t) <==> exists|x: int| 0 <= x < j && es@[x].0 == t && touching(g, cl, EdgeMode::Unclaimed, m).contains(t),
                forall|r: usize| #[trigger] v@.to_multiset().count(r) == free_times(g, cl, mines@.take(i as int), r)
                    + seen.filter(|u: usize| g[m][u] == r).len(),
        {
            let (t, rid) = es[j];
            assert(es@[j as int] == (t, rid));
            assert(table@.contains_key(es@[j as int].0));
            assert(graph_closed(g, st.riverdata@.len()));
            assert(g[m].contains_key(t));
            let ghost v0 = v@;
            if st.riverdata[rid].claimed.is_none() {
                assert(cl[rid as int] is None);
                assert(touching(g, cl, EdgeMode::Unclaimed, m).contains(t));
                assert(st.riverdata@[rid as int].id == rid);
                v.push(st.riverdata[rid].id);
                assert(v@[v@.len() - 1] == g[m][t]);
                assert(free_mine_river(g, cl, mines@, g[mines@[i as int]][t]));
                assert forall|x: int| 0 <= x < v@.len() implies free_mine_river(g, cl, mines@, #[trigger] v@[x]) by {
                    if x < v0.len() {
                        assert(v@[x] == v0[x]);
                    }
                }
                assert forall|c: usize| v0.contains(c) implies v@.contains(c) by {
                    let w = choose|w: int| 0 <= w < v0.len() && v0[w] == c;
                    assert(v@[w] == c);
                }
                assert(v@.contains(g[m][t]));
                proof {
                    assert(!seen.contains(t)) by {
                        if seen.contains(t) {
                            let x = choose|x: int| 0 <= x < j && es@[x].0 == t && touching(g, cl, EdgeMode::Unclaimed, m).contains(t);
                            assert(es@[x].0 != es@[j as int].0);
                        }
                    }
                    let seen0 = seen;
                    seen = seen.insert(t);
                    assert(v@ == v0.push(g[m][t]));
                    assert forall|r: usize| #[trigger] v@.to_multiset().count(r) == free_times(g, cl, mines@.take(i as int), r)
                        + seen.filter(|u: usize| g[m][u] == r).len() by {
                        assert(v0.to_multiset().count(r) == free_times(g, cl, mines@.take(i as int), r)
                            + seen0.filter(|u: usize| g[m][u] == r).len());
                        v0.to_multiset_ensures();
                        assert(v0.push(g[m][t]).to_multiset() =~= v0.to_multiset().insert(g[m][t]));
                        assert(seen0.filter(|u: usize| g[m][u] == r).finite());
                        if r == g[m][t] {
                            assert(seen.filter(|u: usize| g[m][u] == r) =~= seen0.filter(|u: usize| g[m][u] == r).insert(t));
                            assert(!seen0.filter(|u: usize| g[m][u] == r).contains(t));
                            assert(seen.filter(|u: usize| g[m][u] == r).len() == seen0.filter(|u: usize| g[m][u] == r).len() + 1);
                            assert(v@.to_multiset().count(r) == v0.to_multiset().count(r) + 1);
                        } else {
                            assert(seen.filter(|u: usize| g[m][u] == r) =~= seen0.filter(|u: usize| g[m][u] == r));
                            assert(v@.to_multiset().count(r) == v0.to_multiset().count(r));
                        }
                    }
                }
            } else {
                assert(!touching(g, cl, EdgeMode::Unclaimed, m).contains(t));
            }
            assert forall|u: usize| #[trigger] seen.contains(u) <==> exists|x: int| 0 <= x < j + 1 && es@[x].0 == u && touching(g, cl, EdgeMode::Unclaimed, m).contains(u) by {
                if u == t && touching(g, cl, EdgeMode::Unclaimed, m).contains(u) {
                    assert(es@[j as int].0 == u);
                }
            }
        }
        proof {
            let tset = touching(g, cl, EdgeMode::Unclaimed, m);
            assert forall|u: usize| seen.contains(u) <==> tset.contains(u) by {
                if tset.contains(u) {
                    assert(table@.contains_key(u));
                }
            }
            assert(seen =~= tset);
            assert forall|r: usize| #[trigger] v@.to_multiset().count(r) == free_times(g, cl, mines@.take(i + 1), r) by {
                assert(seen.filter(|u: usize| g[m][u] == r) == free_at(g, cl, m, r));
            }
        }
        assert forall|a: int, t: usize| 0 <= a < i + 1 && touching(g, cl, EdgeMode::Unclaimed, mines@[a]).contains(t)
            implies v@.contains(#[trigger] g[mines@[a]][t]) by {
            if a == i {
                assert(table@.contains_key(t));
                let x = choose|x: int| 0 <= x < es@.len() && es@[x].0 == t;
                assert(touching(g, cl, EdgeMode::Unclaimed, m).contains(es@[x].0));
            }
        }
    }
    assert(mines@.take(mines@.len() as int) == mines@);
    v
}

/// `punter` holds a river at site `m`: one of the rivers of `m` is claimed
/// by it.
pub open spec fn holds_river_at(g: Map<usize, Map<usize, usize>>, cl: Seq<Option<usize>>, punter: usize, m: usize) -> bool {
    exists|t: usize| #[trigger] g[m].contains_key(t) && cl[g[m][t] as int] == Some(punter)
}

/// A mine stays among the untouched mines exactly when `punter` holds no
/// river at it, as often as it is listed; rivers that others have claimed
/// at it do not matter.
pub proof fn lemma_untouched_mines_count(g: Map<usize, Map<usize, usize>>, cl: Seq<Option<usize>>, punter: usize, mines: Seq<usize>, m: usize)
    ensures
        untouched_mines(g, cl, punter, mines).to_multiset().count(m) == if holds_river_at(g, cl, punter, m) {
            0
        } else {
            mines.to_multiset().count(m)
        },
    decreases mines.len(),
{
    broadcast use vstd::seq_lib::group_to_multiset_ensures;
    if mines.len() > 0 {
        let p = mines.drop_last();
        let x = mines.last();
        lemma_untouched_mines_count(g, cl, punter, p, m);
        assert(p.push(x) == mines);
        let t = touching(g, cl, EdgeMode::OwnedBy(punter), x);
        assert(t.is_empty() <==> !holds_river_at(g, cl, punter, x)) by {
            if holds_river_at(g, cl, punter, x) {
                let u = choose|u: usize| #[trigger] g[x].contains_key(u) && cl[g[x][u] as int] == Some(punter);
                assert(t.contains(u));
            }
            if !t.is_empty() {
                let u = t.choose();
                assert(t.contains(u));
                assert(g[x].contains_key(u));
            }
        }
        let r = untouched_mines(g, cl, punter, p);
        if t.is_empty() {
            assert(untouched_mines(g, cl, punter, mines) == r.push(x));
        }
    }
}

} // verus!
