//! Enumeration of plans: strictly increasing sequences of river ids that a
//! punter might claim over the next few moves.
use vstd::prelude::*;

verus! {

/// Past this many candidate plans the enumeration gives up and returns none.
pub const MAX_ALLOWED_SIZE: usize = 100 * 1024;

/// The plans of `shorter` that can be extended at the front by `r`
/// (their first river id is greater than `r`), each with `r` put in front.
pub open spec fn extend_with(r: usize, shorter: Seq<Seq<usize>>) -> Seq<Seq<usize>>
    decreases shorter.len(),
{
    if shorter.len() == 0 {
        Seq::empty()
    } else {
        let rest = extend_with(r, shorter.drop_last());
        let p = shorter.last();
        if p.len() > 0 && p[0] > r {
            rest.push(seq![r] + p)
        } else {
            rest
        }
    }
}

/// For each river of `rivers` in turn, the plans of `shorter` that it extends.
pub open spec fn extend_all(rivers: Seq<usize>, shorter: Seq<Seq<usize>>) -> Seq<Seq<usize>>
    decreases rivers.len(),
{
    if rivers.len() == 0 {
        Seq::empty()
    } else {
        extend_all(rivers.drop_last(), shorter) + extend_with(rivers.last(), shorter)
    }
}

/// The plans of length `len` over `rivers`: for length one, each river
/// alone; for a longer length, the plans one shorter, each extended at the
/// front by every river with a smaller id, unless there are more than
/// `MAX_ALLOWED_SIZE` combinations to try, in which case there are none.
pub open spec fn spec_plans(rivers: Seq<usize>, len: nat) -> Seq<Seq<usize>>
    decreases len,
{
    if len <= 1 {
        rivers.map_values(|r: usize| seq![r])
    } else {
        let shorter = spec_plans(rivers, (len - 1) as nat);
        if shorter.len() * rivers.len() > MAX_ALLOWED_SIZE {
            Seq::empty()
        } else {
            extend_all(rivers, shorter)
        }
    }
}

/// Every plan in `plans` has length `len`, is strictly increasing, and uses
/// only rivers of `rivers`.
pub open spec fn plans_well_formed(rivers: Seq<usize>, plans: Seq<Seq<usize>>, len: nat) -> bool {
    forall|i: int|
        #![trigger plans[i]]
        0 <= i < plans.len() ==> {
            &&& plans[i].len() == len
            &&& forall|a: int, b: int| 0 <= a < b < len ==> plans[i][a] < plans[i][b]
            &&& forall|a: int| 0 <= a < len ==> rivers.contains(#[trigger] plans[i][a])
        }
}

proof fn lemma_extend_with_wf(rivers: Seq<usize>, r: usize, shorter: Seq<Seq<usize>>, len: nat)
    requires
        len >= 1,
        rivers.contains(r),
        plans_well_formed(rivers, shorter, len),
    ensures
        plans_well_formed(rivers, extend_with(r, shorter), len + 1),
    decreases shorter.len(),
{
    if shorter.len() > 0 {
        lemma_extend_with_wf(rivers, r, shorter.drop_last(), len);
        let p = shorter.last();
        assert(shorter[shorter.len() - 1] == p);
        if p.len() > 0 && p[0] > r {
            let q = seq![r] + p;
            assert forall|a: int, b: int| 0 <= a < b < len + 1 implies q[a] < q[b] by {
                if a == 0 {
                    if b > 1 {
                        assert(p[0] < p[b - 1]);
                    }
                } else {
                    assert(q[a] == p[a - 1] && q[b] == p[b - 1]);
                }
            }
            assert forall|a: int| 0 <= a < len + 1 implies rivers.contains(#[trigger] q[a]) by {
                if a > 0 {
                    assert(q[a] == p[a - 1]);
                }
            }
        }
    }
}

proof fn lemma_extend_all_wf(rivers: Seq<usize>, prefix: Seq<usize>, shorter: Seq<Seq<usize>>, len: nat)
    requires
        len >= 1,
        forall|i: int| 0 <= i < prefix.len() ==> rivers.contains(#[trigger] prefix[i]),
        plans_well_formed(rivers, shorter, len),
    ensures
        plans_well_formed(rivers, extend_all(prefix, shorter), len + 1),
    decreases prefix.len(),
{
    if prefix.len() > 0 {
        lemma_extend_all_wf(rivers, prefix.drop_last(), shorter, len);
        assert(prefix[prefix.len() - 1] == prefix.last());
        lemma_extend_with_wf(rivers, prefix.last(), shorter, len);
        let x = extend_all(prefix.drop_last(), shorter);
        let y = extend_with(prefix.last(), shorter);
        assert forall|i: int| 0 <= i < x.len() + y.len() implies #[trigger] (x + y)[i] == if i
            < x.len() {
            x[i]
        } else {
            y[i - x.len()]
        } by {}
    }
}

/// Every plan of length `len` is `len` rivers long, strictly increasing,
/// and made of the given rivers.
pub proof fn lemma_plans_well_formed(rivers: Seq<usize>, len: nat)
    requires
        len >= 1,
    ensures
        plans_well_formed(rivers, spec_plans(rivers, len), len),
    decreases len,
{
    if len == 1 {
        assert forall|i: int| 0 <= i < rivers.len() implies rivers.contains(rivers[i]) by {}
    } else {
        lemma_plans_well_formed(rivers, (len - 1) as nat);
        let shorter = spec_plans(rivers, (len - 1) as nat);
        if shorter.len() * rivers.len() <= MAX_ALLOWED_SIZE {
            assert forall|i: int| 0 <= i < rivers.len() implies rivers.contains(#[trigger] rivers[i]) by {}
            lemma_extend_all_wf(rivers, rivers, shorter, (len - 1) as nat);
        }
    }
}

/// All strictly increasing plans of `len` rivers drawn from `rivers`, in the
/// order given by `spec_plans`.
pub fn plans_of_length(rivers: &[usize], len: usize) -> (output: Vec<Vec<usize>>)
    requires
        len >= 1,
    ensures
        output@.len() == spec_plans(rivers@, len as nat).len(),
        forall|i: int| 0 <= i < output@.len() ==> #[trigger] output@[i]@ == spec_plans(rivers@, len as nat)[i],
    decreases len,
{
    if len == 1 {
        let mut output: Vec<Vec<usize>> = Vec::new();
        for i in 0..rivers.len()
            invariant
                output@.len() == i,
                forall|k: int| 0 <= k < i ==> #[trigger] output@[k]@ == seq![rivers@[k]],
        {
            let mut v: Vec<usize> = Vec::new();
            v.push(rivers[i]);
            output.push(v);
        }
        return output;
    }
    let shorter_plans = plans_of_length(rivers, len - 1);
    let ghost shorter = spec_plans(rivers@, (len - 1) as nat);
    let too_many = rivers.len() > 0 && shorter_plans.len() > MAX_ALLOWED_SIZE / rivers.len();
    proof {
        if rivers.len() > 0 {
            let a = shorter_plans.len() as int;
            let b = rivers.len() as int;
            let m = MAX_ALLOWED_SIZE as int;
            assert(a > m / b <==> a * b > m) by (nonlinear_arith)
                requires b > 0, a >= 0, m >= 0;
        }
    }
    if too_many {
        return Vec::new();
    }
    let mut output: Vec<Vec<usize>> = Vec::new();
    for i in 0..rivers.len()
        invariant
            shorter_plans@.len() == shorter.len(),
            forall|k: int| 0 <= k < shorter.len() ==> #[trigger] shorter_plans@[k]@ == shorter[k],
            output@.len() == extend_all(rivers@.take(i as int), shorter).len(),
            forall|k: int| 0 <= k < output@.len() ==> #[trigger] output@[k]@ == extend_all(rivers@.take(i as int), shorter)[k],
    {
        let r = rivers[i];
        let ghost before = extend_all(rivers@.take(i as int), shorter);
        for j in 0..shorter_plans.len()
            invariant
                r == rivers@[i as int],
                shorter_plans@.len() == shorter.len(),
                forall|k: int| 0 <= k < shorter.len() ==> #[trigger] shorter_plans@[k]@ == shorter[k],
                output@.len() == before.len() + extend_with(r, shorter.take(j as int)).len(),
                forall|k: int| 0 <= k < output@.len() ==> #[trigger] output@[k]@ == (before + extend_with(r, shorter.take(j as int)))[k],
        {
            let plan = &shorter_plans[j];
            assert(shorter.take(j + 1).drop_last() == shorter.take(j as int));
            assert(shorter.take(j + 1).last() == shorter[j as int]);
            if plan.len() > 0 && plan[0] > r {
                let mut v: Vec<usize> = Vec::new();
                v.push(r);
                let mut t: usize = 0;
                while t < plan.len()
                    invariant
                        0 <= t <= plan@.len(),
                        v@ == seq![r] + plan@.take(t as int),
                    decreases plan@.len() - t,
                {
                    v.push(plan[t]);
                    assert(plan@.take(t + 1) == plan@.take(t as int).push(plan@[t as int]));
                    t = t + 1;
                }
                assert(plan@.take(plan@.len() as int) == plan@);
                output.push(v);
            }
        }
        assert(shorter.take(shorter.len() as int) == shorter);
        assert(rivers@.take(i + 1).drop_last() == rivers@.take(i as int));
        assert(rivers@.take(i + 1).last() == r);
    }
    assert(rivers@.take(rivers@.len() as int) == rivers@);
    output
}

/// `b` to the power `e`: how many sequences of `e` rivers can be drawn,
/// with repeats, from `b` rivers.
pub open spec fn power(b: nat, e: nat) -> nat
    decreases e,
{
    if e == 0 {
        1
    } else {
        b * power(b, (e - 1) as nat)
    }
}

proof fn lemma_power_mono(b: nat, e1: nat, e2: nat)
    requires
        b >= 1,
        e1 <= e2,
    ensures
        power(b, e1) <= power(b, e2),
    decreases e2,
{
    if e1 < e2 {
        lemma_power_mono(b, e1, (e2 - 1) as nat);
        let x = power(b, (e2 - 1) as nat);
        assert(x <= b * x) by (nonlinear_arith)
            requires b >= 1;
    }
}

proof fn lemma_extend_with_len(r: usize, shorter: Seq<Seq<usize>>)
    ensures
        extend_with(r, shorter).len() <= shorter.len(),
    decreases shorter.len(),
{
    if shorter.len() > 0 {
        lemma_extend_with_len(r, shorter.drop_last());
    }
}

proof fn lemma_extend_all_len(prefix: Seq<usize>, shorter: Seq<Seq<usize>>)
    ensures
        extend_all(prefix, shorter).len() <= prefix.len() * shorter.len(),
    decreases prefix.len(),
{
    if prefix.len() > 0 {
        lemma_extend_all_len(prefix.drop_last(), shorter);
        lemma_extend_with_len(prefix.last(), shorter);
        let k = prefix.len();
        let s = shorter.len();
        assert((k - 1) * s + s == k * s) by (nonlinear_arith);
    }
}

proof fn lemma_plans_len(rivers: Seq<usize>, len: nat)
    requires
        len >= 1,
    ensures
        spec_plans(rivers, len).len() <= power(rivers.len(), len),
    decreases len,
{
    if len == 1 {
        assert(power(rivers.len(), 0) == 1);
    } else {
        lemma_plans_len(rivers, (len - 1) as nat);
        let shorter = spec_plans(rivers, (len - 1) as nat);
        if shorter.len() * rivers.len() <= MAX_ALLOWED_SIZE {
            lemma_extend_all_len(rivers, shorter);
            let x = shorter.len();
            let y = power(rivers.len(), (len - 1) as nat);
            let b = rivers.len();
            assert(b * x <= b * y) by (nonlinear_arith)
                requires x <= y;
        }
    }
}

proof fn lemma_extend_with_contains(r: usize, shorter: Seq<Seq<usize>>, j: int)
    requires
        0 <= j < shorter.len(),
        shorter[j].len() > 0,
        shorter[j][0] > r,
    ensures
        extend_with(r, shorter).contains(seq![r] + shorter[j]),
    decreases shorter.len(),
{
    let rest = extend_with(r, shorter.drop_last());
    if j < shorter.len() - 1 {
        assert(shorter.drop_last()[j] == shorter[j]);
        lemma_extend_with_contains(r, shorter.drop_last(), j);
        let k = choose|k: int| 0 <= k < rest.len() && rest[k] == seq![r] + shorter[j];
        if shorter.last().len() > 0 && shorter.last()[0] > r {
            assert(rest.push(seq![r] + shorter.last())[k] == rest[k]);
        }
    } else {
        assert(shorter.last() == shorter[j]);
        assert(rest.push(seq![r] + shorter[j])[rest.len() as int] == seq![r] + shorter[j]);
    }
}

proof fn lemma_extend_all_contains(prefix: Seq<usize>, shorter: Seq<Seq<usize>>, i: int, x: Seq<usize>)
    requires
        0 <= i < prefix.len(),
        extend_with(prefix[i], shorter).contains(x),
    ensures
        extend_all(prefix, shorter).contains(x),
    decreases prefix.len(),
{
    let a = extend_all(prefix.drop_last(), shorter);
    let b = extend_with(prefix.last(), shorter);
    assert(extend_all(prefix, shorter) == a + b);
    if i < prefix.len() - 1 {
        assert(prefix.drop_last()[i] == prefix[i]);
        lemma_extend_all_contains(prefix.drop_last(), shorter, i, x);
        let k = choose|k: int| 0 <= k < a.len() && a[k] == x;
        assert((a + b)[k] == x);
    } else {
        assert(prefix.last() == prefix[i]);
        let k = choose|k: int| 0 <= k < b.len() && b[k] == x;
        assert((a + b)[a.len() + k] == x);
    }
}

/// Every plan is there: when there are few enough rivers that the
/// enumeration cannot hit its size limit (`power(rivers.len(), len)`
/// bounds every count it checks), each strictly increasing sequence of
/// `len` rivers drawn from `rivers` is one of the plans of length `len`.
pub proof fn lemma_plans_complete(rivers: Seq<usize>, len: nat, q: Seq<usize>)
    requires
        len >= 1,
        power(rivers.len(), len) <= MAX_ALLOWED_SIZE,
        q.len() == len,
        forall|a: int, b: int| 0 <= a < b < len ==> q[a] < q[b],
        forall|a: int| 0 <= a < len ==> rivers.contains(#[trigger] q[a]),
    ensures
        spec_plans(rivers, len).contains(q),
    decreases len,
{
    assert(rivers.contains(q[0]));
    let i = choose|i: int| 0 <= i < rivers.len() && rivers[i] == q[0];
    if len == 1 {
        let plans = spec_plans(rivers, 1);
        assert(plans[i] == seq![rivers[i]]);
        assert(q =~= seq![q[0]]);
    } else {
        let b = rivers.len();
        let tail = q.drop_first();
        lemma_power_mono(b, (len - 1) as nat, len);
        assert forall|x: int, y: int| 0 <= x < y < len - 1 implies tail[x] < tail[y] by {
            assert(tail[x] == q[x + 1] && tail[y] == q[y + 1]);
        }
        assert forall|x: int| 0 <= x < len - 1 implies rivers.contains(#[trigger] tail[x]) by {
            assert(tail[x] == q[x + 1]);
        }
        lemma_plans_complete(rivers, (len - 1) as nat, tail);
        let shorter = spec_plans(rivers, (len - 1) as nat);
        let j = choose|j: int| 0 <= j < shorter.len() && shorter[j] == tail;
        lemma_plans_len(rivers, (len - 1) as nat);
        let x = shorter.len();
        let y = power(b, (len - 1) as nat);
        assert(x * b <= b * y) by (nonlinear_arith)
            requires x <= y;
        assert(tail[0] == q[1]);
        lemma_extend_with_contains(q[0], shorter, j);
        assert(seq![q[0]] + tail =~= q);
        lemma_extend_all_contains(rivers, shorter, i, q);
    }
}

/// No two entries of `s` are equal.
pub open spec fn no_repeats<A>(s: Seq<A>) -> bool {
    forall|i: int, j: int| 0 <= i < j < s.len() ==> s[i] != s[j]
}

proof fn lemma_extend_with_shape(r: usize, shorter: Seq<Seq<usize>>)
    ensures
        forall|k: int| 0 <= k < extend_with(r, shorter).len() ==> exists|j: int|
            0 <= j < shorter.len() && #[trigger] extend_with(r, shorter)[k] == seq![r] + shorter[j],
        no_repeats(shorter) ==> no_repeats(extend_with(r, shorter)),
    decreases shorter.len(),
{
    if shorter.len() > 0 {
        let q = shorter.drop_last();
        let rest = extend_with(r, q);
        lemma_extend_with_shape(r, q);
        let e = extend_with(r, shorter);
        let last = shorter.last();
        assert forall|k: int| 0 <= k < e.len() implies exists|j: int| 0 <= j < shorter.len() && #[trigger] e[k] == seq![r] + shorter[j] by {
            if k < rest.len() {
                assert(e[k] == rest[k]);
                let j = choose|j: int| 0 <= j < q.len() && #[trigger] rest[k] == seq![r] + q[j];
                assert(shorter[j] == q[j]);
            } else {
                assert(e[k] == seq![r] + last);
                assert(shorter[shorter.len() - 1] == last);
            }
        }
        if no_repeats(shorter) {
            assert(no_repeats(q)) by {
                assert forall|a: int, b: int| 0 <= a < b < q.len() implies q[a] != q[b] by {
                    assert(q[a] == shorter[a] && q[b] == shorter[b]);
                }
            }
            if last.len() > 0 && last[0] > r {
                assert forall|a: int, b: int| 0 <= a < b < e.len() implies e[a] != e[b] by {
                    if b == rest.len() {
                        assert(e[a] == rest[a]);
                        let j = choose|j: int| 0 <= j < q.len() && #[trigger] rest[a] == seq![r] + q[j];
                        assert(q[j] == shorter[j]);
                        assert(shorter[j] != shorter[shorter.len() - 1]);
                        if e[a] == e[b] {
                            assert((seq![r] + q[j]).drop_first() =~= q[j]);
                            assert((seq![r] + last).drop_first() =~= last);
                        }
                    } else {
                        assert(e[a] == rest[a] && e[b] == rest[b]);
                    }
                }
            }
        }
    }
}

proof fn lemma_extend_all_shape(prefix: Seq<usize>, shorter: Seq<Seq<usize>>)
    ensures
        forall|k: int| 0 <= k < extend_all(prefix, shorter).len() ==> exists|i: int|
            0 <= i < prefix.len() && (#[trigger] extend_all(prefix, shorter)[k]).len() > 0 && extend_all(prefix, shorter)[k][0] == prefix[i],
        no_repeats(prefix) && no_repeats(shorter) ==> no_repeats(extend_all(prefix, shorter)),
    decreases prefix.len(),
{
    if prefix.len() > 0 {
        let pp = prefix.drop_last();
        let r = prefix.last();
        let a = extend_all(pp, shorter);
        let b = extend_with(r, shorter);
        let e = extend_all(prefix, shorter);
        assert(e == a + b);
        lemma_extend_all_shape(pp, shorter);
        lemma_extend_with_shape(r, shorter);
        assert forall|k: int| 0 <= k < e.len() implies exists|i: int|
            0 <= i < prefix.len() && (#[trigger] e[k]).len() > 0 && e[k][0] == prefix[i] by {
            if k < a.len() {
                assert(e[k] == a[k]);
                let i = choose|i: int| 0 <= i < pp.len() && (#[trigger] a[k]).len() > 0 && a[k][0] == pp[i];
                assert(prefix[i] == pp[i]);
            } else {
                assert(e[k] == b[k - a.len()]);
                let j = choose|j: int| 0 <= j < shorter.len() && #[trigger] b[k - a.len()] == seq![r] + shorter[j];
                assert(e[k][0] == r);
                assert(prefix[prefix.len() - 1] == r);
            }
        }
        if no_repeats(prefix) && no_repeats(shorter) {
            assert(no_repeats(pp)) by {
                assert forall|x: int, y: int| 0 <= x < y < pp.len() implies pp[x] != pp[y] by {
                    assert(pp[x] == prefix[x] && pp[y] == prefix[y]);
                }
            }
            assert forall|x: int, y: int| 0 <= x < y < e.len() implies e[x] != e[y] by {
                if y < a.len() {
                    assert(e[x] == a[x] && e[y] == a[y]);
                } else if x >= a.len() {
                    assert(e[x] == b[x - a.len()] && e[y] == b[y - a.len()]);
                } else {
                    assert(e[x] == a[x] && e[y] == b[y - a.len()]);
                    let i = choose|i: int| 0 <= i < pp.len() && (#[trigger] a[x]).len() > 0 && a[x][0] == pp[i];
                    let j = choose|j: int| 0 <= j < shorter.len() && #[trigger] b[y - a.len()] == seq![r] + shorter[j];
                    assert(pp[i] == prefix[i]);
                    assert(prefix[i] != prefix[prefix.len() - 1]);
                    assert(b[y - a.len()][0] == r);
                }
            }
        }
    }
}

/// No plan comes twice: when the given rivers are all different, so are the
/// plans of any length.
pub proof fn lemma_plans_no_repeats(rivers: Seq<usize>, len: nat)
    requires
        len >= 1,
        no_repeats(rivers),
    ensures
        no_repeats(spec_plans(rivers, len)),
    decreases len,
{
    if len == 1 {
        let plans = spec_plans(rivers, 1);
        assert forall|x: int, y: int| 0 <= x < y < plans.len() implies plans[x] != plans[y] by {
            assert(plans[x] == seq![rivers[x]] && plans[y] == seq![rivers[y]]);
            assert(plans[x][0] == rivers[x] && plans[y][0] == rivers[y]);
        }
    } else {
        lemma_plans_no_repeats(rivers, (len - 1) as nat);
        let shorter = spec_plans(rivers, (len - 1) as nat);
        if shorter.len() * rivers.len() <= MAX_ALLOWED_SIZE {
            lemma_extend_all_shape(rivers, shorter);
        }
    }
}

} // verus!
