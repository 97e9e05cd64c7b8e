use vstd::prelude::*;
use crate::bril::{Instr, defined_names, dest_seq};
use crate::cfg::CfgView;
use crate::names::name_set;

verus! {

/// The names that enter block `b` from outside the function: the
/// function's arguments for block 0, nothing for the others.
pub open spec fn rd_entry(args: Option<Seq<Seq<char>>>, b: int) -> Set<Seq<char>> {
    if b == 0 {
        match args {
            Some(a) => a.to_set(),
            None => Set::empty(),
        }
    } else {
        Set::empty()
    }
}

/// A block's transfer: the names that reach its start, together with
/// those it assigns.
pub open spec fn defined_transfer(b: Seq<Instr>, s: Set<Seq<char>>) -> Set<Seq<char>> {
    s.union(defined_names(b))
}

/// The transfer is monotone, keeps every name it is given, and taking it
/// twice is taking it once.
pub proof fn lemma_defined_transfer_laws(b: Seq<Instr>, s1: Set<Seq<char>>, s2: Set<Seq<char>>)
    requires
        s1.subset_of(s2),
    ensures
        defined_transfer(b, s1).subset_of(defined_transfer(b, s2)),
        s1.subset_of(defined_transfer(b, s1)),
        defined_transfer(b, defined_transfer(b, s1)) == defined_transfer(b, s1),
{
    assert(defined_transfer(b, defined_transfer(b, s1)) =~= defined_transfer(b, s1));
}

/// The names in the sets of the listed blocks.
pub open spec fn preds_union(outs: Seq<Set<Seq<char>>>, ps: Seq<u32>) -> Set<Seq<char>> {
    Set::new(|x: Seq<char>| exists|k: int| 0 <= k < ps.len() && #[trigger] outs[ps[k] as int].contains(x))
}

/// Whether the analysis looks at block `b`: every block but the last does;
/// the last one does only once a predecessor's set holds a name.
pub open spec fn rd_active(c: CfgView, outs: Seq<Set<Seq<char>>>, n: int, b: int) -> bool {
    b < n - 1 || exists|k: int|
        0 <= k < c.preds_of(b as u32).len() && #[trigger] outs[c.preds_of(b as u32)[k] as int] != Set::<Seq<char>>::empty()
}

/// The equation of block `b`: the names that reach its end are those that
/// enter it (from outside, or from the end of a predecessor) and those it
/// assigns.
pub open spec fn rd_equation(c: CfgView, bs: Seq<Seq<Instr>>, args: Option<Seq<Seq<char>>>, outs: Seq<Set<Seq<char>>>, b: int) -> Set<Seq<char>> {
    rd_entry(args, b).union(preds_union(outs, c.preds_of(b as u32))).union(defined_names(bs[b]))
}

/// `outs` solves the reaching-definition equations: each block the
/// analysis looks at meets its equation, the others reach no name.
pub open spec fn rd_solution(c: CfgView, bs: Seq<Seq<Instr>>, args: Option<Seq<Seq<char>>>, outs: Seq<Set<Seq<char>>>) -> bool {
    &&& outs.len() == bs.len()
    &&& forall|b: int| 0 <= b < bs.len() ==> #[trigger] outs[b] == (if rd_active(c, outs, bs.len() as int, b) {
        rd_equation(c, bs, args, outs, b)
    } else {
        Set::<Seq<char>>::empty()
    })
}

/// `outs` is the least solution: it lies within every solution, block by block.
pub open spec fn rd_least(c: CfgView, bs: Seq<Seq<Instr>>, args: Option<Seq<Seq<char>>>, outs: Seq<Set<Seq<char>>>) -> bool {
    &&& rd_solution(c, bs, args, outs)
    &&& forall|s: Seq<Set<Seq<char>>>| #[trigger] rd_solution(c, bs, args, s) ==> forall|b: int|
        0 <= b < bs.len() ==> outs[b].subset_of(#[trigger] s[b])
}

/// The reaching definitions of the blocks: the names that may reach the end
/// of each block, as the least solution of the equations.
pub open spec fn reaching_sets(c: CfgView, bs: Seq<Seq<Instr>>, args: Option<Seq<Seq<char>>>) -> Seq<Set<Seq<char>>> {
    choose|o: Seq<Set<Seq<char>>>| rd_least(c, bs, args, o)
}

/// There is one least solution.
pub proof fn lemma_least_unique(c: CfgView, bs: Seq<Seq<Instr>>, args: Option<Seq<Seq<char>>>, o: Seq<Set<Seq<char>>>)
    requires
        rd_least(c, bs, args, o),
    ensures
        reaching_sets(c, bs, args) == o,
{
    let r = reaching_sets(c, bs, args);
    assert(rd_least(c, bs, args, r));
    assert(rd_solution(c, bs, args, o));
    assert(rd_solution(c, bs, args, r));
    assert forall|b: int| 0 <= b < o.len() implies r[b] == o[b] by {
        assert(r[b].subset_of(o[b]));
        assert(o[b].subset_of(r[b]));
        assert(r[b] =~= o[b]);
    }
    assert(r =~= o);
}

/// Every variable that the blocks assign, block by block.
pub open spec fn all_dests(bs: Seq<Seq<Instr>>) -> Seq<Seq<char>>
    decreases bs.len(),
{
    if bs.len() == 0 {
        Seq::empty()
    } else {
        all_dests(bs.drop_last()) + dest_seq(bs.last())
    }
}

/// The names the analysis can meet: the arguments and the assigned variables.
pub open spec fn name_universe(args: Option<Seq<Seq<char>>>, bs: Seq<Seq<Instr>>) -> Set<Seq<char>> {
    (match args {
        Some(a) => a,
        None => Seq::empty(),
    } + all_dests(bs)).to_set()
}

/// The names of the arguments and of all assignments form a finite set
/// that holds every block's assigned names and every entry set.
pub proof fn lemma_universe(args: Option<Seq<Seq<char>>>, bs: Seq<Seq<Instr>>)
    ensures
        name_universe(args, bs).finite(),
        forall|b: int| 0 <= b < bs.len() ==> #[trigger] defined_names(bs[b]).subset_of(name_universe(args, bs)),
        forall|b: int| #[trigger] rd_entry(args, b).subset_of(name_universe(args, bs)),
{
    let a = match args {
        Some(a) => a,
        None => Seq::empty(),
    };
    vstd::seq_lib::seq_to_set_is_finite(a + all_dests(bs));
    assert forall|b: int| 0 <= b < bs.len() implies #[trigger] defined_names(bs[b]).subset_of(name_universe(args, bs)) by {
        lemma_all_dests(bs, b);
        assert forall|x: Seq<char>| defined_names(bs[b]).contains(x) implies name_universe(args, bs).contains(x) by {
            let k = choose|k: int| 0 <= k < all_dests(bs).len() && all_dests(bs)[k] == x;
            assert((a + all_dests(bs))[a.len() + k] == x);
        }
    }
    assert forall|b: int| #[trigger] rd_entry(args, b).subset_of(name_universe(args, bs)) by {
        assert forall|x: Seq<char>| rd_entry(args, b).contains(x) implies name_universe(args, bs).contains(x) by {
            let k = choose|k: int| 0 <= k < a.len() && a[k] == x;
            assert((a + all_dests(bs))[k] == x);
        }
    }
}

proof fn lemma_all_dests(bs: Seq<Seq<Instr>>, b: int)
    requires
        0 <= b < bs.len(),
    ensures
        forall|x: Seq<char>| #[trigger] defined_names(bs[b]).contains(x) ==> all_dests(bs).contains(x),
    decreases bs.len(),
{
    let p = bs.drop_last();
    if b < bs.len() - 1 {
        lemma_all_dests(p, b);
        assert(p[b] == bs[b]);
        assert forall|x: Seq<char>| #[trigger] defined_names(bs[b]).contains(x) implies all_dests(bs).contains(x) by {
            let k = choose|k: int| 0 <= k < all_dests(p).len() && all_dests(p)[k] == x;
            assert(all_dests(bs)[k] == x);
        }
    } else {
        assert forall|x: Seq<char>| #[trigger] defined_names(bs[b]).contains(x) implies all_dests(bs).contains(x) by {
            let k = choose|k: int| 0 <= k < dest_seq(bs.last()).len() && dest_seq(bs.last())[k] == x;
            assert(all_dests(bs)[all_dests(p).len() + k] == x);
        }
    }
}

/// The sum of the sizes of the sets.
pub open spec fn total(o: Seq<Set<Seq<char>>>) -> int
    decreases o.len(),
{
    if o.len() == 0 {
        0
    } else {
        total(o.drop_last()) + o.last().len()
    }
}

/// Replacing one set changes the total size by the difference of sizes.
pub proof fn lemma_total_update(o: Seq<Set<Seq<char>>>, i: int, x: Set<Seq<char>>)
    requires
        0 <= i < o.len(),
    ensures
        total(o.update(i, x)) == total(o) - o[i].len() + x.len(),
    decreases o.len(),
{
    if i < o.len() - 1 {
        lemma_total_update(o.drop_last(), i, x);
        assert(o.update(i, x).drop_last() == o.drop_last().update(i, x));
    } else {
        assert(o.update(i, x).drop_last() == o.drop_last());
    }
}

/// Sets within a finite universe have a bounded total size.
pub proof fn lemma_total_bound(o: Seq<Set<Seq<char>>>, u: Set<Seq<char>>)
    requires
        u.finite(),
        forall|b: int| 0 <= b < o.len() ==> (#[trigger] o[b]).subset_of(u),
    ensures
        0 <= total(o) <= o.len() * u.len(),
    decreases o.len(),
{
    if o.len() > 0 {
        assert forall|b: int| 0 <= b < o.drop_last().len() implies (#[trigger] o.drop_last()[b]).subset_of(u) by {
            assert(o.drop_last()[b] == o[b]);
        }
        lemma_total_bound(o.drop_last(), u);
        assert(o[o.len() - 1].subset_of(u));
        vstd::set_lib::lemma_len_subset(o.last(), u);
        assert(o.len() * u.len() == (o.len() - 1) * u.len() + u.len()) by (nonlinear_arith);
    }
}

/// The state of the reaching-definition worklist: the output sets `o`, the
/// input sets `i`, the worklist `w` and the blocks taken so far.
pub open spec fn rd_inv(
    c: CfgView,
    bs: Seq<Seq<Instr>>,
    args: Option<Seq<Seq<char>>>,
    o: Seq<Set<Seq<char>>>,
    i: Seq<Set<Seq<char>>>,
    w: Seq<u32>,
    done: Set<u32>,
) -> bool {
    let n = bs.len() as int;
    let u = name_universe(args, bs);
    &&& 1 <= n <= u32::MAX
    &&& o.len() == n
    &&& i.len() == n
    &&& c.bounded(n as nat)
    &&& c.symmetric()
    &&& forall|b: int| 0 <= b < n ==> (#[trigger] o[b]).subset_of(u) && i[b].subset_of(u)
    &&& forall|b: int| 0 <= b < n ==> #[trigger] o[b] == (if done.contains(b as u32) {
        i[b].union(defined_names(bs[b]))
    } else {
        Set::<Seq<char>>::empty()
    })
    &&& forall|b: int| 0 <= b < n ==> rd_entry(args, b).subset_of(#[trigger] i[b]) && i[b].subset_of(
        rd_entry(args, b).union(preds_union(o, c.preds_of(b as u32))),
    )
    &&& forall|b: int| 0 <= b < n && done.contains(b as u32) && !w.contains(b as u32)
        ==> preds_union(o, c.preds_of(b as u32)).subset_of(#[trigger] i[b])
    &&& forall|b: int| 0 <= b < n && !done.contains(b as u32) ==> #[trigger] i[b] == rd_entry(args, b) && (w.contains(
        b as u32,
    ) || forall|k: int| 0 <= k < c.preds_of(b as u32).len() ==> #[trigger] o[c.preds_of(b as u32)[k] as int] == Set::<Seq<char>>::empty())
    &&& forall|b: int| 0 <= b < n && done.contains(b as u32) && b >= n - 1 ==> #[trigger] rd_active(c, o, n, b)
    &&& forall|b: u32| #![trigger done.contains(b)] #![trigger w.contains(b)] b < n - 1 ==> done.contains(b) || w.contains(b)
    &&& forall|k: int| 0 <= k < w.len() ==> #[trigger] w[k] < n && (w[k] >= n - 1 ==> rd_active(c, o, n, w[k] as int))
    &&& forall|x: u32| #[trigger] done.contains(x) ==> x < n
    &&& forall|s: Seq<Set<Seq<char>>>| #[trigger] rd_solution(c, bs, args, s) ==> forall|b: int|
        0 <= b < n ==> o[b].subset_of(#[trigger] s[b])
}

/// The worklist after taking its last block `b`: the successors of `b` are
/// added where its output set changed.
pub open spec fn rd_next_w(c: CfgView, w: Seq<u32>, b: u32, changed: bool) -> Seq<u32> {
    if changed {
        w.drop_last() + c.succs_of(b)
    } else {
        w.drop_last()
    }
}

proof fn lemma_nonempty_has(s: Set<Seq<char>>)
    requires
        s != Set::<Seq<char>>::empty(),
    ensures
        exists|x: Seq<char>| s.contains(x),
{
    if !(exists|x: Seq<char>| s.contains(x)) {
        assert(s =~= Set::<Seq<char>>::empty());
    }
}

/// Growing the sets of some blocks grows the union over any list of them.
proof fn lemma_preds_union_mono(o: Seq<Set<Seq<char>>>, o2: Seq<Set<Seq<char>>>, ps: Seq<u32>)
    requires
        o.len() == o2.len(),
        forall|k: int| 0 <= k < ps.len() ==> #[trigger] ps[k] < o.len(),
        forall|b: int| 0 <= b < o.len() ==> (#[trigger] o[b]).subset_of(o2[b]),
    ensures
        preds_union(o, ps).subset_of(preds_union(o2, ps)),
{
    assert forall|x: Seq<char>| preds_union(o, ps).contains(x) implies preds_union(o2, ps).contains(x) by {
        let k = choose|k: int| 0 <= k < ps.len() && #[trigger] o[ps[k] as int].contains(x);
        assert(o[ps[k] as int].subset_of(o2[ps[k] as int]));
        assert(o2[ps[k] as int].contains(x));
    }
}

/// One step of the worklist keeps its state consistent.
#[verifier::spinoff_prover]
#[verifier::rlimit(40)]
/// One step of the reaching-definition worklist keeps its invariant and
/// lowers its measure.
pub proof fn lemma_rd_step(
    c: CfgView,
    bs: Seq<Seq<Instr>>,
    args: Option<Seq<Seq<char>>>,
    o: Seq<Set<Seq<char>>>,
    i: Seq<Set<Seq<char>>>,
    w: Seq<u32>,
    done: Set<u32>,
)
    requires
        rd_inv(c, bs, args, o, i, w, done),
        w.len() > 0,
    ensures
        ({
            let b = w.last();
            let res = i[b as int].union(preds_union(o, c.preds_of(b)));
            let out = res.union(defined_names(bs[b as int]));
            &&& o[b as int].subset_of(out)
            &&& o[b as int].finite()
            &&& out.finite()
            &&& (out.len() != o[b as int].len()) == (out != o[b as int])
            &&& rd_inv(c, bs, args, o.update(b as int, out), i.update(b as int, res), rd_next_w(c, w, b, out != o[b as int]), done.insert(b))
        }),
{
    let n = bs.len() as int;
    let u = name_universe(args, bs);
    lemma_universe(args, bs);
    let b = w.last();
    let bi = b as int;
    assert(w[w.len() - 1] == b);
    assert(b < n);
    let p = c.preds_of(b);
    let nd = defined_names(bs[bi]);
    let res = i[bi].union(preds_union(o, p));
    let out = res.union(nd);
    let changed = out != o[bi];
    let o2 = o.update(bi, out);
    let i2 = i.update(bi, res);
    let w1 = w.drop_last();
    let w2 = rd_next_w(c, w, b, changed);
    let done2 = done.insert(b);
    assert forall|k: int| 0 <= k < p.len() implies #[trigger] p[k] < n by {
        assert(c.preds[b][k] < n);
    }
    // the new sets stay within the names of the function
    assert(preds_union(o, p).subset_of(u)) by {
        assert forall|x: Seq<char>| preds_union(o, p).contains(x) implies u.contains(x) by {
            let k = choose|k: int| 0 <= k < p.len() && #[trigger] o[p[k] as int].contains(x);
            assert(o[p[k] as int].subset_of(u));
        }
    }
    assert(nd.subset_of(u));
    assert(out.subset_of(u));
    vstd::set_lib::lemma_len_subset(out, u);
    vstd::set_lib::lemma_len_subset(o[bi], u);
    // the output set only grows
    assert(o[bi].subset_of(out));
    if out.len() == o[bi].len() {
        vstd::set_lib::lemma_subset_equality(o[bi], out);
    }
    assert forall|x: int| 0 <= x < n implies (#[trigger] o[x]).subset_of(o2[x]) by {}
    assert forall|q: int| 0 <= q < n implies #[trigger] o2[q] == (if done2.contains(q as u32) {
        i2[q].union(defined_names(bs[q]))
    } else {
        Set::<Seq<char>>::empty()
    }) by {
        if q != bi {
            assert(o2[q] == o[q]);
            assert(i2[q] == i[q]);
            assert((q as u32) != b);
        }
    }
    assert(res.subset_of(u));
    assert forall|q: int| 0 <= q < n implies (#[trigger] o2[q]).subset_of(u) && i2[q].subset_of(u) by {
        if q != bi {
            assert(o2[q] == o[q]);
            assert(i2[q] == i[q]);
        }
    }
    // where nothing changed, the unions over predecessors are the same
    if !changed {
        assert(o2 =~= o);
    }
    assert forall|q: int| 0 <= q < n implies rd_entry(args, q).subset_of(#[trigger] i2[q]) && i2[q].subset_of(
        rd_entry(args, q).union(preds_union(o2, c.preds_of(q as u32))),
    ) by {
        let pq = c.preds_of(q as u32);
        assert forall|k: int| 0 <= k < pq.len() implies #[trigger] pq[k] < o.len() by {
            assert(c.preds[q as u32][k] < n);
        }
        lemma_preds_union_mono(o, o2, pq);
    }
    // a block taken again later, or whose predecessors did not change, stays consistent
    assert forall|q: int| 0 <= q < n && done2.contains(q as u32) && !w2.contains(q as u32)
        implies preds_union(o2, c.preds_of(q as u32)).subset_of(#[trigger] i2[q]) by {
        let pq = c.preds_of(q as u32);
        if changed && pq.contains(b) {
            assert(c.succs_of(b).contains(q as u32));
            let k = choose|k: int| 0 <= k < c.succs_of(b).len() && c.succs_of(b)[k] == q as u32;
            assert(w2[w1.len() + k] == q as u32);
            assert(false);
        }
        if q == bi {
            assert forall|x: Seq<char>| preds_union(o2, pq).contains(x) implies i2[q].contains(x) by {
                let k = choose|k: int| 0 <= k < pq.len() && #[trigger] o2[pq[k] as int].contains(x);
                if pq[k] as int == bi {
                    assert(!changed);
                    assert(o[bi].contains(x));
                    assert(preds_union(o, p).contains(x));
                } else {
                    assert(o[pq[k] as int].contains(x));
                    assert(preds_union(o, p).contains(x));
                }
            }
        } else {
            assert(!w.contains(q as u32)) by {
                if w.contains(q as u32) {
                    let k = choose|k: int| 0 <= k < w.len() && w[k] == q as u32;
                    assert(k != w.len() - 1);
                    assert(w1[k] == q as u32);
                    if changed {
                        assert(w2[k] == q as u32);
                    }
                }
            }
            assert(done.contains(q as u32));
            assert(preds_union(o, pq).subset_of(i[q]));
            if changed {
                assert(!pq.contains(b));
                assert forall|x: Seq<char>| preds_union(o2, pq).contains(x) implies i2[q].contains(x) by {
                    let k = choose|k: int| 0 <= k < pq.len() && #[trigger] o2[pq[k] as int].contains(x);
                    assert(pq[k] != b);
                    assert(o[pq[k] as int].contains(x));
                    assert(preds_union(o, pq).contains(x));
                }
            }
        }
    }
    // a block never taken has its starting input, and is still to be taken or sees no names
    assert forall|q: int| 0 <= q < n && !done2.contains(q as u32) implies #[trigger] i2[q] == rd_entry(args, q) && (w2.contains(
        q as u32,
    ) || forall|k: int| 0 <= k < c.preds_of(q as u32).len() ==> #[trigger] o2[c.preds_of(q as u32)[k] as int] == Set::<Seq<char>>::empty()) by {
        let pq = c.preds_of(q as u32);
        assert(q != bi);
        assert(i[q] == rd_entry(args, q));
        if w.contains(q as u32) {
            let k = choose|k: int| 0 <= k < w.len() && w[k] == q as u32;
            assert(k != w.len() - 1);
            assert(w1[k] == q as u32);
            assert(w2[k] == q as u32);
        } else {
            if changed && pq.contains(b) {
                assert(c.succs_of(b).contains(q as u32));
                let k = choose|k: int| 0 <= k < c.succs_of(b).len() && c.succs_of(b)[k] == q as u32;
                assert(w2[w1.len() + k] == q as u32);
            } else {
                assert forall|k: int| 0 <= k < pq.len() implies #[trigger] o2[pq[k] as int] == Set::<Seq<char>>::empty() by {
                    assert(o[pq[k] as int] == Set::<Seq<char>>::empty());
                    if pq[k] == b {
                        assert(!changed);
                    }
                }
            }
        }
    }
    // the analysis looks at every block taken
    assert forall|q: int| 0 <= q < n && (#[trigger] o[q] == o[q]) && rd_active(c, o, n, q) implies rd_active(c, o2, n, q) by {
        if q >= n - 1 {
            let pq = c.preds_of(q as u32);
            let k = choose|k: int| 0 <= k < pq.len() && #[trigger] o[pq[k] as int] != Set::<Seq<char>>::empty();
            assert(pq[k] < n) by {
                assert(c.preds[q as u32][k] < n);
            }
            lemma_nonempty_has(o[pq[k] as int]);
            let x = choose|x: Seq<char>| o[pq[k] as int].contains(x);
            assert(o2[pq[k] as int].contains(x));
            assert(o2[pq[k] as int] != Set::<Seq<char>>::empty());
        }
    }
    assert(bi >= n - 1 ==> rd_active(c, o, n, bi)) by {
        assert(w[w.len() - 1] == b);
    }
    assert forall|q: int| 0 <= q < n && done2.contains(q as u32) && q >= n - 1 implies #[trigger] rd_active(c, o2, n, q) by {
        assert(o[q] == o[q]);
    }
    assert forall|x: u32| #![trigger done2.contains(x)] #![trigger w2.contains(x)] x < n - 1 implies done2.contains(x) || w2.contains(x) by {
        if !done.contains(x) {
            let k = choose|k: int| 0 <= k < w.len() && w[k] == x;
            if k != w.len() - 1 {
                assert(w1[k] == x);
                assert(w2[k] == x);
            }
        }
    }
    assert forall|k: int| 0 <= k < w2.len() implies #[trigger] w2[k] < n && (w2[k] >= n - 1 ==> rd_active(c, o2, n, w2[k] as int)) by {
        if k < w1.len() {
            assert(w2[k] == w[k]);
            assert(o[w[k] as int] == o[w[k] as int]);
        } else {
            let s = c.succs_of(b);
            assert(w2[k] == s[k - w1.len()]);
            assert(c.succs[b][k - w1.len()] < n);
            let t = s[k - w1.len()];
            assert(s.contains(t));
            assert(c.preds_of(t).contains(b));
            let j = choose|j: int| 0 <= j < c.preds_of(t).len() && c.preds_of(t)[j] == b;
            assert(out != Set::<Seq<char>>::empty()) by {
                if out == Set::<Seq<char>>::empty() {
                    assert(o[bi] =~= out);
                }
            }
            assert(o2[c.preds_of(t)[j] as int] != Set::<Seq<char>>::empty());
        }
    }
    // the output sets stay within every solution
    assert forall|sol: Seq<Set<Seq<char>>>| #[trigger] rd_solution(c, bs, args, sol) implies forall|q: int|
        0 <= q < n ==> o2[q].subset_of(#[trigger] sol[q]) by {
        assert forall|q: int| 0 <= q < n implies o2[q].subset_of(#[trigger] sol[q]) by {
            if q == bi {
                assert forall|x: int| 0 <= x < n implies (#[trigger] o[x]).subset_of(sol[x]) by {}
                lemma_preds_union_mono(o, sol, p);
                assert(rd_active(c, sol, n, bi)) by {
                    if bi >= n - 1 {
                        let k = choose|k: int| 0 <= k < p.len() && #[trigger] o[p[k] as int] != Set::<Seq<char>>::empty();
                        lemma_nonempty_has(o[p[k] as int]);
                        let x = choose|x: Seq<char>| o[p[k] as int].contains(x);
                        assert(o[p[k] as int].subset_of(sol[p[k] as int]));
                        assert(sol[p[k] as int].contains(x));
                        assert(sol[p[k] as int] != Set::<Seq<char>>::empty());
                    }
                }
                assert(sol[bi] == rd_equation(c, bs, args, sol, bi));
                assert(i[bi].subset_of(rd_entry(args, bi).union(preds_union(o, p))));
            } else {
                assert(o2[q] == o[q]);
            }
        }
    }
    assert forall|x: u32| #[trigger] done2.contains(x) implies x < n by {}
}

/// An empty worklist leaves the least solution.
pub proof fn lemma_rd_done(
    c: CfgView,
    bs: Seq<Seq<Instr>>,
    args: Option<Seq<Seq<char>>>,
    o: Seq<Set<Seq<char>>>,
    i: Seq<Set<Seq<char>>>,
    w: Seq<u32>,
    done: Set<u32>,
)
    requires
        rd_inv(c, bs, args, o, i, w, done),
        w.len() == 0,
    ensures
        rd_least(c, bs, args, o),
{
    let n = bs.len() as int;
    assert forall|b: int| 0 <= b < bs.len() implies #[trigger] o[b] == (if rd_active(c, o, n, b) {
        rd_equation(c, bs, args, o, b)
    } else {
        Set::<Seq<char>>::empty()
    }) by {
        let pb = c.preds_of(b as u32);
        if done.contains(b as u32) {
            assert(!w.contains(b as u32));
            assert(i[b] =~= rd_entry(args, b).union(preds_union(o, pb)));
            if b < n - 1 {
            } else {
                assert(rd_active(c, o, n, b));
            }
        } else {
            assert(!w.contains(b as u32));
            assert(i[b] == rd_entry(args, b));
            assert(b >= n - 1) by {
                if b < n - 1 {
                    assert(done.contains(b as u32) || w.contains(b as u32));
                }
            }
            assert(!rd_active(c, o, n, b)) by {
                if rd_active(c, o, n, b) {
                    let k = choose|k: int| 0 <= k < pb.len() && #[trigger] o[pb[k] as int] != Set::<Seq<char>>::empty();
                    assert(o[pb[k] as int] == Set::<Seq<char>>::empty());
                }
            }
        }
    }
}

/// The sets of names held by a list of name lists.
pub open spec fn sets_view(v: Seq<Vec<String>>) -> Seq<Set<Seq<char>>> {
    v.map_values(|x: Vec<String>| name_set(x@))
}

/// The starting input sets: the arguments for block 0, nothing elsewhere.
pub open spec fn rd_init_inputs(args: Option<Seq<Seq<char>>>, n: int) -> Seq<Set<Seq<char>>> {
    Seq::new(if n == 0 && args is Some { 1nat } else { n as nat }, |b: int| rd_entry(args, b))
}

} // verus!
