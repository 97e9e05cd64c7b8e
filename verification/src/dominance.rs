use std::collections::HashSet;
use vstd::prelude::*;
use crate::cfg::{Cfg, CfgView};

verus! {

broadcast use vstd::std_specs::hash::group_hash_axioms;

/// The models of a list of block sets, each a bitmap over the block indices.
pub open spec fn bitmaps_view(v: Seq<Vec<bool>>) -> Seq<Seq<bool>> {
    v.map_values(|b: Vec<bool>| b@)
}

/// The dominator sets before the pass: block 0 alone for block 0, the blocks
/// below `n - 1` for every other block.
pub open spec fn dom_init(n: int) -> Seq<Seq<bool>> {
    Seq::new(
        n as nat,
        |b: int| if b == 0 { Seq::new(n as nat, |x: int| x == 0) } else { Seq::new(n as nat, |x: int| x < n - 1) },
    )
}

/// The new dominator set of block `b`: `b` itself, together with the blocks
/// below `n - 1` that lie in the set of every predecessor of `b`. Where
/// `no_preds_empty` holds and `b` has no predecessor, `b` alone.
pub open spec fn dom_step(outs: Seq<Seq<bool>>, preds: Seq<u32>, b: int, n: int, no_preds_empty: bool) -> Seq<bool> {
    Seq::new(
        n as nat,
        |x: int|
            x == b || (!(no_preds_empty && preds.len() == 0) && x < n - 1 && forall|k: int|
                0 <= k < preds.len() ==> #[trigger] outs[preds[k] as int][x]),
    )
}

/// The dominator sets after the first `m` steps of the pass, which takes the
/// blocks `n - 2`, `n - 3`, ... down to 0, one step each.
pub open spec fn dom_after(c: CfgView, n: int, m: int, no_preds_empty: bool) -> Seq<Seq<bool>>
    decreases m,
{
    if m <= 0 {
        dom_init(n)
    } else {
        let prev = dom_after(c, n, m - 1, no_preds_empty);
        let b = n - 1 - m;
        prev.update(b, dom_step(prev, c.preds_of(b as u32), b, n, no_preds_empty))
    }
}

/// The dominator sets that the pass computes for a function of `n` blocks.
pub open spec fn dominators_of(c: CfgView, n: int, no_preds_empty: bool) -> Seq<Seq<bool>> {
    dom_after(c, n, n - 1, no_preds_empty)
}

/// A list of bitmaps over `n` blocks, one per block.
pub open spec fn square(s: Seq<Seq<bool>>, n: int) -> bool {
    s.len() == n && forall|b: int| 0 <= b < n ==> (#[trigger] s[b]).len() == n
}

/// Every step of the pass keeps one bitmap of `n` blocks per block.
pub proof fn lemma_dom_after_square(c: CfgView, n: int, m: int, no_preds_empty: bool)
    requires
        1 <= n,
        0 <= m <= n - 1,
    ensures
        square(dom_after(c, n, m, no_preds_empty), n),
    decreases m,
{
    if m > 0 {
        lemma_dom_after_square(c, n, m - 1, no_preds_empty);
    }
}

proof fn lemma_dom_after_self(c: CfgView, n: int, m: int, no_preds_empty: bool)
    requires
        1 <= n,
        0 <= m <= n - 1,
    ensures
        forall|b: int| n - 1 - m <= b < n - 1 ==> #[trigger] dom_after(c, n, m, no_preds_empty)[b][b],
        dom_after(c, n, m, no_preds_empty)[n - 1] == dom_init(n)[n - 1],
    decreases m,
{
    lemma_dom_after_square(c, n, m, no_preds_empty);
    if m > 0 {
        lemma_dom_after_self(c, n, m - 1, no_preds_empty);
        lemma_dom_after_square(c, n, m - 1, no_preds_empty);
        let prev = dom_after(c, n, m - 1, no_preds_empty);
        let bb = n - 1 - m;
        let st = dom_step(prev, c.preds_of(bb as u32), bb, n, no_preds_empty);
        assert(dom_after(c, n, m, no_preds_empty) == prev.update(bb, st));
        assert(st[bb]);
        assert forall|b: int| n - 1 - m <= b < n - 1 implies #[trigger] dom_after(c, n, m, no_preds_empty)[b][b] by {
            if b != bb {
                assert(dom_after(c, n, m, no_preds_empty)[b] == prev[b]);
            }
        }
        assert(dom_after(c, n, m, no_preds_empty)[n - 1] == prev[n - 1]);
    }
}

/// Every block but the last is in its own dominator set; the last block is
/// never taken by the pass and keeps its starting set (the blocks below
/// `n - 1`, or block 0 alone where it is block 0).
pub proof fn lemma_blocks_dominate_themselves(c: CfgView, n: int, no_preds_empty: bool)
    requires
        1 <= n,
    ensures
        forall|b: int| 0 <= b < n - 1 ==> #[trigger] dominators_of(c, n, no_preds_empty)[b][b],
        dominators_of(c, n, no_preds_empty)[n - 1] == (if n == 1 {
            Seq::new(n as nat, |x: int| x == 0)
        } else {
            Seq::new(n as nat, |x: int| x < n - 1)
        }),
{
    lemma_dom_after_self(c, n, n - 1, no_preds_empty);
}

/// Taking the same block twice in a row changes nothing the second time.
pub proof fn lemma_dom_step_idempotent(outs: Seq<Seq<bool>>, preds: Seq<u32>, b: int, n: int, no_preds_empty: bool)
    requires
        square(outs, n),
        0 <= b < n,
        forall|k: int| 0 <= k < preds.len() ==> #[trigger] preds[k] < n,
    ensures
        dom_step(outs.update(b, dom_step(outs, preds, b, n, no_preds_empty)), preds, b, n, no_preds_empty)
            == dom_step(outs, preds, b, n, no_preds_empty),
{
    let s1 = dom_step(outs, preds, b, n, no_preds_empty);
    let outs2 = outs.update(b, s1);
    let s2 = dom_step(outs2, preds, b, n, no_preds_empty);
    assert forall|x: int| 0 <= x < n implies s2[x] == s1[x] by {
        if x != b && !(no_preds_empty && preds.len() == 0) && x < n - 1 {
            if forall|k: int| 0 <= k < preds.len() ==> #[trigger] outs[preds[k] as int][x] {
                assert forall|k: int| 0 <= k < preds.len() implies #[trigger] outs2[preds[k] as int][x] by {
                    if preds[k] as int == b {
                        assert(outs[preds[k] as int][x]);
                    }
                }
            } else {
                let k = choose|k: int| 0 <= k < preds.len() && !#[trigger] outs[preds[k] as int][x];
                if preds[k] as int == b {
                    assert(!s1[x]);
                    assert(!outs2[preds[k] as int][x]);
                } else {
                    assert(!outs2[preds[k] as int][x]);
                }
            }
        }
    }
    assert(s2 =~= s1);
}

/// The number of blocks in a bitmap.
pub fn count_set(v: &Vec<bool>) -> (r: usize)
    ensures
        r == count_true(v@),
        r <= v.len(),
{
    let mut c: usize = 0;
    let mut i: usize = 0;
    while i < v.len()
        invariant
            i <= v.len(),
            c == count_true(v@.take(i as int)),
            c <= i,
        decreases v.len() - i,
    {
        assert(v@.take(i as int + 1).drop_last() == v@.take(i as int));
        if v[i] {
            c += 1;
        }
        i += 1;
    }
    assert(v@.take(v.len() as int) == v@);
    c
}

/// The number of set entries of a bitmap.
pub open spec fn count_true(s: Seq<bool>) -> nat
    decreases s.len(),
{
    if s.len() == 0 {
        0
    } else {
        count_true(s.drop_last()) + if s.last() { 1nat } else { 0nat }
    }
}

/// Computes one step of the pass for block `b`.
fn dominator_step(outs: &Vec<Vec<bool>>, preds: &Vec<u32>, b: usize, n: usize, no_preds_empty: bool) -> (r: Vec<bool>)
    requires
        square(bitmaps_view(outs@), n as int),
        b < n,
        forall|k: int| 0 <= k < preds.len() ==> #[trigger] preds@[k] < n,
    ensures
        r@ == dom_step(bitmaps_view(outs@), preds@, b as int, n as int, no_preds_empty),
{
    let ghost o = bitmaps_view(outs@);
    let ghost target = dom_step(o, preds@, b as int, n as int, no_preds_empty);
    let mut r: Vec<bool> = Vec::new();
    let mut x: usize = 0;
    while x < n
        invariant
            x <= n,
            b < n,
            o == bitmaps_view(outs@),
            square(o, n as int),
            forall|k: int| 0 <= k < preds.len() ==> #[trigger] preds@[k] < n,
            target == dom_step(o, preds@, b as int, n as int, no_preds_empty),
            r@ == target.take(x as int),
        decreases n - x,
    {
        let mut v = x == b;
        if !v && !(no_preds_empty && preds.len() == 0) && x + 1 < n {
            let mut all = true;
            let mut k: usize = 0;
            while k < preds.len()
                invariant
                    k <= preds.len(),
                    x < n,
                    o == bitmaps_view(outs@),
                    square(o, n as int),
                    forall|k: int| 0 <= k < preds.len() ==> #[trigger] preds@[k] < n,
                    all == forall|j: int| 0 <= j < k ==> #[trigger] o[preds@[j] as int][x as int],
                decreases preds.len() - k,
            {
                let p = preds[k] as usize;
                assert(o[p as int] == outs@[p as int]@);
                if !outs[p][x] {
                    all = false;
                }
                k += 1;
            }
            v = all;
        }
        r.push(v);
        assert(r@ =~= target.take(x as int + 1));
        x += 1;
    }
    assert(target.take(n as int) =~= target);
    r
}

/// Computes the dominator sets of a function of `n` blocks by a worklist
/// that starts with the blocks `0..n - 1` and takes them from the end; a
/// block whose set changed in size is taken once more at once.
pub fn compute_dominators(cfg: &Cfg, n: usize, no_preds_empty: bool) -> (r: Vec<Vec<bool>>)
    requires
        1 <= n <= u32::MAX,
        cfg@.bounded(n as nat),
        forall|b: u32| b < n - 1 ==> #[trigger] cfg@.preds.contains_key(b),
    ensures
        bitmaps_view(r@) == dominators_of(cfg@, n as int, no_preds_empty),
        square(bitmaps_view(r@), n as int),
{
    let mut worklist: Vec<u32> = Vec::new();
    let mut i: usize = 0;
    while i + 1 < n
        invariant
            1 <= n <= u32::MAX,
            i < n,
            worklist@ == Seq::new(i as nat, |k: int| k as u32),
        decreases n - i,
    {
        worklist.push(i as u32);
        assert(worklist@ =~= Seq::new(i as nat + 1, |k: int| k as u32));
        i += 1;
    }
    let mut outputs: Vec<Vec<bool>> = Vec::new();
    let mut pos: usize = 0;
    while pos < n
        invariant
            pos <= n,
            bitmaps_view(outputs@) == dom_init(n as int).take(pos as int),
        decreases n - pos,
    {
        let mut row: Vec<bool> = Vec::new();
        let mut x: usize = 0;
        while x < n
            invariant
                x <= n,
                pos < n,
                row@ == Seq::new(x as nat, |y: int| if pos == 0 { y == 0 } else { y < n - 1 }),
            decreases n - x,
        {
            row.push(if pos == 0 { x == 0 } else { x + 1 < n });
            assert(row@ =~= Seq::new(x as nat + 1, |y: int| if pos == 0 { y == 0 } else { y < n - 1 }));
            x += 1;
        }
        assert(row@ =~= dom_init(n as int)[pos as int]);
        let ghost prev = bitmaps_view(outputs@);
        outputs.push(row);
        assert(bitmaps_view(outputs@) =~= prev.push(row@));
        assert(bitmaps_view(outputs@) =~= dom_init(n as int).take(pos as int + 1));
        pos += 1;
    }
    assert(dom_init(n as int).take(n as int) =~= dom_init(n as int));
    let ghost c = cfg@;
    let ghost mut m: int = 0;
    let ghost mut pending: bool = false;
    proof {
        lemma_dom_after_square(c, n as int, 0, no_preds_empty);
    }
    while worklist.len() > 0
        invariant
            1 <= n <= u32::MAX,
            c == cfg@,
            c.bounded(n as nat),
            forall|b: u32| b < n - 1 ==> #[trigger] c.preds.contains_key(b),
            0 <= m <= n - 1,
            bitmaps_view(outputs@) == dom_after(c, n as int, m, no_preds_empty),
            square(bitmaps_view(outputs@), n as int),
            !pending ==> worklist@ == Seq::new((n - 1 - m) as nat, |k: int| k as u32),
            pending ==> m >= 1 && worklist@ == Seq::new((n - 1 - m) as nat, |k: int| k as u32).push((n - 1 - m) as u32),
        decreases 2 * worklist.len() - (if pending { 1int } else { 0int }),
    {
        let ghost wl0 = worklist@;
        let b = worklist.pop().unwrap();
        proof {
            if pending {
                assert(worklist@ =~= Seq::new((n - 1 - m) as nat, |k: int| k as u32));
            } else {
                assert(worklist@ =~= Seq::new((n - 2 - m) as nat, |k: int| k as u32));
            }
        }
        let preds = cfg.get_predecessors(&b).unwrap();
        proof {
            assert(b < n - 1);
            assert forall|k: int| 0 <= k < preds.len() implies #[trigger] preds@[k] < n by {
                assert(c.preds[b][k] < n);
            }
        }
        let ghost before = bitmaps_view(outputs@);
        let new_out = dominator_step(&outputs, preds, b as usize, n, no_preds_empty);
        let old_len = count_set(&outputs[b as usize]);
        let new_len = count_set(&new_out);
        proof {
            if pending {
                assert(b as int == n - 1 - m);
                assert(c.preds_of(b) == preds@);
                let prev = dom_after(c, n as int, m - 1, no_preds_empty);
                lemma_dom_after_square(c, n as int, m - 1, no_preds_empty);
                lemma_dom_step_idempotent(prev, preds@, b as int, n as int, no_preds_empty);
                assert(new_out@ == before[b as int]);
                assert(outputs@[b as int]@ == before[b as int]);
            } else {
                assert(b as int == n - 2 - m);
                assert(c.preds_of(b) == preds@);
            }
        }
        outputs.set(b as usize, new_out);
        proof {
            if pending {
                assert(bitmaps_view(outputs@) =~= before);
            } else {
                assert(bitmaps_view(outputs@) =~= dom_after(c, n as int, m + 1, no_preds_empty));
                m = m + 1;
                lemma_dom_after_square(c, n as int, m, no_preds_empty);
            }
        }
        if old_len != new_len {
            proof {
                assert(!pending);
            }
            worklist.push(b);
            proof {
                pending = true;
            }
        } else {
            proof {
                pending = false;
            }
        }
    }
    assert(!pending);
    assert(m == n - 1);
    outputs
}

/// The blocks whose dominator set holds block `d`.
pub open spec fn dominated_by(doms: Seq<Seq<bool>>, d: int) -> Set<u32> {
    Set::new(|b: u32| b < doms.len() && 0 <= d < doms[b as int].len() && doms[b as int][d])
}

/// The blocks not dominated by `d` whose dominator set holds some block
/// that `d` dominates.
pub open spec fn frontier_of(doms: Seq<Seq<bool>>, d: int) -> Set<u32> {
    Set::new(
        |b: u32|
            b < doms.len() && !dominated_by(doms, d).contains(b) && exists|x: u32|
                x < doms[b as int].len() && #[trigger] doms[b as int][x as int] && dominated_by(doms, d).contains(x),
    )
}

/// Computes the frontier of block `d` from the dominator sets.
pub fn frontier(doms: &Vec<Vec<bool>>, d: u32) -> (r: HashSet<u32>)
    requires
        doms.len() <= u32::MAX,
        square(bitmaps_view(doms@), doms.len() as int),
    ensures
        r@ == frontier_of(bitmaps_view(doms@), d as int),
{
    let ghost o = bitmaps_view(doms@);
    let n = doms.len();
    let mut dominated: Vec<bool> = Vec::new();
    let mut b: usize = 0;
    while b < n
        invariant
            n == doms.len(),
            n <= u32::MAX,
            b <= n,
            o == bitmaps_view(doms@),
            square(o, n as int),
            dominated.len() == b,
            forall|k: int| 0 <= k < b ==> #[trigger] dominated@[k] == dominated_by(o, d as int).contains(k as u32),
        decreases n - b,
    {
        let row = &doms[b];
        assert(o[b as int] == row@);
        let v = (d as usize) < n && row[d as usize];
        dominated.push(v);
        b += 1;
    }
    let mut res: HashSet<u32> = HashSet::new();
    let mut b: usize = 0;
    while b < n
        invariant
            n == doms.len(),
            n <= u32::MAX,
            b <= n,
            o == bitmaps_view(doms@),
            square(o, n as int),
            dominated.len() == n,
            forall|k: int| 0 <= k < n ==> #[trigger] dominated@[k] == dominated_by(o, d as int).contains(k as u32),
            res@ == frontier_of(o, d as int).filter(|k: u32| k < b),
        decreases n - b,
    {
        let row = &doms[b];
        assert(o[b as int] == row@);
        let mut hit = false;
        if !dominated[b] {
            let mut x: usize = 0;
            while x < n
                invariant
                    n == doms.len(),
                    n <= u32::MAX,
                    b < n,
                    x <= n,
                    row@ == o[b as int],
                    square(o, n as int),
                    dominated.len() == n,
                    forall|k: int| 0 <= k < n ==> #[trigger] dominated@[k] == dominated_by(o, d as int).contains(k as u32),
                    hit == exists|y: u32| y < x && #[trigger] o[b as int][y as int] && dominated_by(o, d as int).contains(y),
                decreases n - x,
            {
                if row[x] && dominated[x] {
                    assert(o[b as int][x as int] && dominated_by(o, d as int).contains(x as u32));
                    hit = true;
                }
                proof {
                    if !hit {
                        assert forall|y: u32| y < x + 1 implies !(#[trigger] o[b as int][y as int]
                            && dominated_by(o, d as int).contains(y)) by {
                            if y as int == x as int {
                                assert(dominated@[x as int] == dominated_by(o, d as int).contains(x as u32));
                            }
                        }
                    }
                }
                x += 1;
            }
        }
        proof {
            assert(dominated@[b as int] == dominated_by(o, d as int).contains(b as u32));
            if !dominated@[b as int] {
                assert(hit == frontier_of(o, d as int).contains(b as u32));
            } else {
                assert(!frontier_of(o, d as int).contains(b as u32));
            }
        }
        if hit {
            res.insert(b as u32);
        }
        assert(res@ =~= frontier_of(o, d as int).filter(|k: u32| k < b + 1));
        b += 1;
    }
    assert(res@ =~= frontier_of(o, d as int));
    res
}

} // verus!
