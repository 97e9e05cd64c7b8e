use std::collections::HashSet;
use vstd::prelude::*;
use crate::bril::{
    Function, InsnType, Instr, blocks_view, copy_insns, copy_opt_strs, defined_names, insns_view, is_terminator,
    lemma_defined_names, lemma_split_shape, opt_strs_view, split_blocks, split_into_blocks, split_state,
};
use crate::cfg::{
    Cfg, CfgView, add_edges, all_nonempty, edges_upto, labels_resolve, lemma_add_edges_bounded, lemma_edges_bounded,
    link_blocks,
};
use crate::dominance::{bitmaps_view, compute_dominators, dominators_of, frontier, frontier_of, square};
use crate::licm::{loop_stream, tagged};
use crate::loops::{BlockName, cfg_ready};
use crate::names::{distinct, name_set, union_names, add_name, symmetric_difference_names, lemma_distinct_len};
use crate::reaching::{defined_transfer, rd_entry, rd_init_inputs, sets_view};
use vstd::std_specs::cmp::PartialEqSpecImpl;

verus! {

broadcast use vstd::std_specs::hash::group_hash_axioms;

/// A basic block of the SSA pass, with the `get` instructions that go
/// before it and the `set` instructions that go after it.
pub struct Block {
    pub name: BlockName,
    pub instructions: Vec<InsnType>,
    pub set_instrs: Vec<InsnType>,
    pub get_instrs: Vec<InsnType>,
}

/// The model of a block: its instructions, its `set` instructions and its
/// `get` instructions.
pub struct BlockModel {
    pub instrs: Seq<Instr>,
    pub sets: Seq<Instr>,
    pub gets: Seq<Instr>,
}

impl View for Block {
    type V = BlockModel;

    open spec fn view(&self) -> BlockModel {
        BlockModel {
            instrs: insns_view(self.instructions@),
            sets: insns_view(self.set_instrs@),
            gets: insns_view(self.get_instrs@),
        }
    }
}

/// Two blocks are the same block when they have the same name.
impl PartialEq for Block {
    fn eq(&self, other: &Self) -> (r: bool) {
        self.name == other.name
    }
}

impl PartialEqSpecImpl for Block {
    open spec fn obeys_eq_spec() -> bool {
        true
    }

    open spec fn eq_spec(&self, other: &Block) -> bool {
        self.name == other.name
    }
}

impl Eq for Block {}

/// The models of a list of blocks.
pub open spec fn ssa_blocks_view(v: Seq<Block>) -> Seq<BlockModel> {
    v.map_values(|b: Block| b@)
}

/// The instructions of each block.
pub open spec fn instrs_of(v: Seq<BlockModel>) -> Seq<Seq<Instr>> {
    v.map_values(|b: BlockModel| b.instrs)
}

/// A variable, the type of its last assignment, and the blocks that assign
/// it, in increasing order.
pub struct VarAssigns {
    pub var: String,
    pub insn_type: String,
    pub blocks: Vec<u32>,
}

/// The model of the variables: for each, its name, type and blocks.
pub open spec fn assigns_view(v: Seq<VarAssigns>) -> Seq<(Seq<char>, Seq<char>, Seq<u32>)> {
    v.map_values(|a: VarAssigns| (a.var@, a.insn_type@, a.blocks@))
}

/// The position of variable `x` in the list, if it is there.
pub open spec fn var_index(m: Seq<(Seq<char>, Seq<char>, Seq<u32>)>, x: Seq<char>) -> Option<int>
    decreases m.len(),
{
    if m.len() == 0 {
        None
    } else if m.last().0 == x {
        Some(m.len() - 1)
    } else {
        var_index(m.drop_last(), x)
    }
}

/// The position found for a variable holds it; where none is found, no
/// entry holds it.
pub proof fn lemma_var_index(m: Seq<(Seq<char>, Seq<char>, Seq<u32>)>, x: Seq<char>)
    ensures
        var_index(m, x) matches Some(k) ==> 0 <= k < m.len() && m[k].0 == x,
        var_index(m, x) is None ==> forall|k: int| 0 <= k < m.len() ==> (#[trigger] m[k]).0 != x,
    decreases m.len(),
{
    if m.len() > 0 {
        lemma_var_index(m.drop_last(), x);
        if m.last().0 != x {
            assert forall|k: int| 0 <= k < m.len() - 1 implies #[trigger] m[k] == m.drop_last()[k] by {}
        }
    }
}

/// Records an assignment of the instruction `x` of block `idx`: a new
/// variable is added at the end; a known one takes the type of `x` and
/// gains `idx` among its blocks.
pub open spec fn assign_step(m: Seq<(Seq<char>, Seq<char>, Seq<u32>)>, idx: u32, x: Instr) -> Seq<(Seq<char>, Seq<char>, Seq<u32>)> {
    match x {
        Instr::Constant { dest, insn_type, .. } => record_assign(m, idx, dest, insn_type),
        Instr::ValOp { dest, insn_type, .. } => record_assign(m, idx, dest, insn_type),
        _ => m,
    }
}

pub open spec fn record_assign(m: Seq<(Seq<char>, Seq<char>, Seq<u32>)>, idx: u32, dest: Seq<char>, t: Seq<char>) -> Seq<(Seq<char>, Seq<char>, Seq<u32>)> {
    match var_index(m, dest) {
        Some(k) => m.update(k, (dest, t, if m[k].2.len() > 0 && m[k].2.last() == idx { m[k].2 } else { m[k].2.push(idx) })),
        None => m.push((dest, t, seq![idx])),
    }
}

/// The variables after reading the tagged instructions in order.
pub open spec fn assigns_of(stream: Seq<(u32, Instr)>) -> Seq<(Seq<char>, Seq<char>, Seq<u32>)>
    decreases stream.len(),
{
    if stream.len() == 0 {
        Seq::empty()
    } else {
        assign_step(assigns_of(stream.drop_last()), stream.last().0, stream.last().1)
    }
}

/// Every instruction of the blocks, in order, each with its block.
pub open spec fn all_stream(bs: Seq<Seq<Instr>>) -> Seq<(u32, Instr)> {
    loop_stream(bs, Set::full(), bs.len() as int)
}

/// Finds variable `x` in the list, from the end.
fn find_var(vas: &Vec<VarAssigns>, x: &String) -> (r: Option<usize>)
    ensures
        match r {
            Some(k) => var_index(assigns_view(vas@), x@) == Some(k as int),
            None => var_index(assigns_view(vas@), x@) is None,
        },
{
    let ghost m = assigns_view(vas@);
    let mut k: usize = vas.len();
    assert(m.take(k as int) == m);
    while k > 0
        invariant
            k <= vas.len(),
            m == assigns_view(vas@),
            var_index(m, x@) == var_index(m.take(k as int), x@),
        decreases k,
    {
        assert(m.take(k as int).last() == m[k - 1]);
        assert(m.take(k as int).drop_last() == m.take(k as int - 1));
        if vas[k - 1].var == *x {
            return Some(k - 1);
        }
        k -= 1;
    }
    None
}

/// Records that block `idx` assigns `dest` with type `t`.
fn record_var(vas: &mut Vec<VarAssigns>, dest: &String, t: &String, idx: u32)
    ensures
        assigns_view(final(vas)@) == record_assign(assigns_view(old(vas)@), idx, dest@, t@),
{
    let ghost m = assigns_view(vas@);
    proof {
        lemma_var_index(m, dest@);
    }
    match find_var(vas, dest) {
        Some(k) => {
            let entry = vas.remove(k);
            let mut blocks = entry.blocks;
            if blocks.len() == 0 || blocks[blocks.len() - 1] != idx {
                blocks.push(idx);
            }
            vas.insert(k, VarAssigns { var: dest.clone(), insn_type: t.clone(), blocks });
            assert(assigns_view(vas@) =~= record_assign(m, idx, dest@, t@));
        },
        None => {
            let mut blocks: Vec<u32> = Vec::new();
            blocks.push(idx);
            vas.push(VarAssigns { var: dest.clone(), insn_type: t.clone(), blocks });
            assert(assigns_view(vas@) =~= record_assign(m, idx, dest@, t@));
        },
    }
}

/// The names in an odd number of the sets of the listed blocks: the
/// symmetric difference of those sets, taken in order.
pub open spec fn symdiff_fold(o: Seq<Set<Seq<char>>>, ps: Seq<u32>) -> Set<Seq<char>>
    decreases ps.len(),
{
    if ps.len() == 0 {
        Set::empty()
    } else {
        let acc = symdiff_fold(o, ps.drop_last());
        let x = o[ps.last() as int];
        acc.difference(x).union(x.difference(acc))
    }
}

/// One step of the undefined-variable pass at block `b`: its input becomes
/// the symmetric difference of its predecessors' outputs together with its
/// input so far, its output that input with the names it assigns.
pub open spec fn ud_step(
    c: CfgView,
    bs: Seq<Seq<Instr>>,
    st: (Seq<Set<Seq<char>>>, Seq<Set<Seq<char>>>),
    b: int,
) -> (Seq<Set<Seq<char>>>, Seq<Set<Seq<char>>>) {
    let (o, i) = st;
    let res = symdiff_fold(o, c.preds_of(b as u32)).union(i[b]);
    (o.update(b, defined_transfer(bs[b], res)), i.update(b, res))
}

/// The outputs and inputs after the first `m` steps, which take the blocks
/// `n - 2`, `n - 3`, ... down to 0 once each.
pub open spec fn ud_after(
    c: CfgView,
    bs: Seq<Seq<Instr>>,
    args: Option<Seq<Seq<char>>>,
    m: int,
) -> (Seq<Set<Seq<char>>>, Seq<Set<Seq<char>>>)
    decreases m,
{
    let n = bs.len() as int;
    if m <= 0 {
        (Seq::new((n - 1) as nat, |b: int| Set::<Seq<char>>::empty()), rd_init_inputs(args, n - 1))
    } else {
        ud_step(c, bs, ud_after(c, bs, args, m - 1), n - 1 - m)
    }
}

/// The names that may reach the end of each block `0..n - 1` without having
/// been assigned on every path, as the pass computes them.
pub open spec fn undefined_sets(c: CfgView, bs: Seq<Seq<Instr>>, args: Option<Seq<Seq<char>>>) -> Seq<Set<Seq<char>>> {
    ud_after(c, bs, args, bs.len() - 1).0
}

/// The steps of the undefined-variable pass keep one set per block
/// `0..n - 1`, and blocks not yet taken keep their starting sets.
pub proof fn lemma_ud_after_shape(c: CfgView, bs: Seq<Seq<Instr>>, args: Option<Seq<Seq<char>>>, m: int)
    requires
        bs.len() >= 1,
        0 <= m <= bs.len() - 1,
    ensures
        ud_after(c, bs, args, m).0.len() == bs.len() - 1,
        ud_after(c, bs, args, m).1.len() == rd_init_inputs(args, bs.len() - 1).len(),
        forall|b: int| 0 <= b < bs.len() - 1 - m ==> #[trigger] ud_after(c, bs, args, m).0[b] == Set::<Seq<char>>::empty(),
        forall|b: int| 0 <= b < bs.len() - 1 - m ==> #[trigger] ud_after(c, bs, args, m).1[b] == rd_entry(args, b),
    decreases m,
{
    if m > 0 {
        lemma_ud_after_shape(c, bs, args, m - 1);
    }
}

/// Outside `out`, the symmetric difference does not see a set that grew from
/// empty to `out`.
proof fn lemma_symdiff_outside(o: Seq<Set<Seq<char>>>, b: int, out: Set<Seq<char>>, ps: Seq<u32>, x: Seq<char>)
    requires
        0 <= b < o.len(),
        o[b] == Set::<Seq<char>>::empty(),
        !out.contains(x),
        forall|k: int| 0 <= k < ps.len() ==> #[trigger] ps[k] < o.len(),
    ensures
        symdiff_fold(o.update(b, out), ps).contains(x) == symdiff_fold(o, ps).contains(x),
    decreases ps.len(),
{
    if ps.len() > 0 {
        lemma_symdiff_outside(o, b, out, ps.drop_last(), x);
        let q = ps.last() as int;
        assert(ps[ps.len() - 1] < o.len());
        assert(o.update(b, out)[q].contains(x) == o[q].contains(x));
    }
}

/// Taking a block a second time in a row changes no output.
pub proof fn lemma_ud_step_twice(c: CfgView, bs: Seq<Seq<Instr>>, st: (Seq<Set<Seq<char>>>, Seq<Set<Seq<char>>>), b: int)
    requires
        0 <= b < st.0.len(),
        b < st.1.len(),
        b < bs.len(),
        st.0[b] == Set::<Seq<char>>::empty(),
        forall|k: int| 0 <= k < c.preds_of(b as u32).len() ==> #[trigger] c.preds_of(b as u32)[k] < st.0.len(),
    ensures
        ud_step(c, bs, ud_step(c, bs, st, b), b).0 == ud_step(c, bs, st, b).0,
{
    let (o, i) = st;
    let ps = c.preds_of(b as u32);
    let st1 = ud_step(c, bs, st, b);
    let out1 = st1.0[b];
    let st2 = ud_step(c, bs, st1, b);
    assert(st1.0 == o.update(b, out1));
    assert forall|x: Seq<char>| symdiff_fold(st1.0, ps).contains(x) implies out1.contains(x) by {
        if !out1.contains(x) {
            lemma_symdiff_outside(o, b, out1, ps, x);
        }
    }
    assert(st2.0[b] =~= out1);
    assert(st2.0 =~= st1.0);
}

/// The blocks below `k` in the frontier of `d`, in increasing order.
pub open spec fn frontier_upto(doms: Seq<Seq<bool>>, d: u32, k: int) -> Seq<u32>
    decreases k,
{
    if k <= 0 {
        Seq::empty()
    } else if frontier_of(doms, d as int).contains((k - 1) as u32) {
        frontier_upto(doms, d, k - 1).push((k - 1) as u32)
    } else {
        frontier_upto(doms, d, k - 1)
    }
}

/// The frontier of `d`, in increasing order.
pub open spec fn frontier_list(doms: Seq<Seq<bool>>, d: u32) -> Seq<u32> {
    frontier_upto(doms, d, doms.len() as int)
}

/// The definition stack after reading the frontier list `fl` of a block: a
/// block already taken and not on the stack is pushed again.
pub open spec fn phi_push(fl: Seq<u32>, defs: Seq<u32>, seen: Set<u32>) -> Seq<u32>
    decreases fl.len(),
{
    if fl.len() == 0 {
        defs
    } else {
        let d2 = phi_push(fl.drop_last(), defs, seen);
        let b = fl.last();
        if seen.contains(b) && !d2.contains(b) {
            d2.push(b)
        } else {
            d2
        }
    }
}

/// The blocks taken from the definition stack, in order, if the stack
/// empties within `fuel` steps: each step takes the top block, marks it
/// taken and reads its frontier.
pub open spec fn phi_run(doms: Seq<Seq<bool>>, defs: Seq<u32>, seen: Set<u32>, fuel: nat) -> Option<Seq<u32>>
    decreases fuel,
{
    if defs.len() == 0 {
        Some(Seq::empty())
    } else if fuel == 0 {
        None
    } else {
        let d = defs.last();
        let seen2 = seen.insert(d);
        let defs2 = phi_push(frontier_list(doms, d), defs.drop_last(), seen2);
        match phi_run(doms, defs2, seen2, (fuel - 1) as nat) {
            Some(rest) => Some(seq![d] + rest),
            None => None,
        }
    }
}

/// The definition stack of a variable empties.
pub open spec fn phi_halts(doms: Seq<Seq<bool>>, defs: Seq<u32>) -> bool {
    exists|fuel: nat| #[trigger] phi_run(doms, defs, Set::empty(), fuel) is Some
}

/// The blocks taken from the definition stack of a variable, in order.
pub open spec fn phi_visits(doms: Seq<Seq<bool>>, defs: Seq<u32>) -> Seq<u32> {
    phi_run(doms, defs, Set::empty(), choose|fuel: nat| #[trigger] phi_run(doms, defs, Set::empty(), fuel) is Some).unwrap()
}

proof fn lemma_phi_push_keeps(fl: Seq<u32>, defs: Seq<u32>, seen: Set<u32>, x: u32)
    requires
        defs.contains(x),
    ensures
        phi_push(fl, defs, seen).contains(x),
    decreases fl.len(),
{
    if fl.len() > 0 {
        lemma_phi_push_keeps(fl.drop_last(), defs, seen, x);
        let d2 = phi_push(fl.drop_last(), defs, seen);
        let i = choose|i: int| 0 <= i < d2.len() && d2[i] == x;
        assert(d2.push(fl.last())[i] == x);
    }
}

proof fn lemma_phi_run_takes_defs(doms: Seq<Seq<bool>>, defs: Seq<u32>, seen: Set<u32>, fuel: nat, x: u32)
    requires
        phi_run(doms, defs, seen, fuel) is Some,
        defs.contains(x),
    ensures
        phi_run(doms, defs, seen, fuel).unwrap().contains(x),
    decreases fuel,
{
    let d = defs.last();
    let seen2 = seen.insert(d);
    let defs2 = phi_push(frontier_list(doms, d), defs.drop_last(), seen2);
    let rest = phi_run(doms, defs2, seen2, (fuel - 1) as nat);
    let all = phi_run(doms, defs, seen, fuel).unwrap();
    if x == d {
        assert(all[0] == x);
    } else {
        let i = choose|i: int| 0 <= i < defs.len() && defs[i] == x;
        assert(defs.drop_last()[i] == x);
        lemma_phi_push_keeps(frontier_list(doms, d), defs.drop_last(), seen2, x);
        lemma_phi_run_takes_defs(doms, defs2, seen2, (fuel - 1) as nat, x);
        let j = choose|j: int| 0 <= j < rest.unwrap().len() && rest.unwrap()[j] == x;
        assert(all[j + 1] == x);
    }
}

/// Every block that assigns a variable is taken from its definition stack,
/// so it receives the variable's `set` instruction.
pub proof fn lemma_every_definition_block_visited(doms: Seq<Seq<bool>>, defs: Seq<u32>, b: u32)
    requires
        phi_halts(doms, defs),
        defs.contains(b),
    ensures
        phi_visits(doms, defs).contains(b),
{
    let fuel = choose|fuel: nat| #[trigger] phi_run(doms, defs, Set::empty(), fuel) is Some;
    lemma_phi_run_takes_defs(doms, defs, Set::empty(), fuel, b);
}

/// The `set` instruction of variable `v`.
pub open spec fn set_instr(v: Seq<char>) -> Instr {
    Instr::Effect { op: "set"@, args: Some(seq![v, v]) }
}

/// The `get` instruction of variable `v` of type `t`.
pub open spec fn get_instr(t: Seq<char>, v: Seq<char>) -> Instr {
    Instr::ValOp { op: "get"@, insn_type: t, dest: v, args: None, funcs: None }
}

/// Taking block `d` for variable `v`: a `set` after `d`, and a `get` before
/// each block of `d`'s frontier.
pub open spec fn visit(bm: Seq<BlockModel>, doms: Seq<Seq<bool>>, v: Seq<char>, t: Seq<char>, d: u32) -> Seq<BlockModel> {
    Seq::new(
        bm.len(),
        |b: int|
            BlockModel {
                instrs: bm[b].instrs,
                sets: if b == d as int { bm[b].sets.push(set_instr(v)) } else { bm[b].sets },
                gets: if frontier_of(doms, d as int).contains(b as u32) { bm[b].gets.push(get_instr(t, v)) } else { bm[b].gets },
            },
    )
}

/// Taking block `d` for variable `v`, with the `get` instructions placed
/// only in the blocks below `lim`.
pub open spec fn visit_below(bm: Seq<BlockModel>, doms: Seq<Seq<bool>>, v: Seq<char>, t: Seq<char>, d: u32, lim: int) -> Seq<BlockModel> {
    Seq::new(
        bm.len(),
        |b: int|
            BlockModel {
                instrs: bm[b].instrs,
                sets: if b == d as int { bm[b].sets.push(set_instr(v)) } else { bm[b].sets },
                gets: if frontier_of(doms, d as int).contains(b as u32) && b < lim { bm[b].gets.push(get_instr(t, v)) } else { bm[b].gets },
            },
    )
}

/// The blocks after taking the listed blocks in order for variable `v`.
pub open spec fn visit_all(bm: Seq<BlockModel>, doms: Seq<Seq<bool>>, v: Seq<char>, t: Seq<char>, ds: Seq<u32>) -> Seq<BlockModel>
    decreases ds.len(),
{
    if ds.len() == 0 {
        bm
    } else {
        visit(visit_all(bm, doms, v, t, ds.drop_last()), doms, v, t, ds.last())
    }
}

/// The blocks after placing the `set` and `get` instructions of the first
/// `k` variables.
pub open spec fn place_upto(bm: Seq<BlockModel>, doms: Seq<Seq<bool>>, vars: Seq<(Seq<char>, Seq<char>, Seq<u32>)>, k: int) -> Seq<BlockModel>
    decreases k,
{
    if k <= 0 {
        bm
    } else {
        let (v, t, ds) = vars[k - 1];
        visit_all(place_upto(bm, doms, vars, k - 1), doms, v, t, phi_visits(doms, ds))
    }
}

/// The placed blocks keep their instructions, and each of their `get`
/// instructions was there before or is the `get` of one of the variables.
pub open spec fn placed_from(bm: Seq<BlockModel>, bm0: Seq<BlockModel>, vars: Seq<(Seq<char>, Seq<char>, Seq<u32>)>) -> bool {
    &&& bm.len() == bm0.len()
    &&& forall|b: int| 0 <= b < bm.len() ==> (#[trigger] bm[b]).instrs == bm0[b].instrs
    &&& forall|b: int, j: int| 0 <= b < bm.len() && 0 <= j < bm[b].gets.len() ==> (j < bm0[b].gets.len() && #[trigger] bm[b].gets[j] == bm0[b].gets[j])
        || exists|i: int| 0 <= i < vars.len() && bm[b].gets[j] == get_instr(vars[i].1, vars[i].0)
}

/// Taking blocks for one of the variables keeps each block's instructions
/// and adds only `get` instructions of the variables.
pub proof fn lemma_visit_all_from(bm: Seq<BlockModel>, bm0: Seq<BlockModel>, vars: Seq<(Seq<char>, Seq<char>, Seq<u32>)>, doms: Seq<Seq<bool>>, i: int, ds: Seq<u32>)
    requires
        placed_from(bm, bm0, vars),
        0 <= i < vars.len(),
    ensures
        placed_from(visit_all(bm, doms, vars[i].0, vars[i].1, ds), bm0, vars),
    decreases ds.len(),
{
    if ds.len() > 0 {
        lemma_visit_all_from(bm, bm0, vars, doms, i, ds.drop_last());
        let prev = visit_all(bm, doms, vars[i].0, vars[i].1, ds.drop_last());
        let next = visit(prev, doms, vars[i].0, vars[i].1, ds.last());
        assert forall|b: int, j: int| 0 <= b < next.len() && 0 <= j < next[b].gets.len() implies (j < bm0[b].gets.len()
            && #[trigger] next[b].gets[j] == bm0[b].gets[j]) || exists|i2: int| 0 <= i2 < vars.len() && next[b].gets[j] == get_instr(vars[i2].1, vars[i2].0) by {
            if j < prev[b].gets.len() {
                assert(next[b].gets[j] == prev[b].gets[j]);
            } else {
                assert(next[b].gets[j] == get_instr(vars[i].1, vars[i].0));
            }
        }
    }
}

/// Placing the instructions of the first `k` variables keeps each block's
/// instructions and adds only `get` instructions of the variables.
pub proof fn lemma_place_upto_from(bm0: Seq<BlockModel>, doms: Seq<Seq<bool>>, vars: Seq<(Seq<char>, Seq<char>, Seq<u32>)>, k: int)
    requires
        0 <= k <= vars.len(),
    ensures
        placed_from(place_upto(bm0, doms, vars, k), bm0, vars),
    decreases k,
{
    if k > 0 {
        lemma_place_upto_from(bm0, doms, vars, k - 1);
        let (v, t, ds) = vars[k - 1];
        lemma_visit_all_from(place_upto(bm0, doms, vars, k - 1), bm0, vars, doms, k - 1, phi_visits(doms, ds));
    }
}

/// The stacks the renaming starts from: each variable with its own name.
pub open spec fn initial_stacks(vars: Seq<(Seq<char>, Seq<char>, Seq<u32>)>) -> Seq<(Seq<char>, Seq<Seq<char>>)> {
    vars.map_values(|a: (Seq<char>, Seq<char>, Seq<u32>)| (a.0, seq![a.0]))
}

/// The type of the last assignment of variable `x`.
pub open spec fn type_of(vars: Seq<(Seq<char>, Seq<char>, Seq<u32>)>, x: Seq<char>) -> Seq<char> {
    vars[var_index(vars, x).unwrap()].1
}

/// The `undef` instruction of variable `x` of type `t`.
pub open spec fn undef_instr(t: Seq<char>, x: Seq<char>) -> Instr {
    Instr::ValOp { op: "undef"@, insn_type: t, dest: x, args: None, funcs: None }
}

/// The instructions of the blocks in order, each block as its `get`
/// instructions, its instructions, then its `set` instructions.
pub open spec fn flatten(bs: Seq<BlockModel>) -> Seq<Instr>
    decreases bs.len(),
{
    if bs.len() == 0 {
        Seq::empty()
    } else {
        flatten(bs.drop_last()) + bs.last().gets + bs.last().instrs + bs.last().sets
    }
}

/// The blocks after renaming block 0 from the initial stacks.
pub open spec fn renamed_blocks(placed: Seq<BlockModel>, vars: Seq<(Seq<char>, Seq<char>, Seq<u32>)>) -> Seq<BlockModel> {
    let st = initial_stacks(vars);
    placed.update(
        0,
        BlockModel {
            instrs: rename_seq(st, placed[0].instrs).0,
            sets: placed[0].sets,
            gets: placed[0].gets.map_values(|g: Instr| rename_get(st, g)),
        },
    )
}

/// Whether the list holds `x`.
fn contains_u32(v: &Vec<u32>, x: u32) -> (r: bool)
    ensures
        r == v@.contains(x),
{
    let mut i: usize = 0;
    while i < v.len()
        invariant
            i <= v.len(),
            forall|k: int| 0 <= k < i ==> v@[k] != x,
        decreases v.len() - i,
    {
        if v[i] == x {
            return true;
        }
        i += 1;
    }
    false
}

/// Appends `insn` to the `set` instructions (where `to_sets`) or the `get`
/// instructions of block `d`.
fn push_phi_instr(blocks: &mut Vec<Block>, d: usize, insn: InsnType, to_sets: bool)
    requires
        d < old(blocks).len(),
    ensures
        final(blocks).len() == old(blocks).len(),
        forall|i: int| 0 <= i < final(blocks).len() ==> (#[trigger] final(blocks)@[i]).name == old(blocks)@[i].name,
        ssa_blocks_view(final(blocks)@) == ssa_blocks_view(old(blocks)@).update(
            d as int,
            BlockModel {
                instrs: old(blocks)@[d as int]@.instrs,
                sets: if to_sets { old(blocks)@[d as int]@.sets.push(insn@) } else { old(blocks)@[d as int]@.sets },
                gets: if to_sets { old(blocks)@[d as int]@.gets } else { old(blocks)@[d as int]@.gets.push(insn@) },
            },
        ),
{
    let ghost b0 = blocks@;
    let mut blk = blocks.remove(d);
    let ghost x = insn@;
    if to_sets {
        blk.set_instrs.push(insn);
    } else {
        blk.get_instrs.push(insn);
    }
    assert(insns_view(blk.set_instrs@) =~= if to_sets { b0[d as int]@.sets.push(x) } else { b0[d as int]@.sets });
    assert(insns_view(blk.get_instrs@) =~= if to_sets { b0[d as int]@.gets } else { b0[d as int]@.gets.push(x) });
    blocks.insert(d, blk);
    assert(ssa_blocks_view(blocks@) =~= ssa_blocks_view(b0).update(
        d as int,
        BlockModel {
            instrs: b0[d as int]@.instrs,
            sets: if to_sets { b0[d as int]@.sets.push(x) } else { b0[d as int]@.sets },
            gets: if to_sets { b0[d as int]@.gets } else { b0[d as int]@.gets.push(x) },
        },
    ));
    assert forall|i: int| 0 <= i < blocks.len() implies (#[trigger] blocks@[i]).name == b0[i].name by {}
}

/// The decimal digits of `x`, without sign or leading zeros.
pub open spec fn decimal(x: nat) -> Seq<char>
    decreases x,
{
    if x < 10 {
        seq![(48 + x) as char]
    } else {
        decimal(x / 10).push((48 + x % 10) as char)
    }
}

/// The decimal digit `d` as a string of one character.
fn digit_str(d: u32) -> (r: &'static str)
    requires
        d < 10,
    ensures
        r@ == seq![(48 + d) as char],
{
    if d == 0 {
        proof {
            reveal_strlit("0");
        }
        "0"
    } else if d == 1 {
        proof {
            reveal_strlit("1");
        }
        "1"
    } else if d == 2 {
        proof {
            reveal_strlit("2");
        }
        "2"
    } else if d == 3 {
        proof {
            reveal_strlit("3");
        }
        "3"
    } else if d == 4 {
        proof {
            reveal_strlit("4");
        }
        "4"
    } else if d == 5 {
        proof {
            reveal_strlit("5");
        }
        "5"
    } else if d == 6 {
        proof {
            reveal_strlit("6");
        }
        "6"
    } else if d == 7 {
        proof {
            reveal_strlit("7");
        }
        "7"
    } else if d == 8 {
        proof {
            reveal_strlit("8");
        }
        "8"
    } else {
        proof {
            reveal_strlit("9");
        }
        "9"
    }
}

/// The decimal digits of `x`, without sign or leading zeros.
fn decimal_string(x: u32) -> (r: String)
    ensures
        r@ == decimal(x as nat),
    decreases x,
{
    if x < 10 {
        let mut s = String::new();
        s.append(digit_str(x));
        assert(s@ =~= seq![(48 + x) as char]);
        s
    } else {
        let mut s = decimal_string(x / 10);
        let ghost prefix = s@;
        s.append(digit_str(x % 10));
        assert(s@ =~= prefix.push((48 + x % 10) as char));
        s
    }
}

/// The renaming stacks: each variable with the names it has had.
pub open spec fn stacks_view(v: Seq<(String, Vec<String>)>) -> Seq<(Seq<char>, Seq<Seq<char>>)> {
    v.map_values(|e: (String, Vec<String>)| (e.0@, crate::bril::strs_view(e.1@)))
}

/// The position of variable `x` among the stacks, from the end.
pub open spec fn stack_index(st: Seq<(Seq<char>, Seq<Seq<char>>)>, x: Seq<char>) -> Option<int>
    decreases st.len(),
{
    if st.len() == 0 {
        None
    } else if st.last().0 == x {
        Some(st.len() - 1)
    } else {
        stack_index(st.drop_last(), x)
    }
}

/// The position found for a name holds its stack; where none is found,
/// no stack belongs to it.
pub proof fn lemma_stack_index(st: Seq<(Seq<char>, Seq<Seq<char>>)>, x: Seq<char>)
    ensures
        stack_index(st, x) matches Some(k) ==> 0 <= k < st.len() && st[k].0 == x,
        stack_index(st, x) is None ==> forall|k: int| 0 <= k < st.len() ==> (#[trigger] st[k]).0 != x,
    decreases st.len(),
{
    if st.len() > 0 {
        lemma_stack_index(st.drop_last(), x);
        if st.last().0 != x {
            assert forall|k: int| 0 <= k < st.len() - 1 implies #[trigger] st[k] == st.drop_last()[k] by {}
        }
    }
}

/// Whether `x` has a stack.
pub open spec fn known(st: Seq<(Seq<char>, Seq<Seq<char>>)>, x: Seq<char>) -> bool {
    stack_index(st, x) is Some
}

/// Whether `x` has a stack that holds a name.
pub open spec fn readable(st: Seq<(Seq<char>, Seq<Seq<char>>)>, x: Seq<char>) -> bool {
    match stack_index(st, x) {
        Some(k) => st[k].1.len() > 0,
        None => false,
    }
}

/// The bottom name of `x`'s stack.
pub open spec fn first_name(st: Seq<(Seq<char>, Seq<Seq<char>>)>, x: Seq<char>) -> Seq<char> {
    st[stack_index(st, x).unwrap()].1[0]
}

/// The number of names on `x`'s stack.
pub open spec fn stack_len(st: Seq<(Seq<char>, Seq<Seq<char>>)>, x: Seq<char>) -> nat {
    st[stack_index(st, x).unwrap()].1.len()
}

/// Each name of the list replaced by the bottom name of its stack.
pub open spec fn rename_args(st: Seq<(Seq<char>, Seq<Seq<char>>)>, a: Option<Seq<Seq<char>>>) -> Option<Seq<Seq<char>>> {
    match a {
        Some(v) => Some(v.map_values(|x: Seq<char>| first_name(st, x))),
        None => None,
    }
}

/// Every name of the list has a stack that holds a name.
pub open spec fn args_known(st: Seq<(Seq<char>, Seq<Seq<char>>)>, a: Option<Seq<Seq<char>>>) -> bool {
    match a {
        Some(v) => forall|k: int| 0 <= k < v.len() ==> readable(st, #[trigger] v[k]),
        None => true,
    }
}

/// The new name of `dest` where its stack holds `len` names.
pub open spec fn ssa_name(dest: Seq<char>, len: nat) -> Seq<char> {
    dest + ".ssa."@ + decimal((len as u32) as nat)
}

/// A renamed `get` instruction: its destination becomes the bottom name
/// of its stack; an instruction that is no value operation is replaced.
pub open spec fn rename_get(st: Seq<(Seq<char>, Seq<Seq<char>>)>, g: Instr) -> Instr {
    match g {
        Instr::ValOp { op, insn_type, dest, args, funcs } => Instr::ValOp { op, insn_type, dest: first_name(st, dest), args, funcs },
        _ => Instr::Label { label: "this shouldn't run my types are just bad"@ },
    }
}

/// The instruction renamed, and the stacks after it: a constant's
/// destination gets a new name, which goes on its stack; a value operation's
/// destination gets the new name too (without a push); arguments become the
/// bottom names of their stacks.
pub open spec fn rename_instr(st: Seq<(Seq<char>, Seq<Seq<char>>)>, x: Instr) -> (Instr, Seq<(Seq<char>, Seq<Seq<char>>)>) {
    match x {
        Instr::Constant { op, dest, insn_type, value } => {
            let nd = ssa_name(dest, stack_len(st, dest));
            let k = stack_index(st, dest).unwrap();
            (Instr::Constant { op, dest: nd, insn_type, value }, st.update(k, (st[k].0, st[k].1.push(nd))))
        },
        Instr::Effect { op, args } => (Instr::Effect { op, args: rename_args(st, args) }, st),
        Instr::ValOp { op, insn_type, dest, args, funcs } => (
            Instr::ValOp { op, insn_type, dest: ssa_name(dest, stack_len(st, dest)), args: rename_args(st, args), funcs },
            st,
        ),
        Instr::Terminator { op, labels, args } => (Instr::Terminator { op, labels, args: rename_args(st, args) }, st),
        Instr::Label { .. } => (x, st),
    }
}

/// The instructions renamed in order, and the stacks after them.
pub open spec fn rename_seq(st: Seq<(Seq<char>, Seq<Seq<char>>)>, s: Seq<Instr>) -> (Seq<Instr>, Seq<(Seq<char>, Seq<Seq<char>>)>)
    decreases s.len(),
{
    if s.len() == 0 {
        (Seq::empty(), st)
    } else {
        let (out, st2) = rename_seq(st, s.drop_last());
        let (y, st3) = rename_instr(st2, s.last());
        (out.push(y), st3)
    }
}

/// The names an instruction needs a stack for: its destination, and its
/// arguments, whose stacks must hold a name.
pub open spec fn instr_known(st: Seq<(Seq<char>, Seq<Seq<char>>)>, x: Instr) -> bool {
    match x {
        Instr::Constant { dest, .. } => known(st, dest),
        Instr::Effect { args, .. } => args_known(st, args),
        Instr::ValOp { dest, args, .. } => known(st, dest) && args_known(st, args),
        Instr::Terminator { args, .. } => args_known(st, args),
        Instr::Label { .. } => true,
    }
}

/// A `get` instruction's destination has a stack that holds a name.
pub open spec fn get_known(st: Seq<(Seq<char>, Seq<Seq<char>>)>, g: Instr) -> bool {
    match g {
        Instr::ValOp { dest, .. } => readable(st, dest),
        _ => true,
    }
}

/// Renaming keeps the variables of the stacks and their order, never
/// shortens a stack, and keeps the bottom name of a stack that holds one.
pub proof fn lemma_rename_seq_keeps(st: Seq<(Seq<char>, Seq<Seq<char>>)>, s: Seq<Instr>)
    requires
        forall|i: int| 0 <= i < s.len() ==> instr_known(st, #[trigger] s[i]),
    ensures
        rename_seq(st, s).1.len() == st.len(),
        forall|k: int| 0 <= k < st.len() ==> (#[trigger] rename_seq(st, s).1[k]).0 == st[k].0
            && rename_seq(st, s).1[k].1.len() >= st[k].1.len()
            && (st[k].1.len() > 0 ==> rename_seq(st, s).1[k].1[0] == st[k].1[0]),
    decreases s.len(),
{
    if s.len() > 0 {
        lemma_rename_seq_keeps(st, s.drop_last());
        let st2 = rename_seq(st, s.drop_last()).1;
        let x = s.last();
        assert(instr_known(st, s[s.len() - 1]));
        match x {
            Instr::Constant { dest, .. } => {
                lemma_stack_index(st2, dest);
                lemma_stack_index(st, dest);
                assert(stack_index(st2, dest) is Some) by {
                    lemma_same_names_same_index(st, st2, dest);
                }
            },
            _ => {},
        }
    }
}

/// Two stack lists with the same variables in the same order find a
/// variable at the same place.
pub proof fn lemma_same_names_same_index(a: Seq<(Seq<char>, Seq<Seq<char>>)>, b: Seq<(Seq<char>, Seq<Seq<char>>)>, x: Seq<char>)
    requires
        a.len() == b.len(),
        forall|k: int| 0 <= k < a.len() ==> (#[trigger] a[k]).0 == b[k].0,
    ensures
        stack_index(a, x) == stack_index(b, x),
    decreases a.len(),
{
    if a.len() > 0 {
        assert(a.last().0 == b.last().0);
        assert forall|k: int| 0 <= k < a.drop_last().len() implies (#[trigger] a.drop_last()[k]).0 == b.drop_last()[k].0 by {
            assert(a.drop_last()[k] == a[k]);
            assert(b.drop_last()[k] == b[k]);
        }
        lemma_same_names_same_index(a.drop_last(), b.drop_last(), x);
    }
}

/// An instruction whose names have stacks still has them after other
/// instructions were renamed.
pub proof fn lemma_known_kept(a: Seq<(Seq<char>, Seq<Seq<char>>)>, b: Seq<(Seq<char>, Seq<Seq<char>>)>, x: Instr)
    requires
        a.len() == b.len(),
        forall|k: int| 0 <= k < a.len() ==> (#[trigger] a[k]).0 == b[k].0 && b[k].1.len() >= a[k].1.len(),
        instr_known(a, x),
    ensures
        instr_known(b, x),
{
    assert forall|n: Seq<char>| known(a, n) implies known(b, n) by {
        lemma_same_names_same_index(a, b, n);
    }
    assert forall|n: Seq<char>| readable(a, n) implies readable(b, n) by {
        lemma_same_names_same_index(a, b, n);
        lemma_stack_index(a, n);
    }
    match x {
        Instr::Effect { args: Some(v), .. } => {
            assert forall|k: int| 0 <= k < v.len() implies known(b, #[trigger] v[k]) by {
                assert(known(a, v[k]));
            }
        },
        Instr::ValOp { args: Some(v), .. } => {
            assert forall|k: int| 0 <= k < v.len() implies known(b, #[trigger] v[k]) by {
                assert(known(a, v[k]));
            }
        },
        Instr::Terminator { args: Some(v), .. } => {
            assert forall|k: int| 0 <= k < v.len() implies known(b, #[trigger] v[k]) by {
                assert(known(a, v[k]));
            }
        },
        _ => {},
    }
}

/// Finds the stack of `x`, from the end.
fn find_stack(stacks: &Vec<(String, Vec<String>)>, x: &String) -> (r: Option<usize>)
    ensures
        match r {
            Some(k) => stack_index(stacks_view(stacks@), x@) == Some(k as int),
            None => stack_index(stacks_view(stacks@), x@) is None,
        },
{
    let ghost m = stacks_view(stacks@);
    let mut k: usize = stacks.len();
    assert(m.take(k as int) == m);
    while k > 0
        invariant
            k <= stacks.len(),
            m == stacks_view(stacks@),
            stack_index(m, x@) == stack_index(m.take(k as int), x@),
        decreases k,
    {
        assert(m.take(k as int).last() == m[k - 1]);
        assert(m.take(k as int).drop_last() == m.take(k as int - 1));
        if stacks[k - 1].0 == *x {
            return Some(k - 1);
        }
        k -= 1;
    }
    None
}

/// Whether `x` has a stack that holds a name.
fn has_readable_stack(stacks: &Vec<(String, Vec<String>)>, x: &String) -> (r: bool)
    ensures
        r == readable(stacks_view(stacks@), x@),
{
    proof {
        lemma_stack_index(stacks_view(stacks@), x@);
    }
    match find_stack(stacks, x) {
        Some(k) => {
            assert(stacks_view(stacks@)[k as int].1.len() == stacks@[k as int].1.len());
            stacks[k].1.len() > 0
        },
        None => false,
    }
}

/// Whether every listed name has a stack that holds a name.
fn args_have_stacks(stacks: &Vec<(String, Vec<String>)>, args: &Option<Vec<String>>) -> (r: bool)
    ensures
        r == args_known(stacks_view(stacks@), opt_strs_view(*args)),
{
    match args {
        Some(v) => {
            assert(opt_strs_view(*args) == Some(crate::bril::strs_view(v@)));
            let mut i: usize = 0;
            while i < v.len()
                invariant
                    i <= v.len(),
                    opt_strs_view(*args) == Some(crate::bril::strs_view(v@)),
                    forall|k: int| 0 <= k < i ==> readable(stacks_view(stacks@), #[trigger] crate::bril::strs_view(v@)[k]),
                decreases v.len() - i,
            {
                assert(crate::bril::strs_view(v@)[i as int] == v@[i as int]@);
                if !has_readable_stack(stacks, &v[i]) {
                    assert(crate::bril::strs_view(v@).len() == v.len());
                    let ghost a = opt_strs_view(*args);
                    assert(a->0 == crate::bril::strs_view(v@));
                    assert(!readable(stacks_view(stacks@), a->0[i as int]));
                    return false;
                }
                i += 1;
            }
            assert(opt_strs_view(*args) == Some(crate::bril::strs_view(v@)));
            true
        },
        None => true,
    }
}

/// Whether every name the instruction reads or assigns has a stack.
fn instr_has_stacks(stacks: &Vec<(String, Vec<String>)>, insn: &InsnType) -> (r: bool)
    ensures
        r == instr_known(stacks_view(stacks@), insn@),
{
    match insn {
        InsnType::Constant { dest, .. } => find_stack(stacks, dest).is_some(),
        InsnType::Effect { args, .. } => args_have_stacks(stacks, args),
        InsnType::ValOp { dest, args, .. } => find_stack(stacks, dest).is_some() && args_have_stacks(stacks, args),
        InsnType::Terminator { args, .. } => args_have_stacks(stacks, args),
        InsnType::Label { .. } => true,
    }
}

/// Whether the destination of a `get` instruction has a stack that holds a
/// name.
fn get_has_stack(stacks: &Vec<(String, Vec<String>)>, g: &InsnType) -> (r: bool)
    ensures
        r == get_known(stacks_view(stacks@), g@),
{
    match g {
        InsnType::ValOp { dest, .. } => has_readable_stack(stacks, dest),
        _ => true,
    }
}

/// The bottom name of the stack of `x`.
fn bottom_name(stacks: &Vec<(String, Vec<String>)>, x: &String) -> (r: String)
    requires
        readable(stacks_view(stacks@), x@),
    ensures
        r@ == first_name(stacks_view(stacks@), x@),
{
    proof {
        lemma_stack_index(stacks_view(stacks@), x@);
    }
    let k = find_stack(stacks, x).unwrap();
    assert(stacks_view(stacks@)[k as int].1.len() > 0);
    assert(crate::bril::strs_view(stacks@[k as int].1@)[0] == stacks@[k as int].1@[0]@);
    stacks[k].1[0].clone()
}

/// Each name of the list replaced by the bottom name of its stack.
fn rename_arg_list(stacks: &Vec<(String, Vec<String>)>, args: &Option<Vec<String>>) -> (r: Option<Vec<String>>)
    requires
        args_known(stacks_view(stacks@), opt_strs_view(*args)),
    ensures
        opt_strs_view(r) == rename_args(stacks_view(stacks@), opt_strs_view(*args)),
{
    match args {
        Some(argos) => {
            let ghost st = stacks_view(stacks@);
            let ghost av = crate::bril::strs_view(argos@);
            let mut temp: Vec<String> = Vec::new();
            let mut i: usize = 0;
            while i < argos.len()
                invariant
                    i <= argos.len(),
                    st == stacks_view(stacks@),
                    av == crate::bril::strs_view(argos@),
                    forall|k: int| 0 <= k < av.len() ==> readable(st, #[trigger] av[k]),
                    temp.len() == i,
                    crate::bril::strs_view(temp@) == av.take(i as int).map_values(|x: Seq<char>| first_name(st, x)),
                decreases argos.len() - i,
            {
                assert(av[i as int] == argos@[i as int]@);
                let nm = bottom_name(stacks, &argos[i]);
                let ghost prev = temp@;
                let ghost nmv = nm@;
                temp.push(nm);
                assert(crate::bril::strs_view(temp@) =~= crate::bril::strs_view(prev).push(nmv));
                assert(av.take(i as int + 1) =~= av.take(i as int).push(av[i as int]));
                assert(crate::bril::strs_view(temp@) =~= av.take(i as int + 1).map_values(|x: Seq<char>| first_name(st, x)));
                i += 1;
            }
            assert(av.take(argos.len() as int) == av);
            Some(temp)
        },
        None => None,
    }
}

/// Renames one instruction, pushing a constant's new name on its stack.
fn rename_one(stacks: &mut Vec<(String, Vec<String>)>, insn: &InsnType) -> (r: InsnType)
    requires
        instr_known(stacks_view(old(stacks)@), insn@),
    ensures
        (r@, stacks_view(final(stacks)@)) == rename_instr(stacks_view(old(stacks)@), insn@),
{
    let ghost st = stacks_view(stacks@);
    match insn {
        InsnType::Constant { op, dest, insn_type, value } => {
            proof {
                lemma_stack_index(st, dest@);
            }
            let k = find_stack(stacks, dest).unwrap();
            let len = stacks[k].1.len();
            assert(len == st[k as int].1.len());
            let mut new_dest = dest.clone();
            new_dest.append(".ssa.");
            let num = decimal_string(len as u32);
            new_dest.append(num.as_str());
            assert(new_dest@ == ssa_name(dest@, stack_len(st, dest@)));
            let (nm, mut stk) = stacks.remove(k);
            let ghost stk0 = stk@;
            stk.push(new_dest.clone());
            assert(crate::bril::strs_view(stk@) =~= crate::bril::strs_view(stk0).push(new_dest@));
            stacks.insert(k, (nm, stk));
            assert(stacks_view(stacks@) =~= st.update(k as int, (st[k as int].0, st[k as int].1.push(new_dest@))));
            InsnType::Constant { op: op.clone(), dest: new_dest, insn_type: insn_type.clone(), value: value.clone() }
        },
        InsnType::Effect { op, args } => {
            let new_args = rename_arg_list(stacks, args);
            InsnType::Effect { op: op.clone(), args: new_args }
        },
        InsnType::ValOp { op, insn_type, dest, args, funcs } => {
            proof {
                lemma_stack_index(st, dest@);
            }
            let k = find_stack(stacks, dest).unwrap();
            let len = stacks[k].1.len();
            let mut new_dest = dest.clone();
            new_dest.append(".ssa.");
            let num = decimal_string(len as u32);
            new_dest.append(num.as_str());
            let new_args = rename_arg_list(stacks, args);
            InsnType::ValOp {
                op: op.clone(),
                insn_type: insn_type.clone(),
                dest: new_dest,
                args: new_args,
                funcs: crate::bril::copy_opt_strs(funcs),
            }
        },
        InsnType::Terminator { op, labels, args } => {
            let new_args = rename_arg_list(stacks, args);
            InsnType::Terminator { op: op.clone(), labels: crate::bril::copy_strs(labels), args: new_args }
        },
        InsnType::Label { label } => InsnType::Label { label: label.clone() },
    }
}

/// Renames a `get` instruction.
fn rename_get_one(stacks: &Vec<(String, Vec<String>)>, insn: &InsnType) -> (r: InsnType)
    requires
        insn@ matches Instr::ValOp { dest, .. } ==> readable(stacks_view(stacks@), dest),
    ensures
        r@ == rename_get(stacks_view(stacks@), insn@),
{
    broadcast use vstd::string::group_string_axioms;
    match insn {
        InsnType::ValOp { op, insn_type, dest, args, funcs } => InsnType::ValOp {
            op: op.clone(),
            insn_type: insn_type.clone(),
            dest: bottom_name(stacks, dest),
            args: crate::bril::copy_opt_strs(args),
            funcs: crate::bril::copy_opt_strs(funcs),
        },
        _ => InsnType::Label { label: "this shouldn't run my types are just bad".to_string() },
    }
}

/// A copy of a block, with the same name and model.
fn copy_block(b: &Block) -> (r: Block)
    ensures
        r@ == b@,
        r.name == b.name,
{
    Block {
        name: b.name,
        instructions: copy_insns(&b.instructions),
        set_instrs: copy_insns(&b.set_instrs),
        get_instrs: copy_insns(&b.get_instrs),
    }
}

/// The state of the SSA pass over one function.
pub struct FuncContext {
    args: Option<Vec<String>>,
    name: String,
    fn_type: Option<String>,
    cfg: Cfg,
    blocks: Vec<Block>,
    dominators: Vec<Vec<bool>>,
    variable_assigns: Vec<VarAssigns>,
}

impl FuncContext {
    /// The models of the blocks.
    pub closed spec fn block_models(self) -> Seq<BlockModel> {
        ssa_blocks_view(self.blocks@)
    }

    /// The names of the blocks.
    pub closed spec fn block_names(self) -> Seq<BlockName> {
        self.blocks@.map_values(|b: Block| b.name)
    }

    /// The control-flow graph of the blocks.
    pub closed spec fn cfg_view(self) -> CfgView {
        self.cfg@
    }

    /// The dominator set of each block.
    pub closed spec fn dominator_sets(self) -> Seq<Seq<bool>> {
        bitmaps_view(self.dominators@)
    }

    /// The variables the function assigns.
    pub closed spec fn assigns(self) -> Seq<(Seq<char>, Seq<char>, Seq<u32>)> {
        assigns_view(self.variable_assigns@)
    }

    /// The names of the function's arguments, if it lists them.
    pub closed spec fn arg_names(self) -> Option<Seq<Seq<char>>> {
        opt_strs_view(self.args)
    }

    /// The function's name.
    pub closed spec fn func_name(self) -> Seq<char> {
        self.name@
    }

    /// The function's type, if it has one.
    pub closed spec fn func_type(self) -> Option<Seq<char>> {
        match self.fn_type {
            Some(t) => Some(t@),
            None => None,
        }
    }

    /// An empty context.
    pub fn new() -> (r: Self)
        ensures
            r.block_models().len() == 0,
            r.cfg_view().preds == Map::<u32, Seq<u32>>::empty(),
            r.cfg_view().succs == Map::<u32, Seq<u32>>::empty(),
            r.dominator_sets() == Seq::<Seq<bool>>::empty(),
            r.assigns() == Seq::<(Seq<char>, Seq<char>, Seq<u32>)>::empty(),
            r.arg_names() is None,
            r.func_type() is None,
            r.func_name() == Seq::<char>::empty(),
    {
        let r = FuncContext {
            args: None,
            name: String::new(),
            fn_type: None,
            cfg: Cfg::new(),
            blocks: Vec::new(),
            dominators: Vec::new(),
            variable_assigns: Vec::new(),
        };
        assert(bitmaps_view(r.dominators@) =~= Seq::<Seq<bool>>::empty());
        assert(ssa_blocks_view(r.blocks@) =~= Seq::<BlockModel>::empty());
        assert(assigns_view(r.variable_assigns@) =~= Seq::<(Seq<char>, Seq<char>, Seq<u32>)>::empty());
        r
    }

    /// Reads a function: its name, arguments and type, and its blocks
    /// linked along the labels of each `br`.
    pub fn init(&mut self, function: &Function)
        requires
            cfg_ready(*function, false),
        ensures
            final(self).func_name() == function.name@,
            final(self).arg_names() == opt_strs_view(function.args),
            final(self).func_type() == (match function.func_type {
                Some(t) => Some(t@),
                None => None,
            }),
            instrs_of(final(self).block_models()) == split_blocks(insns_view(function.instructions@)),
            forall|i: int| 0 <= i < final(self).block_models().len() ==> (#[trigger] final(self).block_models()[i]).sets.len() == 0
                && final(self).block_models()[i].gets.len() == 0,
            forall|i: int| 0 <= i < final(self).block_models().len() ==> (#[trigger] final(self).block_names()[i]) == BlockName(i as u32),
            final(self).block_names().len() == final(self).block_models().len(),
            final(self).cfg_view() == add_edges(
                CfgView { preds: Map::empty(), succs: Map::empty() },
                edges_upto(instrs_of(final(self).block_models()), final(self).block_models().len() as int, false),
            ),
            final(self).cfg_view().bounded(final(self).block_models().len() as nat),
            1 <= final(self).block_models().len() <= u32::MAX,
            final(self).dominator_sets() == old(self).dominator_sets(),
            final(self).assigns() == old(self).assigns(),
    {
        self.name = function.name.clone();
        self.args = copy_opt_strs(&function.args);
        self.fn_type = match &function.func_type {
            Some(t) => Some(t.clone()),
            None => None,
        };
        self.make_cfg(function);
    }

    /// Splits the function into blocks and links each block ending with a
    /// `br` to the last block that opens with each of its labels.
    fn make_cfg(&mut self, function: &Function)
        requires
            cfg_ready(*function, false),
        ensures
            final(self).name == old(self).name,
            final(self).args == old(self).args,
            final(self).fn_type == old(self).fn_type,
            final(self).dominators == old(self).dominators,
            final(self).variable_assigns == old(self).variable_assigns,
            instrs_of(final(self).block_models()) == split_blocks(insns_view(function.instructions@)),
            forall|i: int| 0 <= i < final(self).blocks.len() ==> (#[trigger] final(self).blocks@[i]).set_instrs.len() == 0
                && final(self).blocks@[i].get_instrs.len() == 0 && final(self).blocks@[i].name == BlockName(i as u32),
            final(self).cfg_view() == add_edges(
                CfgView { preds: Map::empty(), succs: Map::empty() },
                edges_upto(instrs_of(final(self).block_models()), final(self).blocks.len() as int, false),
            ),
            final(self).cfg_view().bounded(final(self).blocks.len() as nat),
            1 <= final(self).blocks.len() <= u32::MAX,
    {
        let ghost s = insns_view(function.instructions@);
        proof {
            lemma_split_shape(s);
        }
        let raw = split_into_blocks(&function.instructions);
        let ghost bs = blocks_view(raw@);
        proof {
            assert forall|i: int| 0 <= i < bs.len() implies (#[trigger] bs[i]).len() > 0 by {
                if i < split_state(s).0.len() {
                    assert(bs[i] == split_state(s).0[i]);
                }
            }
        }
        let mut blocks: Vec<Block> = Vec::new();
        let mut i: usize = 0;
        while i < raw.len()
            invariant
                i <= raw.len(),
                raw.len() <= u32::MAX,
                bs == blocks_view(raw@),
                blocks.len() == i,
                instrs_of(ssa_blocks_view(blocks@)) == bs.take(i as int),
                forall|k: int| 0 <= k < blocks.len() ==> (#[trigger] blocks@[k]).set_instrs.len() == 0
                    && blocks@[k].get_instrs.len() == 0 && blocks@[k].name == BlockName(k as u32),
            decreases raw.len() - i,
        {
            let instructions = copy_insns(&raw[i]);
            let ghost prev = blocks@;
            blocks.push(Block { name: BlockName(i as u32), instructions, set_instrs: Vec::new(), get_instrs: Vec::new() });
            assert(instrs_of(ssa_blocks_view(blocks@)) =~= bs.take(i as int + 1)) by {
                assert(blocks@ == prev.push(blocks@[i as int]));
            }
            i += 1;
        }
        assert(bs.take(raw.len() as int) == bs);
        self.blocks = blocks;
        self.cfg = Cfg::new();
        let ghost c0 = self.cfg@;
        link_blocks(&mut self.cfg, &raw, false);
        proof {
            let n = raw.len();
            let es = edges_upto(bs, n as int, false);
            lemma_edges_bounded(bs, n as int, false);
            assert(c0 == CfgView { preds: Map::empty(), succs: Map::empty() });
            assert(c0.bounded(n as nat));
            lemma_add_edges_bounded(c0, es, n as nat);
        }
    }

    /// Computes the dominator sets: a pass over the blocks `n - 2` down to 0
    /// in which a block's set becomes the block itself and the blocks below
    /// `n - 1` common to its predecessors' sets.
    pub fn construct_dominators(&mut self)
        requires
            1 <= old(self).block_models().len() <= u32::MAX,
            old(self).cfg_view().bounded(old(self).block_models().len() as nat),
            forall|b: u32| b < old(self).block_models().len() - 1 ==> #[trigger] old(self).cfg_view().preds.contains_key(b),
        ensures
            final(self).dominator_sets() == dominators_of(old(self).cfg_view(), old(self).block_models().len() as int, false),
            square(final(self).dominator_sets(), old(self).block_models().len() as int),
            final(self).block_models() == old(self).block_models(),
            final(self).block_names() == old(self).block_names(),
            final(self).cfg_view() == old(self).cfg_view(),
            final(self).arg_names() == old(self).arg_names(),
            final(self).func_name() == old(self).func_name(),
            final(self).func_type() == old(self).func_type(),
            final(self).assigns() == old(self).assigns(),
    {
        let n = self.blocks.len();
        self.dominators = compute_dominators(&self.cfg, n, false);
    }

    /// `after` is `before` with its variables collected from its blocks: for
    /// each, in order of first assignment, the type of its last assignment
    /// and the blocks that assign it; nothing else changes.
    pub open spec fn collected(before: FuncContext, after: FuncContext) -> bool {
        &&& after.assigns() == assigns_of(all_stream(instrs_of(before.block_models())))
        &&& after.block_models() == before.block_models()
        &&& after.block_names() == before.block_names()
        &&& after.cfg_view() == before.cfg_view()
        &&& after.dominator_sets() == before.dominator_sets()
        &&& after.arg_names() == before.arg_names()
        &&& after.func_name() == before.func_name()
        &&& after.func_type() == before.func_type()
    }

    /// The variables depend on the blocks alone: collecting them a second
    /// time leaves every part of the context as the first time left it.
    pub proof fn lemma_collect_vars_twice(c0: FuncContext, c1: FuncContext, c2: FuncContext)
        requires
            FuncContext::collected(c0, c1),
            FuncContext::collected(c1, c2),
        ensures
            c2.assigns() == c1.assigns(),
            c2.block_models() == c1.block_models(),
            c2.block_names() == c1.block_names(),
            c2.cfg_view() == c1.cfg_view(),
            c2.dominator_sets() == c1.dominator_sets(),
            c2.arg_names() == c1.arg_names(),
            c2.func_name() == c1.func_name(),
            c2.func_type() == c1.func_type(),
    {
    }

    /// Lists the variables the blocks assign: for each, in order of first
    /// assignment, the type of its last assignment and the blocks that
    /// assign it.
    pub fn collect_vars(&mut self)
        requires
            old(self).block_models().len() <= u32::MAX,
        ensures
            FuncContext::collected(*old(self), *final(self)),
    {
        let ghost bs = instrs_of(self.block_models());
        let mut vas: Vec<VarAssigns> = Vec::new();
        assert(assigns_view(vas@) =~= assigns_of(loop_stream(bs, Set::full(), 0)));
        let n = self.blocks.len();
        let mut idx: usize = 0;
        while idx < n
            invariant
                n == self.blocks.len(),
                n <= u32::MAX,
                bs == instrs_of(ssa_blocks_view(self.blocks@)),
                idx <= n,
                assigns_view(vas@) == assigns_of(loop_stream(bs, Set::full(), idx as int)),
            decreases n - idx,
        {
            let instrs = &self.blocks[idx].instructions;
            assert(bs[idx as int] == insns_view(instrs@));
            let ghost base = loop_stream(bs, Set::full(), idx as int);
            let ghost tg = tagged(bs, idx as int);
            let mut j: usize = 0;
            while j < instrs.len()
                invariant
                    idx < n,
                    n <= u32::MAX,
                    bs[idx as int] == insns_view(instrs@),
                    tg == tagged(bs, idx as int),
                    j <= instrs.len(),
                    assigns_view(vas@) == assigns_of(base + tg.take(j as int)),
                decreases instrs.len() - j,
            {
                let insn = &instrs[j];
                proof {
                    let s1 = base + tg.take(j as int + 1);
                    assert(s1.drop_last() == base + tg.take(j as int));
                    assert(s1.last() == (idx as u32, insn@));
                }
                match insn {
                    InsnType::Constant { dest, insn_type, .. } => record_var(&mut vas, dest, insn_type, idx as u32),
                    InsnType::ValOp { dest, insn_type, .. } => record_var(&mut vas, dest, insn_type, idx as u32),
                    _ => {},
                }
                j += 1;
            }
            assert(tg.take(instrs.len() as int) == tg);
            assert(Set::<u32>::full().contains(idx as u32));
            assert(loop_stream(bs, Set::full(), idx as int + 1) == base + tg);
            idx += 1;
        }
        self.variable_assigns = vas;
    }

    /// The names of `input` together with those block `block_idx` assigns.
    fn defined_insns_transfer(&self, block_idx: u32, input: &Vec<String>) -> (r: Vec<String>)
        requires
            block_idx < self.block_models().len(),
        ensures
            distinct(r@),
            name_set(r@) == defined_transfer(self.block_models()[block_idx as int].instrs, name_set(input@)),
    {
        let instrs = &self.blocks[block_idx as usize].instructions;
        let ghost bi = insns_view(instrs@);
        assert(bi == self.block_models()[block_idx as int].instrs);
        let mut defined: Vec<String> = Vec::new();
        assert(name_set(defined@) =~= Set::<Seq<char>>::empty());
        let mut i: usize = 0;
        while i < instrs.len()
            invariant
                i <= instrs.len(),
                bi == insns_view(instrs@),
                distinct(defined@),
                name_set(defined@) == Set::new(|x: Seq<char>| exists|k: int| 0 <= k < i && crate::bril::dest_of(#[trigger] bi[k]) == Some(x)),
            decreases instrs.len() - i,
        {
            let insn = &instrs[i];
            assert(bi[i as int] == insn@);
            let ghost before = name_set(defined@);
            match insn {
                InsnType::Constant { dest, .. } => add_name(&mut defined, dest),
                InsnType::ValOp { dest, .. } => add_name(&mut defined, dest),
                _ => {},
            }
            assert(name_set(defined@) =~= Set::new(|x: Seq<char>| exists|k: int| 0 <= k < i + 1 && crate::bril::dest_of(#[trigger] bi[k]) == Some(x))) by {
                assert forall|x: Seq<char>| name_set(defined@).contains(x) implies exists|k: int| 0 <= k < i + 1 && crate::bril::dest_of(#[trigger] bi[k]) == Some(x) by {
                    if !before.contains(x) {
                        assert(crate::bril::dest_of(bi[i as int]) == Some(x));
                    }
                }
            }
            i += 1;
        }
        proof {
            lemma_defined_names(bi);
            assert(name_set(defined@) =~= defined_names(bi));
        }
        union_names(input, &defined)
    }

    /// The renaming stacks to start from: each variable with its own name.
    fn initial_stack_list(&self) -> (r: Vec<(String, Vec<String>)>)
        ensures
            stacks_view(r@) == initial_stacks(self.assigns()),
    {
        let ghost vars = self.assigns();
        let nv = self.variable_assigns.len();
        let mut stacks: Vec<(String, Vec<String>)> = Vec::new();
        let mut k: usize = 0;
        while k < nv
            invariant
                nv == self.variable_assigns.len(),
                vars == self.assigns(),
                k <= nv,
                stacks_view(stacks@) == initial_stacks(vars).take(k as int),
            decreases nv - k,
        {
            let var = &self.variable_assigns[k].var;
            let entry = (var.clone(), vec![var.clone()]);
            assert(crate::bril::strs_view(entry.1@) =~= seq![var@]);
            let ghost prev = stacks@;
            stacks.push(entry);
            assert(stacks_view(stacks@) =~= stacks_view(prev).push((var@, seq![var@])));
            assert(initial_stacks(vars).take(k as int + 1) =~= initial_stacks(vars).take(k as int).push((vars[k as int].0, seq![vars[k as int].0])));
            k += 1;
        }
        assert(initial_stacks(vars).take(nv as int) == initial_stacks(vars));
        stacks
    }

    /// For each block `0..n - 1`, the names that may reach its end without
    /// being assigned on every path there: a pass over the blocks from
    /// `n - 2` down to 0 in which a block's input gains the symmetric
    /// difference of its predecessors' outputs, and its output is that input
    /// with the names it assigns (a block whose output changed in size is
    /// taken once more at once).
    fn undefined_vars(&self) -> (r: Vec<Vec<String>>)
        requires
            1 <= self.block_models().len() <= u32::MAX,
            forall|b: u32| b < self.block_models().len() - 1 ==> #[trigger] self.cfg_view().preds.contains_key(b),
            forall|b: u32, k: int|
                b < self.block_models().len() - 1 && 0 <= k < self.cfg_view().preds_of(b).len()
                    ==> #[trigger] self.cfg_view().preds_of(b)[k] < self.block_models().len() - 1,
        ensures
            sets_view(r@) == undefined_sets(self.cfg_view(), instrs_of(self.block_models()), self.arg_names()),
            forall|b: int| 0 <= b < r.len() ==> distinct(#[trigger] r@[b]@),
    {
        let ghost c = self.cfg_view();
        let ghost bs = instrs_of(self.block_models());
        let ghost args = self.arg_names();
        let n = self.blocks.len();
        let mut worklist: Vec<u32> = Vec::new();
        let mut inputs: Vec<Vec<String>> = Vec::new();
        let mut outputs: Vec<Vec<String>> = Vec::new();
        let mut i: usize = 0;
        while i + 1 < n
            invariant
                1 <= n <= u32::MAX,
                i < n,
                worklist@ == Seq::new(i as nat, |k: int| k as u32),
                sets_view(inputs@) == Seq::new(i as nat, |b: int| Set::<Seq<char>>::empty()),
                sets_view(outputs@) == Seq::new(i as nat, |b: int| Set::<Seq<char>>::empty()),
                forall|b: int| 0 <= b < inputs.len() ==> distinct(#[trigger] inputs@[b]@),
                forall|b: int| 0 <= b < outputs.len() ==> distinct(#[trigger] outputs@[b]@),
            decreases n - i,
        {
            worklist.push(i as u32);
            let e1: Vec<String> = Vec::new();
            let e2: Vec<String> = Vec::new();
            assert(name_set(e1@) =~= Set::<Seq<char>>::empty());
            assert(name_set(e2@) =~= Set::<Seq<char>>::empty());
            let ghost pi = inputs@;
            let ghost po = outputs@;
            inputs.push(e1);
            outputs.push(e2);
            assert(sets_view(inputs@) =~= sets_view(pi).push(name_set(e1@)));
            assert(sets_view(outputs@) =~= sets_view(po).push(name_set(e2@)));
            assert(worklist@ =~= Seq::new(i as nat + 1, |k: int| k as u32));
            assert(sets_view(inputs@) =~= Seq::new(i as nat + 1, |b: int| Set::<Seq<char>>::empty()));
            assert(sets_view(outputs@) =~= Seq::new(i as nat + 1, |b: int| Set::<Seq<char>>::empty()));
            i += 1;
        }
        match &self.args {
            Some(args_v) => {
                let a = crate::names::names_from(args_v);
                let ghost pi = inputs@;
                if inputs.len() > 0 {
                    inputs.set(0, a);
                    assert(sets_view(inputs@) =~= sets_view(pi).update(0, name_set(a@)));
                } else {
                    inputs.push(a);
                    assert(sets_view(inputs@) =~= sets_view(pi).push(name_set(a@)));
                }
            },
            None => {},
        }
        assert(sets_view(inputs@) =~= rd_init_inputs(args, n - 1));
        assert(sets_view(outputs@) =~= ud_after(c, bs, args, 0).0);
        let ghost mut m: int = 0;
        let ghost mut pending: bool = false;
        proof {
            lemma_ud_after_shape(c, bs, args, 0);
        }
        while worklist.len() > 0
            invariant
                1 <= n <= u32::MAX,
                n == self.block_models().len(),
                c == self.cfg_view(),
                bs == instrs_of(self.block_models()),
                args == self.arg_names(),
                forall|b: u32| b < n - 1 ==> #[trigger] c.preds.contains_key(b),
                forall|b: u32, k: int| b < n - 1 && 0 <= k < c.preds_of(b).len() ==> #[trigger] c.preds_of(b)[k] < n - 1,
                0 <= m <= n - 1,
                outputs.len() == n - 1,
                inputs.len() == rd_init_inputs(args, n - 1).len(),
                forall|b: int| 0 <= b < outputs.len() ==> distinct(#[trigger] outputs@[b]@),
                forall|b: int| 0 <= b < inputs.len() ==> distinct(#[trigger] inputs@[b]@),
                sets_view(outputs@) == ud_after(c, bs, args, m).0,
                forall|b: int| 0 <= b < n - 1 - m ==> #[trigger] sets_view(inputs@)[b] == ud_after(c, bs, args, m).1[b],
                !pending ==> worklist@ == Seq::new((n - 1 - m) as nat, |k: int| k as u32),
                pending ==> m >= 1 && worklist@ == Seq::new((n - 1 - m) as nat, |k: int| k as u32).push((n - 1 - m) as u32),
                pending ==> sets_view(outputs@) == ud_step(c, bs, ud_after(c, bs, args, m - 1), n - 1 - m).0,
                pending ==> sets_view(inputs@)[n - 1 - m] == ud_step(c, bs, ud_after(c, bs, args, m - 1), n - 1 - m).1[n - 1 - m],
                pending ==> ud_after(c, bs, args, m - 1).0[n - 1 - m] == Set::<Seq<char>>::empty(),
            decreases 2 * worklist.len() - (if pending { 1int } else { 0int }),
        {
            let ghost wl0 = worklist@;
            let b = worklist.pop().unwrap();
            proof {
                if pending {
                    assert(worklist@ =~= Seq::new((n - 1 - m) as nat, |k: int| k as u32));
                } else {
                    assert(worklist@ =~= Seq::new((n - 2 - m) as nat, |k: int| k as u32));
                }
            }
            let bu = b as usize;
            let preds = self.cfg.get_predecessors(&b).unwrap();
            assert(preds@ == c.preds_of(b));
            let ghost o = sets_view(outputs@);
            let mut folded: Vec<String> = Vec::new();
            assert(name_set(folded@) =~= Set::<Seq<char>>::empty());
            assert(preds@.take(0) =~= Seq::<u32>::empty());
            let mut k: usize = 0;
            while k < preds.len()
                invariant
                    b < n - 1,
                    outputs.len() == n - 1,
                    o == sets_view(outputs@),
                    preds@ == c.preds_of(b),
                    forall|j: int| 0 <= j < preds@.len() ==> #[trigger] preds@[j] < n - 1,
                    k <= preds.len(),
                    distinct(folded@),
                    name_set(folded@) == symdiff_fold(o, preds@.take(k as int)),
                decreases preds.len() - k,
            {
                let q = preds[k] as usize;
                assert(preds@[k as int] < n - 1);
                assert(o[q as int] == name_set(outputs@[q as int]@));
                folded = symmetric_difference_names(&folded, &outputs[q]);
                assert(preds@.take(k as int + 1).drop_last() == preds@.take(k as int));
                assert(preds@.take(k as int + 1).last() == q as u32);
                k += 1;
            }
            assert(preds@.take(preds.len() as int) == preds@);
            let res = union_names(&folded, &inputs[bu]);
            let out_b = self.defined_insns_transfer(b, &res);
            let ghost iv = sets_view(inputs@);
            inputs.set(bu, res);
            let old_len = outputs[bu].len();
            let new_len = out_b.len();
            let ghost st_before = (o, iv);
            let ghost out_model = name_set(out_b@);
            proof {
                lemma_distinct_len(outputs@[bu as int]@);
                lemma_distinct_len(out_b@);
                assert(old_len == o[bu as int].len());
                assert(new_len == out_model.len());
                assert(bs[bu as int] == self.block_models()[bu as int].instrs);
            }
            outputs.set(bu, out_b);
            proof {
                let st_after = (sets_view(outputs@), sets_view(inputs@));
                assert(sets_view(outputs@) =~= ud_step(c, bs, st_before, bu as int).0);
                assert(sets_view(inputs@) =~= ud_step(c, bs, st_before, bu as int).1);
                if pending {
                    let prev = ud_after(c, bs, args, m - 1);
                    lemma_ud_after_shape(c, bs, args, m - 1);
                    assert(b as int == n - 1 - m);
                    let st1 = ud_step(c, bs, prev, b as int);
                    assert(st_before.0 == st1.0);
                    assert forall|j: int| 0 <= j < c.preds_of(b).len() implies #[trigger] c.preds_of(b)[j] < prev.0.len() by {}
                    lemma_ud_step_twice(c, bs, prev, b as int);
                    assert(ud_step(c, bs, st_before, b as int).0 == ud_step(c, bs, st1, b as int).0) by {
                        assert(st_before.1[b as int] == st1.1[b as int]);
                        assert(symdiff_fold(st_before.0, c.preds_of(b)) == symdiff_fold(st1.0, c.preds_of(b)));
                    }
                    assert(sets_view(outputs@) == o);
                    assert(sets_view(outputs@)[bu as int] == out_model);
                    assert(new_len == old_len);
                } else {
                    assert(b as int == n - 2 - m);
                    lemma_ud_after_shape(c, bs, args, m);
                    let prev = ud_after(c, bs, args, m);
                    assert(ud_after(c, bs, args, m + 1) == ud_step(c, bs, prev, b as int));
                    assert(st_before.0 == prev.0);
                    assert(st_before.1[b as int] == prev.1[b as int]);
                    assert(symdiff_fold(st_before.0, c.preds_of(b)) == symdiff_fold(prev.0, c.preds_of(b)));
                    assert(sets_view(outputs@) =~= ud_after(c, bs, args, m + 1).0);
                    assert(prev.0[b as int] == Set::<Seq<char>>::empty());
                    m = m + 1;
                    lemma_ud_after_shape(c, bs, args, m);
                    assert forall|j: int| 0 <= j < n - 1 - m implies #[trigger] sets_view(inputs@)[j] == ud_after(c, bs, args, m).1[j] by {
                        assert(sets_view(inputs@)[j] == iv[j]);
                    }
                }
            }
            if old_len != new_len {
                proof {
                    assert(!pending);
                }
                worklist.push(b);
                proof {
                    pending = true;
                }
            } else {
                proof {
                    pending = false;
                }
            }
        }
        assert(!pending);
        assert(m == n - 1);
        outputs
    }

    /// Every block but the last has a predecessor list, and none of its
    /// predecessors is the last block.
    pub open spec fn preds_ready(self) -> bool {
        let n = self.block_models().len();
        &&& forall|b: u32| b < n - 1 ==> #[trigger] self.cfg_view().preds.contains_key(b)
        &&& forall|b: u32, k: int| b < n - 1 && 0 <= k < self.cfg_view().preds_of(b).len()
            ==> #[trigger] self.cfg_view().preds_of(b)[k] < n - 1
    }

    /// The blocks of every variable are blocks of the function.
    pub open spec fn assigns_in_range(self) -> bool {
        forall|k: int, j: int| 0 <= k < self.assigns().len() && 0 <= j < self.assigns()[k].2.len()
            ==> #[trigger] self.assigns()[k].2[j] < self.block_models().len()
    }

    /// Every name that may reach the end of block `n - 2` unassigned is a variable.
    pub open spec fn undefs_assigned(self) -> bool {
        forall|x: Seq<char>|
            #[trigger] undefined_sets(self.cfg_view(), instrs_of(self.block_models()), self.arg_names())[self.block_models().len() - 2].contains(x)
                ==> var_index(self.assigns(), x) is Some
    }

    /// Every name that block 0 reads or assigns is a variable.
    pub open spec fn first_block_known(self) -> bool {
        &&& forall|i: int| 0 <= i < self.block_models()[0].gets.len()
            ==> get_known(initial_stacks(self.assigns()), #[trigger] self.block_models()[0].gets[i])
        &&& forall|i: int| 0 <= i < self.block_models()[0].instrs.len()
            ==> instr_known(initial_stacks(self.assigns()), #[trigger] self.block_models()[0].instrs[i])
    }

    fn check_preds(&self) -> (r: bool)
        requires
            2 <= self.block_models().len() <= u32::MAX,
        ensures
            r == self.preds_ready(),
    {
        let ghost c = self.cfg_view();
        let n = self.blocks.len();
        let last = (n - 1) as u32;
        let mut b: u32 = 0;
        while b < last
            invariant
                n == self.block_models().len(),
                2 <= n <= u32::MAX,
                last == n - 1,
                b <= last,
                c == self.cfg_view(),
                forall|b2: u32| b2 < b ==> #[trigger] c.preds.contains_key(b2),
                forall|b2: u32, k: int| b2 < b && 0 <= k < c.preds_of(b2).len() ==> #[trigger] c.preds_of(b2)[k] < last,
            decreases last - b,
        {
            match self.cfg.get_predecessors(&b) {
                None => {
                    assert(!c.preds.contains_key(b));
                    return false;
                },
                Some(ps) => {
                    let mut k: usize = 0;
                    while k < ps.len()
                        invariant
                            b < last,
                            last == n - 1,
                            n == self.block_models().len(),
                            c == self.cfg_view(),
                            k <= ps.len(),
                            ps@ == c.preds_of(b),
                            forall|k2: int| 0 <= k2 < k ==> #[trigger] c.preds_of(b)[k2] < last,
                        decreases ps.len() - k,
                    {
                        if ps[k] >= last {
                            assert(c.preds_of(b)[k as int] >= last);
                            return false;
                        }
                        k += 1;
                    }
                },
            }
            b += 1;
        }
        true
    }

    fn check_assigns(&self) -> (r: bool)
        ensures
            r == self.assigns_in_range(),
    {
        let ghost vars = self.assigns();
        let n = self.blocks.len();
        let nv = self.variable_assigns.len();
        let mut k: usize = 0;
        while k < nv
            invariant
                nv == self.variable_assigns.len(),
                nv == vars.len(),
                vars == self.assigns(),
                n == self.block_models().len(),
                k <= nv,
                forall|k2: int, j: int| 0 <= k2 < k && 0 <= j < vars[k2].2.len() ==> #[trigger] vars[k2].2[j] < n,
            decreases nv - k,
        {
            let bl = &self.variable_assigns[k].blocks;
            assert(vars[k as int].2 == bl@);
            let mut j: usize = 0;
            while j < bl.len()
                invariant
                    k < nv,
                    nv == vars.len(),
                    vars == self.assigns(),
                    n == self.block_models().len(),
                    vars[k as int].2 == bl@,
                    j <= bl.len(),
                    forall|j2: int| 0 <= j2 < j ==> #[trigger] vars[k as int].2[j2] < n,
                decreases bl.len() - j,
            {
                if bl[j] as usize >= n {
                    assert(vars[k as int].2[j as int] >= n);
                    return false;
                }
                j += 1;
            }
            k += 1;
        }
        true
    }

    fn check_undefs(&self) -> (r: bool)
        requires
            2 <= self.block_models().len() <= u32::MAX,
            self.preds_ready(),
        ensures
            r == self.undefs_assigned(),
    {
        let n = self.blocks.len();
        let ghost vars = self.assigns();
        let ghost us = undefined_sets(self.cfg_view(), instrs_of(self.block_models()), self.arg_names());
        let undefs = self.undefined_vars();
        proof {
            lemma_ud_after_shape(self.cfg_view(), instrs_of(self.block_models()), self.arg_names(), n - 1);
            assert(undefs.len() == n - 1);
        }
        let names = &undefs[n - 2];
        assert(us[n - 2] == name_set(names@)) by {
            assert(sets_view(undefs@)[n - 2] == name_set(undefs@[n - 2]@));
        }
        let mut i: usize = 0;
        while i < names.len()
            invariant
                i <= names.len(),
                vars == self.assigns(),
                n == self.block_models().len(),
                us == undefined_sets(self.cfg_view(), instrs_of(self.block_models()), self.arg_names()),
                us[n - 2] == name_set(names@),
                forall|m: int| 0 <= m < i ==> var_index(vars, #[trigger] crate::bril::strs_view(names@)[m]) is Some,
            decreases names.len() - i,
        {
            assert(crate::bril::strs_view(names@)[i as int] == names@[i as int]@);
            if find_var(&self.variable_assigns, &names[i]).is_none() {
                assert(crate::bril::strs_view(names@).contains(names@[i as int]@));
                assert(us[n - 2].contains(names@[i as int]@));
                return false;
            }
            i += 1;
        }
        assert forall|x: Seq<char>| #[trigger] us[n - 2].contains(x) implies var_index(vars, x) is Some by {
            assert(crate::bril::strs_view(names@).contains(x));
        }
        true
    }

    fn check_first_block(&self) -> (r: bool)
        requires
            self.block_models().len() >= 1,
        ensures
            r == self.first_block_known(),
    {
        let ghost vars = self.assigns();
        let stacks = self.initial_stack_list();
        let first = &self.blocks[0];
        assert(self.block_models()[0] == first@);
        let mut g: usize = 0;
        while g < first.get_instrs.len()
            invariant
                g <= first.get_instrs.len(),
                self.block_models().len() >= 1,
                vars == self.assigns(),
                self.block_models()[0] == first@,
                stacks_view(stacks@) == initial_stacks(vars),
                forall|m: int| 0 <= m < g ==> get_known(initial_stacks(vars), #[trigger] insns_view(first.get_instrs@)[m]),
            decreases first.get_instrs.len() - g,
        {
            if !get_has_stack(&stacks, &first.get_instrs[g]) {
                assert(self.block_models()[0].gets == insns_view(first.get_instrs@));
                assert(!get_known(initial_stacks(self.assigns()), self.block_models()[0].gets[g as int]));
                return false;
            }
            g += 1;
        }
        let mut m: usize = 0;
        while m < first.instructions.len()
            invariant
                m <= first.instructions.len(),
                self.block_models().len() >= 1,
                vars == self.assigns(),
                self.block_models()[0] == first@,
                forall|g2: int| 0 <= g2 < first.get_instrs.len() ==> get_known(initial_stacks(vars), #[trigger] insns_view(first.get_instrs@)[g2]),
                stacks_view(stacks@) == initial_stacks(vars),
                forall|m2: int| 0 <= m2 < m ==> instr_known(initial_stacks(vars), #[trigger] insns_view(first.instructions@)[m2]),
            decreases first.instructions.len() - m,
        {
            if !instr_has_stacks(&stacks, &first.instructions[m]) {
                assert(self.block_models()[0].instrs == insns_view(first.instructions@));
                assert(!instr_known(initial_stacks(self.assigns()), self.block_models()[0].instrs[m as int]));
                return false;
            }
            m += 1;
        }
        true
    }

    /// Whether the conversion can run on the context: there are at least two
    /// blocks, their predecessor lists are ready, the variables' blocks are
    /// blocks of the function, the names that may reach block `n - 2`
    /// unassigned are variables, and block 0 reads and assigns variables only.
    pub fn ssa_ready(&self) -> (r: bool)
        requires
            self.block_models().len() <= u32::MAX,
        ensures
            r == (2 <= self.block_models().len() && self.preds_ready() && self.assigns_in_range()
                && self.undefs_assigned() && self.first_block_known()),
    {
        if self.blocks.len() < 2 {
            return false;
        }
        if !self.check_preds() {
            return false;
        }
        if !self.check_assigns() {
            return false;
        }
        if !self.check_undefs() {
            return false;
        }
        self.check_first_block()
    }

    /// Converts the function towards SSA form: computes the dominator sets,
    /// places the `set` and `get` instructions of every variable, renames
    /// block 0, and returns the function whose instructions are, block by
    /// block, the `get` instructions, the instructions and the `set`
    /// instructions, followed by an `undef` of each name that may reach the
    /// end of block `n - 2` without being assigned on every path.
    pub fn ssa_convert(&mut self) -> (r: Function)
        requires
            2 <= old(self).block_models().len() <= u32::MAX,
            old(self).cfg_view().bounded(old(self).block_models().len() as nat),
            old(self).preds_ready(),
            old(self).assigns_in_range(),
            forall|k: int| 0 <= k < old(self).assigns().len() ==> phi_halts(
                dominators_of(old(self).cfg_view(), old(self).block_models().len() as int, false),
                #[trigger] old(self).assigns()[k].2,
            ),
            old(self).undefs_assigned(),
            old(self).first_block_known(),
        ensures
            final(self).dominator_sets() == dominators_of(old(self).cfg_view(), old(self).block_models().len() as int, false),
            final(self).block_models() == place_upto(
                old(self).block_models(),
                final(self).dominator_sets(),
                old(self).assigns(),
                old(self).assigns().len() as int,
            ),
            final(self).block_names() == old(self).block_names(),
            final(self).cfg_view() == old(self).cfg_view(),
            final(self).assigns() == old(self).assigns(),
            final(self).arg_names() == old(self).arg_names(),
            final(self).func_name() == old(self).func_name(),
            final(self).func_type() == old(self).func_type(),
            r.name@ == old(self).func_name(),
            opt_strs_view(r.args) == old(self).arg_names(),
            (match r.func_type {
                Some(t) => Some(t@),
                None => None,
            }) == old(self).func_type(),
            exists|u: Seq<Seq<char>>|
                u.no_duplicates() && u.to_set() == undefined_sets(old(self).cfg_view(), instrs_of(old(self).block_models()), old(self).arg_names())[old(self).block_models().len() - 2]
                    && insns_view(r.instructions@) == flatten(renamed_blocks(final(self).block_models(), old(self).assigns()))
                        + u.map_values(|x: Seq<char>| undef_instr(type_of(old(self).assigns(), x), x)),
    {
        broadcast use vstd::string::group_string_axioms;
        let ghost old_self = *self;
        let ghost bm0 = self.block_models();
        let ghost vars = self.assigns();
        let ghost c = self.cfg_view();
        let ghost args = self.arg_names();
        self.construct_dominators();
        let ghost doms = self.dominator_sets();
        let n = self.blocks.len();
        // the renaming stacks: each variable with its own name
        let stacks = self.initial_stack_list();
        self.place_phis();
        let ghost placed = self.block_models();
        proof {
            lemma_place_upto_from(bm0, doms, vars, vars.len() as int);
            assert(instrs_of(placed) =~= instrs_of(bm0));
        }
        // the `undef` instructions
        let undefs_all = self.undefined_vars();
        proof {
            lemma_ud_after_shape(c, instrs_of(bm0), args, n - 1);
            assert(sets_view(undefs_all@) == undefined_sets(c, instrs_of(bm0), args));
            assert(undefs_all.len() == n - 1);
        }
        let undefs = &undefs_all[n - 2];
        let ghost uset = undefined_sets(c, instrs_of(bm0), args)[n - 2];
        assert(name_set(undefs@) == uset) by {
            assert(sets_view(undefs_all@)[n - 2] == name_set(undefs_all@[n - 2]@));
        }
        assert(crate::names::distinct(undefs@));
        let mut undefs_insns: Vec<InsnType> = Vec::new();
        let mut i: usize = 0;
        while i < undefs.len()
            invariant
                i <= undefs.len(),
                vars == self.assigns(),
                name_set(undefs@) == uset,
                forall|x: Seq<char>| #[trigger] uset.contains(x) ==> var_index(vars, x) is Some,
                insns_view(undefs_insns@) == crate::bril::strs_view(undefs@).take(i as int).map_values(
                    |x: Seq<char>| undef_instr(type_of(vars, x), x),
                ),
            decreases undefs.len() - i,
        {
            let var = &undefs[i];
            assert(crate::bril::strs_view(undefs@)[i as int] == var@);
            assert(uset.contains(var@));
            proof {
                lemma_var_index(vars, var@);
            }
            let k = find_var(&self.variable_assigns, var).unwrap();
            let insn = InsnType::ValOp {
                op: "undef".to_string(),
                insn_type: self.variable_assigns[k].insn_type.clone(),
                dest: var.clone(),
                args: None,
                funcs: None,
            };
            assert(insn@ == undef_instr(type_of(vars, var@), var@));
            let ghost prev = undefs_insns@;
            undefs_insns.push(insn);
            assert(insns_view(undefs_insns@) =~= insns_view(prev).push(undef_instr(type_of(vars, var@), var@)));
            assert(crate::bril::strs_view(undefs@).take(i as int + 1) =~= crate::bril::strs_view(undefs@).take(i as int).push(var@));
            i += 1;
        }
        assert(crate::bril::strs_view(undefs@).take(undefs.len() as int) == crate::bril::strs_view(undefs@));
        let new_block = Block {
            instructions: undefs_insns,
            name: BlockName(n as u32),
            set_instrs: Vec::new(),
            get_instrs: Vec::new(),
        };
        // rename a copy of the blocks
        let mut copies: Vec<Block> = Vec::new();
        let mut b: usize = 0;
        while b < n
            invariant
                n == self.blocks.len(),
                placed == self.block_models(),
                b <= n,
                copies.len() == b,
                ssa_blocks_view(copies@) == placed.take(b as int),
            decreases n - b,
        {
            let cb = copy_block(&self.blocks[b]);
            let ghost prev = copies@;
            copies.push(cb);
            assert(ssa_blocks_view(copies@) =~= ssa_blocks_view(prev).push(placed[b as int]));
            b += 1;
        }
        assert(placed.take(n as int) == placed);
        proof {
            let st = initial_stacks(vars);
            assert forall|x: int| 0 <= x < vars.len() implies known(st, #[trigger] vars[x].0) by {
                lemma_stack_index(st, vars[x].0);
                if stack_index(st, vars[x].0) is None {
                    assert(st[x].0 == vars[x].0);
                }
            }
            assert forall|j: int| 0 <= j < copies@[0]@.gets.len() implies get_known(st, #[trigger] copies@[0]@.gets[j]) by {
                assert(copies@[0]@ == placed[0]);
                if j < bm0[0].gets.len() && placed[0].gets[j] == bm0[0].gets[j] {
                } else {
                    let i2 = choose|i2: int| 0 <= i2 < vars.len() && placed[0].gets[j] == get_instr(vars[i2].1, vars[i2].0);
                    assert(known(st, vars[i2].0));
                    lemma_stack_index(st, vars[i2].0);
                }
            }
            assert forall|j: int| 0 <= j < copies@[0]@.instrs.len() implies instr_known(st, #[trigger] copies@[0]@.instrs[j]) by {
                assert(copies@[0]@ == placed[0]);
                assert(placed[0].instrs == bm0[0].instrs);
            }
        }
        let mut ssa_blocks = self.rename(0, stacks, copies);
        let ghost renamed = ssa_blocks_view(ssa_blocks@);
        assert(renamed =~= renamed_blocks(placed, vars));
        let ghost nbm = new_block@;
        ssa_blocks.push(new_block);
        // the instructions, block by block
        let mut final_instrs: Vec<InsnType> = Vec::new();
        let mut b: usize = 0;
        assert(insns_view(final_instrs@) =~= Seq::<Instr>::empty());
        let ghost all = ssa_blocks_view(ssa_blocks@);
        assert(all =~= renamed.push(nbm));
        while b < ssa_blocks.len()
            invariant
                b <= ssa_blocks.len(),
                all == ssa_blocks_view(ssa_blocks@),
                insns_view(final_instrs@) == flatten(all.take(b as int)),
            decreases ssa_blocks.len() - b,
        {
            let blk = &ssa_blocks[b];
            assert(all[b as int] == blk@);
            crate::bril::extend_insns(&mut final_instrs, &blk.get_instrs);
            crate::bril::extend_insns(&mut final_instrs, &blk.instructions);
            crate::bril::extend_insns(&mut final_instrs, &blk.set_instrs);
            assert(all.take(b as int + 1).drop_last() == all.take(b as int));
            assert(all.take(b as int + 1).last() == blk@);
            b += 1;
        }
        assert(all.take(ssa_blocks.len() as int) == all);
        proof {
            let u = crate::bril::strs_view(undefs@);
            assert(flatten(all) == flatten(renamed) + nbm.gets + nbm.instrs + nbm.sets) by {
                assert(all.drop_last() == renamed);
            }
            assert(nbm.gets =~= Seq::<Instr>::empty());
            assert(nbm.sets =~= Seq::<Instr>::empty());
            assert(flatten(all) =~= flatten(renamed) + u.map_values(|x: Seq<char>| undef_instr(type_of(vars, x), x)));
            assert(u.to_set() == uset);
        }
        Function {
            args: copy_opt_strs(&self.args),
            name: self.name.clone(),
            instructions: final_instrs,
            func_type: match &self.fn_type {
                Some(t) => Some(t.clone()),
                None => None,
            },
        }
    }

    /// Renames block `block_idx` of `ssa_blocks`: each `get` takes the
    /// bottom name of its variable's stack, each constant and value operation
    /// a new numbered name, each argument the bottom name of its stack.
    fn rename(&self, block_idx: u32, stacks: Vec<(String, Vec<String>)>, ssa_blocks: Vec<Block>) -> (r: Vec<Block>)
        requires
            block_idx < ssa_blocks.len(),
            forall|i: int| 0 <= i < ssa_blocks@[block_idx as int]@.gets.len()
                ==> get_known(stacks_view(stacks@), #[trigger] ssa_blocks@[block_idx as int]@.gets[i]),
            forall|i: int| 0 <= i < ssa_blocks@[block_idx as int]@.instrs.len()
                ==> instr_known(stacks_view(stacks@), #[trigger] ssa_blocks@[block_idx as int]@.instrs[i]),
        ensures
            r.len() == ssa_blocks.len(),
            forall|i: int| 0 <= i < r.len() ==> (#[trigger] r@[i]).name == ssa_blocks@[i].name,
            ssa_blocks_view(r@) == ssa_blocks_view(ssa_blocks@).update(
                block_idx as int,
                BlockModel {
                    instrs: rename_seq(stacks_view(stacks@), ssa_blocks@[block_idx as int]@.instrs).0,
                    sets: ssa_blocks@[block_idx as int]@.sets,
                    gets: ssa_blocks@[block_idx as int]@.gets.map_values(|g: Instr| rename_get(stacks_view(stacks@), g)),
                },
            ),
    {
        let ghost st0 = stacks_view(stacks@);
        let ghost blocks0 = ssa_blocks@;
        let mut stacks = stacks;
        let mut ssa_blocks = ssa_blocks;
        let bi = block_idx as usize;
        let mut blk = ssa_blocks.remove(bi);
        let ghost bm = blk@;
        assert(bm == blocks0[bi as int]@);
        let mut new_gets: Vec<InsnType> = Vec::new();
        let mut i: usize = 0;
        while i < blk.get_instrs.len()
            invariant
                i <= blk.get_instrs.len(),
                bm.gets == insns_view(blk.get_instrs@),
                st0 == stacks_view(stacks@),
                forall|j: int| 0 <= j < bm.gets.len() ==> get_known(st0, #[trigger] bm.gets[j]),
                insns_view(new_gets@) == bm.gets.take(i as int).map_values(|g: Instr| rename_get(st0, g)),
            decreases blk.get_instrs.len() - i,
        {
            let g = &blk.get_instrs[i];
            assert(bm.gets[i as int] == g@);
            assert(get_known(st0, g@));
            let ng = rename_get_one(&stacks, g);
            let ghost prev = new_gets@;
            new_gets.push(ng);
            assert(insns_view(new_gets@) =~= insns_view(prev).push(ng@));
            assert(bm.gets.take(i as int + 1) =~= bm.gets.take(i as int).push(bm.gets[i as int]));
            i += 1;
        }
        assert(bm.gets.take(blk.get_instrs.len() as int) == bm.gets);
        let mut new_instrs: Vec<InsnType> = Vec::new();
        let mut j: usize = 0;
        assert(insns_view(new_instrs@) =~= Seq::<Instr>::empty());
        assert(bm.instrs.take(0) =~= Seq::<Instr>::empty());
        while j < blk.instructions.len()
            invariant
                j <= blk.instructions.len(),
                bm.instrs == insns_view(blk.instructions@),
                forall|k: int| 0 <= k < bm.instrs.len() ==> instr_known(st0, #[trigger] bm.instrs[k]),
                (insns_view(new_instrs@), stacks_view(stacks@)) == rename_seq(st0, bm.instrs.take(j as int)),
            decreases blk.instructions.len() - j,
        {
            let x = &blk.instructions[j];
            assert(bm.instrs[j as int] == x@);
            proof {
                let pre = bm.instrs.take(j as int);
                assert forall|k: int| 0 <= k < pre.len() implies instr_known(st0, #[trigger] pre[k]) by {
                    assert(pre[k] == bm.instrs[k]);
                }
                lemma_rename_seq_keeps(st0, pre);
                let cur = rename_seq(st0, pre).1;
                lemma_known_kept(st0, cur, x@);
            }
            let y = rename_one(&mut stacks, x);
            let ghost prev = new_instrs@;
            new_instrs.push(y);
            assert(insns_view(new_instrs@) =~= insns_view(prev).push(y@));
            assert(bm.instrs.take(j as int + 1).drop_last() == bm.instrs.take(j as int));
            assert(bm.instrs.take(j as int + 1).last() == x@);
            j += 1;
        }
        assert(bm.instrs.take(blk.instructions.len() as int) == bm.instrs);
        blk.get_instrs = new_gets;
        blk.instructions = new_instrs;
        let ghost nb = blk;
        ssa_blocks.insert(bi, blk);
        assert(ssa_blocks_view(ssa_blocks@) =~= ssa_blocks_view(blocks0).update(
            bi as int,
            BlockModel {
                instrs: rename_seq(st0, bm.instrs).0,
                sets: bm.sets,
                gets: bm.gets.map_values(|g: Instr| rename_get(st0, g)),
            },
        ));
        assert forall|i: int| 0 <= i < ssa_blocks.len() implies (#[trigger] ssa_blocks@[i]).name == blocks0[i].name by {}
        ssa_blocks
    }

    /// Places the `set` and `get` instructions of every variable: for each
    /// variable, in order, its defining blocks form a stack; each block taken
    /// from the stack gets a `set` of the variable, each block of its
    /// frontier a `get`, and each block of its frontier that was taken
    /// before and is not on the stack goes back on it.
    fn place_phis(&mut self)
        requires
            old(self).dominator_sets().len() == old(self).block_models().len(),
            old(self).block_models().len() <= u32::MAX,
            square(old(self).dominator_sets(), old(self).block_models().len() as int),
            forall|k: int, j: int| 0 <= k < old(self).assigns().len() && 0 <= j < old(self).assigns()[k].2.len()
                ==> #[trigger] old(self).assigns()[k].2[j] < old(self).block_models().len(),
            forall|k: int| 0 <= k < old(self).assigns().len() ==> phi_halts(old(self).dominator_sets(), #[trigger] old(self).assigns()[k].2),
        ensures
            final(self).block_models() == place_upto(old(self).block_models(), old(self).dominator_sets(), old(self).assigns(), old(self).assigns().len() as int),
            final(self).block_names() == old(self).block_names(),
            final(self).cfg_view() == old(self).cfg_view(),
            final(self).dominator_sets() == old(self).dominator_sets(),
            final(self).assigns() == old(self).assigns(),
            final(self).arg_names() == old(self).arg_names(),
            final(self).func_name() == old(self).func_name(),
            final(self).func_type() == old(self).func_type(),
    {
        broadcast use vstd::string::group_string_axioms;
        let ghost bm0 = self.block_models();
        let ghost names0 = self.block_names();
        let ghost doms = self.dominator_sets();
        let ghost vars = self.assigns();
        let ghost old_self = *self;
        let n = self.blocks.len();
        let nv = self.variable_assigns.len();
        let mut k: usize = 0;
        while k < nv
            invariant
                n == self.blocks.len(),
                n <= u32::MAX,
                nv == self.variable_assigns.len(),
                doms == self.dominator_sets(),
                vars == self.assigns(),
                doms.len() == n,
                square(doms, n as int),
                forall|k: int, j: int| 0 <= k < vars.len() && 0 <= j < vars[k].2.len() ==> #[trigger] vars[k].2[j] < n,
                forall|k: int| 0 <= k < vars.len() ==> phi_halts(doms, #[trigger] vars[k].2),
                k <= nv,
                self.block_models() == place_upto(bm0, doms, vars, k as int),
                self.block_names() == names0,
                self.cfg_view() == old_self.cfg_view(),
                self.arg_names() == old_self.arg_names(),
                self.func_name() == old_self.func_name(),
                self.func_type() == old_self.func_type(),
            decreases nv - k,
        {
            let v = self.variable_assigns[k].var.clone();
            let t = self.variable_assigns[k].insn_type.clone();
            let ghost ds0 = vars[k as int].2;
            assert(v@ == vars[k as int].0 && t@ == vars[k as int].1);
            let mut defs: Vec<u32> = Vec::new();
            let mut j: usize = 0;
            while j < self.variable_assigns[k].blocks.len()
                invariant
                    k < nv,
                    nv == self.variable_assigns.len(),
                    vars == self.assigns(),
                    ds0 == vars[k as int].2,
                    j <= ds0.len(),
                    defs@ == ds0.take(j as int),
                decreases ds0.len() - j,
            {
                defs.push(self.variable_assigns[k].blocks[j]);
                assert(defs@ =~= ds0.take(j as int + 1));
                j += 1;
            }
            assert(ds0.take(ds0.len() as int) == ds0);
            let mut seen: Vec<u32> = Vec::new();
            let ghost fuel0: nat = choose|fuel: nat| #[trigger] phi_run(doms, ds0, Set::empty(), fuel) is Some;
            let ghost total = phi_visits(doms, ds0);
            let ghost mut fuel: nat = fuel0;
            let ghost mut visited: Seq<u32> = Seq::empty();
            let ghost base = self.block_models();
            assert(seen@.to_set() =~= Set::<u32>::empty());
            assert(phi_halts(doms, ds0));
            assert(visit_all(base, doms, v@, t@, visited) == base);
            assert(visited + phi_run(doms, defs@, seen@.to_set(), fuel).unwrap() =~= total);
            while defs.len() > 0
                invariant
                    n == self.blocks.len(),
                    n <= u32::MAX,
                    doms == self.dominator_sets(),
                    doms.len() == n,
                    square(doms, n as int),
                    forall|x: int| 0 <= x < defs.len() ==> #[trigger] defs@[x] < n,
                    forall|x: int| 0 <= x < seen.len() ==> #[trigger] seen@[x] < n,
                    phi_run(doms, defs@, seen@.to_set(), fuel) is Some,
                    visited + phi_run(doms, defs@, seen@.to_set(), fuel).unwrap() == total,
                    self.block_models() == visit_all(base, doms, v@, t@, visited),
                    base.len() == n,
                    self.block_names() == names0,
                    self.cfg_view() == old_self.cfg_view(),
                    self.assigns() == vars,
                    self.arg_names() == old_self.arg_names(),
                    self.func_name() == old_self.func_name(),
                    self.func_type() == old_self.func_type(),
                decreases fuel,
            {
                let ghost defs_before = defs@;
                let ghost seen_before = seen@.to_set();
                let ghost seen_seq0 = seen@;
                let d = defs.pop().unwrap();
                assert(defs_before.last() == d);
                assert(defs_before.drop_last() == defs@);
                assert(d < n);
                seen.push(d);
                let ghost seen2 = seen@.to_set();
                assert(seen@ == seen_seq0.push(d));
                assert forall|x: u32| seen2.contains(x) <==> seen_before.insert(d).contains(x) by {
                    if seen2.contains(x) && x != d {
                        let i = choose|i: int| 0 <= i < seen@.len() && seen@[i] == x;
                        assert(seen_seq0[i] == x);
                    }
                    if seen_before.contains(x) {
                        let i = choose|i: int| 0 <= i < seen_seq0.len() && seen_seq0[i] == x;
                        assert(seen@[i] == x);
                    }
                    if x == d {
                        assert(seen@[seen_seq0.len() as int] == x);
                    }
                }
                assert(seen2 =~= seen_before.insert(d));
                assert(fuel > 0);
                let ghost rest = phi_run(doms, defs_before, seen_before, fuel).unwrap();
                let ghost defs_after_pop = defs@;
                let set_insn = InsnType::Effect { op: "set".to_string(), args: Some(vec![v.clone(), v.clone()]) };
                assert(set_insn@ == set_instr(v@)) by {
                    assert(crate::bril::strs_view(seq![v, v]) =~= seq![v@, v@]);
                }
                let ghost bm_before = self.block_models();
                push_phi_instr(&mut self.blocks, d as usize, set_insn, true);
                let f = self.dominance_frontier(d);
                let mut b: usize = 0;
                while b < n
                    invariant
                        n == self.blocks.len(),
                        n <= u32::MAX,
                        doms == self.dominator_sets(),
                        doms.len() == n,
                        square(doms, n as int),
                        d < n,
                        f@ == frontier_of(doms, d as int),
                        b <= n,
                        forall|x: int| 0 <= x < defs.len() ==> #[trigger] defs@[x] < n,
                        forall|x: int| 0 <= x < seen.len() ==> #[trigger] seen@[x] < n,
                        seen2 == seen@.to_set(),
                        defs@ == phi_push(frontier_upto(doms, d, b as int), defs_after_pop, seen2),
                        bm_before.len() == n,
                        self.block_models() == visit_below(bm_before, doms, v@, t@, d, b as int),
                        self.block_names() == names0,
                        self.cfg_view() == old_self.cfg_view(),
                        self.assigns() == vars,
                        self.arg_names() == old_self.arg_names(),
                        self.func_name() == old_self.func_name(),
                        self.func_type() == old_self.func_type(),
                    decreases n - b,
                {
                    let bb = b as u32;
                    let ghost bm_mid = self.block_models();
                    let ghost defs_mid = defs@;
                    if f.contains(&bb) {
                        let get_insn = InsnType::ValOp {
                            op: "get".to_string(),
                            insn_type: t.clone(),
                            dest: v.clone(),
                            args: None,
                            funcs: None,
                        };
                        assert(get_insn@ == get_instr(t@, v@));
                        push_phi_instr(&mut self.blocks, b, get_insn, false);
                        if contains_u32(&seen, bb) && !contains_u32(&defs, bb) {
                            defs.push(bb);
                        }
                        assert(frontier_upto(doms, d, b as int + 1) == frontier_upto(doms, d, b as int).push(bb));
                        assert(frontier_upto(doms, d, b as int).push(bb).drop_last() == frontier_upto(doms, d, b as int));
                    } else {
                        assert(frontier_upto(doms, d, b as int + 1) == frontier_upto(doms, d, b as int));
                    }
                    proof {
                        let target = visit_below(bm_before, doms, v@, t@, d, b as int + 1);
                        assert(self.block_models().len() == target.len());
                        assert forall|x: int| 0 <= x < n implies self.block_models()[x] == target[x] by {
                            assert(bm_mid[x] == visit_below(bm_before, doms, v@, t@, d, b as int)[x]);
                            if x == b as int {
                                assert((x as u32) == bb);
                            } else {
                                assert(self.block_models()[x] == bm_mid[x]);
                            }
                        }
                        assert(self.block_models() =~= target);
                    }
                    b += 1;
                }
                proof {
                    assert(self.block_models() =~= visit(bm_before, doms, v@, t@, d)) by {
                        assert forall|x: int| 0 <= x < n implies self.block_models()[x] == visit(bm_before, doms, v@, t@, d)[x] by {
                            assert(self.block_models()[x] == visit_below(bm_before, doms, v@, t@, d, n as int)[x]);
                        }
                    }
                    assert(visited.push(d).drop_last() == visited);
                    visited = visited.push(d);
                    fuel = (fuel - 1) as nat;
                    assert(visited + phi_run(doms, defs@, seen@.to_set(), fuel).unwrap() =~= total);
                }
            }
            proof {
                assert(phi_run(doms, defs@, seen@.to_set(), fuel).unwrap() == Seq::<u32>::empty());
                assert(visited =~= total);
            }
            k += 1;
        }
    }

    /// The blocks not dominated by `block_idx` whose dominator set holds a
    /// block that `block_idx` dominates.
    pub fn dominance_frontier(&self, block_idx: u32) -> (r: HashSet<u32>)
        requires
            self.dominator_sets().len() <= u32::MAX,
            square(self.dominator_sets(), self.dominator_sets().len() as int),
        ensures
            r@ == frontier_of(self.dominator_sets(), block_idx as int),
    {
        frontier(&self.dominators, block_idx)
    }
}

} // verus!
