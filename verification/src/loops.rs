use std::collections::{HashMap, HashSet};
use vstd::prelude::*;
use crate::bril::{
    Function, InsnType, Instr, blocks_view, insns_view, is_terminator, split_blocks, split_state,
    split_into_blocks, lemma_split_shape, copy_insns, strs_view, str_eq, find_label, label_target,
};
use crate::cfg::{
    Cfg, CfgView, add_edges, edges_upto, labels_resolve, all_nonempty, link_blocks, unlinked,
    lemma_add_edges_bounded, lemma_edges_bounded, lemma_add_edges_keeps_keys, lemma_add_edges_symmetric,
};
use crate::licm::Licm;
use vstd::std_specs::cmp::PartialEqSpecImpl;
use crate::reaching::{
    lemma_rd_done, lemma_rd_step, lemma_least_unique, lemma_total_bound, lemma_total_update, lemma_universe,
    name_universe, preds_union, rd_entry, rd_inv, rd_least, rd_next_w, rd_solution, reaching_sets, sets_view, total,
};
use crate::names::{distinct, lemma_distinct_len, name_set, union_names};
use crate::dominance::{
    bitmaps_view, compute_dominators, dominators_of, frontier, frontier_of, square,
};

verus! {

/// The name of a block: its index in the function.
#[derive(PartialEq, Eq, Structural, Clone, Copy, Hash)]
pub struct BlockName(pub u32);

/// A basic block.
pub struct Block {
    pub name: BlockName,
    pub instructions: Vec<InsnType>,
}

/// Two blocks are the same block when they have the same name.
impl PartialEq for Block {
    fn eq(&self, other: &Self) -> (r: bool) {
        self.name == other.name
    }
}

impl PartialEqSpecImpl for Block {
    open spec fn obeys_eq_spec() -> bool {
        true
    }

    open spec fn eq_spec(&self, other: &Block) -> bool {
        self.name == other.name
    }
}

impl Eq for Block {}

/// The models of the instructions of each block.
pub open spec fn block_models(blocks: Seq<Block>) -> Seq<Seq<Instr>> {
    blocks.map_values(|b: Block| insns_view(b.instructions@))
}

/// A function that the CFG can be built for: it holds an instruction and
/// does not end with a terminator (so that no block is empty), every label
/// that a `br` or `jmp` names opens a block, and its blocks can be counted
/// in a `u32`.
pub open spec fn cfg_ready(f: Function, follow_jumps: bool) -> bool {
    let s = insns_view(f.instructions@);
    &&& s.len() > 0
    &&& !is_terminator(s.last())
    &&& s.len() < u32::MAX
    &&& labels_resolve(split_blocks(s), follow_jumps)
}

/// Whether the CFG can be built for the function: it holds an instruction,
/// does not end with a terminator, has fewer than `u32::MAX` instructions,
/// and every label that a `br` (and, where `follow_jumps`, a `jmp`) names
/// opens a block.
pub fn function_ready(f: &Function, follow_jumps: bool) -> (r: bool)
    ensures
        r == cfg_ready(*f, follow_jumps),
{
    let ghost s = insns_view(f.instructions@);
    let n = f.instructions.len();
    if n == 0 || n >= 0xffff_ffffusize {
        return false;
    }
    assert(s.last() == f.instructions@[n - 1]@);
    match &f.instructions[n - 1] {
        InsnType::Terminator { .. } => {
            return false;
        },
        _ => {},
    }
    proof {
        lemma_split_shape(s);
    }
    let raw = split_into_blocks(&f.instructions);
    let ghost bs = blocks_view(raw@);
    proof {
        assert forall|k: int| 0 <= k < bs.len() implies (#[trigger] bs[k]).len() > 0 by {
            if k < split_state(s).0.len() {
                assert(bs[k] == split_state(s).0[k]);
            }
        }
    }
    let mut i: usize = 0;
    while i < raw.len()
        invariant
            i <= raw.len(),
            bs == blocks_view(raw@),
            bs == split_blocks(s),
            s == insns_view(f.instructions@),
            all_nonempty(bs),
            forall|j: int| 0 <= j < i ==> #[trigger] crate::cfg::block_resolves(bs, j, follow_jumps),
        decreases raw.len() - i,
    {
        let block = &raw[i];
        assert(bs[i as int] == insns_view(block@));
        assert(bs[i as int].len() > 0);
        let last = &block[block.len() - 1];
        assert(bs[i as int].last() == last@);
        match last {
            InsnType::Terminator { op, labels, .. } => {
                if str_eq(op.as_str(), "br") || (follow_jumps && str_eq(op.as_str(), "jmp")) {
                    let mut j: usize = 0;
                    while j < labels.len()
                        invariant
                            i < raw.len(),
                            j <= labels.len(),
                            bs == blocks_view(raw@),
                            bs == split_blocks(s),
                            s == insns_view(f.instructions@),
                            bs[i as int].len() > 0,
                            bs[i as int].last() == last@,
                            last@ matches Instr::Terminator { op: o, labels: ls, .. } && (o == "br"@
                                || (follow_jumps && o == "jmp"@)) && ls == strs_view(labels@),
                            forall|m: int| 0 <= m < j ==> label_target(bs, #[trigger] strs_view(labels@)[m]) is Some,
                        decreases labels.len() - j,
                    {
                        assert(strs_view(labels@)[j as int] == labels@[j as int]@);
                        if find_label(&raw, &labels[j]).is_none() {
                            assert(!crate::cfg::block_resolves(bs, i as int, follow_jumps));
                            assert(!labels_resolve(bs, follow_jumps));
                            return false;
                        }
                        j += 1;
                    }
                }
            },
            _ => {},
        }
        i += 1;
    }
    true
}

/// The blocks of a function, named by their index.
pub fn make_blocks(raw: &Vec<Vec<InsnType>>) -> (r: Vec<Block>)
    requires
        raw.len() <= u32::MAX,
    ensures
        block_models(r@) == blocks_view(raw@),
        forall|i: int| 0 <= i < r.len() ==> (#[trigger] r@[i]).name == BlockName(i as u32),
{
    let mut r: Vec<Block> = Vec::new();
    let mut i: usize = 0;
    while i < raw.len()
        invariant
            i <= raw.len(),
            raw.len() <= u32::MAX,
            block_models(r@) == blocks_view(raw@).take(i as int),
            forall|k: int| 0 <= k < r.len() ==> (#[trigger] r@[k]).name == BlockName(k as u32),
            r.len() == i,
        decreases raw.len() - i,
    {
        let instructions = copy_insns(&raw[i]);
        let ghost prev = r@;
        r.push(Block { name: BlockName(i as u32), instructions });
        assert(block_models(r@) =~= blocks_view(raw@).take(i as int + 1)) by {
            assert(r@ == prev.push(r@[i as int]));
        }
        i = i + 1;
    }
    assert(blocks_view(raw@).take(raw.len() as int) == blocks_view(raw@));
    r
}

/// `path` walks backward along predecessor edges and never enters `avoid`.
pub open spec fn is_back_walk(c: CfgView, path: Seq<u32>, avoid: Set<u32>) -> bool {
    &&& path.len() > 0
    &&& forall|i: int| 0 <= i < path.len() ==> !avoid.contains(#[trigger] path[i])
    &&& forall|i: int| 0 <= i < path.len() - 1 ==> #[trigger] c.preds_of(path[i]).contains(path[i + 1])
}

/// Block `to` can be reached from block `from` by walking backward along
/// predecessor edges without entering `avoid`.
pub open spec fn back_reachable(c: CfgView, from: u32, to: u32, avoid: Set<u32>) -> bool {
    exists|path: Seq<u32>| #[trigger] is_back_walk(c, path, avoid) && path[0] == from && path.last() == to
}

/// The body of the loop of the back edge `tail -> head`: the blocks that
/// reach `tail` without passing through `head` (the header itself left out).
pub open spec fn loop_body(c: CfgView, tail: u32, head: u32) -> Set<u32> {
    Set::new(|v: u32| back_reachable(c, tail, v, set![head]))
}

/// The successor through which block `b` closes a loop: among its first `k`
/// successors, the last one that is in `b`'s dominator set.
pub open spec fn back_edge_target(c: CfgView, doms: Seq<Seq<bool>>, b: u32, k: int) -> Option<u32>
    decreases k,
{
    if k <= 0 {
        None
    } else {
        let s = c.succs_of(b)[k - 1];
        if s < doms[b as int].len() && doms[b as int][s as int] {
            Some(s)
        } else {
            back_edge_target(c, doms, b, k - 1)
        }
    }
}

/// The back edge that block `b` closes, if any.
pub open spec fn back_edge_of(c: CfgView, doms: Seq<Seq<bool>>, b: u32) -> Option<u32> {
    back_edge_target(c, doms, b, c.succs_of(b).len() as int)
}

/// A walk that starts with a step to a predecessor.
pub proof fn lemma_walk_prepend(c: CfgView, x: u32, path: Seq<u32>, avoid: Set<u32>, wider: Set<u32>)
    requires
        is_back_walk(c, path, wider),
        avoid.subset_of(wider),
        !avoid.contains(x),
        c.preds_of(x).contains(path[0]),
    ensures
        is_back_walk(c, seq![x] + path, avoid),
        (seq![x] + path)[0] == x,
        (seq![x] + path).last() == path.last(),
{
    let p2 = seq![x] + path;
    assert forall|i: int| 0 <= i < p2.len() implies !avoid.contains(#[trigger] p2[i]) by {
        if i > 0 {
            assert(p2[i] == path[i - 1]);
        }
    }
    assert forall|i: int| 0 <= i < p2.len() - 1 implies #[trigger] c.preds_of(p2[i]).contains(p2[i + 1]) by {
        if i == 0 {
            assert(p2[1] == path[0]);
        }
        if i > 0 {
            let k = i - 1;
            assert(p2[i] == path[k]);
            assert(p2[i + 1] == path[k + 1]);
            assert(c.preds_of(path[k]).contains(path[k + 1]));
        }
    }
}

proof fn lemma_walk_stays_in(c: CfgView, s: Set<u32>, old_set: Set<u32>, top: u32, path: Seq<u32>, i: int)
    requires
        is_back_walk(c, path, old_set.insert(top)),
        0 <= i < path.len(),
        s.contains(path[0]),
        forall|w: u32, p: u32|
            s.contains(w) && !old_set.contains(w) && #[trigger] c.preds_of(w).contains(p) ==> s.contains(p) || p == top,
    ensures
        s.contains(path[i]),
    decreases i,
{
    if i > 0 {
        lemma_walk_stays_in(c, s, old_set, top, path, i - 1);
        assert(!old_set.insert(top).contains(path[i - 1]));
        let k = i - 1;
        assert(c.preds_of(path[k]).contains(path[k + 1]));
        assert(!old_set.insert(top).contains(path[i]));
    }
}

/// A set that holds `curr` and, for each of its blocks outside `old`, every
/// predecessor other than `top`, holds every block that `curr` reaches
/// backward without entering `old` or passing through `top`.
pub proof fn lemma_closed_holds_reach(c: CfgView, s: Set<u32>, old_set: Set<u32>, curr: u32, top: u32, v: u32)
    requires
        curr != top ==> s.contains(curr),
        forall|w: u32, p: u32|
            s.contains(w) && !old_set.contains(w) && #[trigger] c.preds_of(w).contains(p) ==> s.contains(p) || p == top,
        back_reachable(c, curr, v, old_set.insert(top)),
    ensures
        s.contains(v),
{
    let path = choose|path: Seq<u32>| #[trigger] is_back_walk(c, path, old_set.insert(top)) && path[0] == curr
        && path.last() == v;
    assert(!old_set.insert(top).contains(path[0]));
    lemma_walk_stays_in(c, s, old_set, top, path, path.len() - 1);
}

/// The state of the passes over one function: its blocks, their
/// control-flow graph and their dominator sets.
pub struct FuncContext {
    args: Option<Vec<String>>,
    name: String,
    fn_type: Option<String>,
    cfg: Cfg,
    pub blocks: Vec<Block>,
    dominators: Vec<Vec<bool>>,
}

impl FuncContext {
    /// The blocks.
    pub closed spec fn block_seq(self) -> Seq<Block> {
        self.blocks@
    }

    /// The number of blocks.
    pub fn num_blocks(&self) -> (r: usize)
        ensures
            r == self.block_seq().len(),
    {
        self.blocks.len()
    }

    /// The instructions of block `i`.
    pub fn block_instructions(&self, i: usize) -> (r: &Vec<InsnType>)
        requires
            i < self.block_seq().len(),
        ensures
            insns_view(r@) == block_models(self.block_seq())[i as int],
    {
        &self.blocks[i].instructions
    }

    /// The control-flow graph of the blocks.
    pub closed spec fn cfg_view(self) -> CfgView {
        self.cfg@
    }

    /// The dominator set of each block, as a bitmap over the blocks.
    pub closed spec fn dominator_sets(self) -> Seq<Seq<bool>> {
        bitmaps_view(self.dominators@)
    }

    /// The names of the function's arguments, if it lists them.
    pub closed spec fn arg_names(self) -> Option<Seq<Seq<char>>> {
        crate::bril::opt_strs_view(self.args)
    }

    /// The function's name.
    pub closed spec fn func_name(self) -> Seq<char> {
        self.name@
    }

    /// The function's type, if it has one.
    pub closed spec fn func_type(self) -> Option<Seq<char>> {
        match self.fn_type {
            Some(t) => Some(t@),
            None => None,
        }
    }

    /// The blocks are named by their index, the graph joins blocks only and
    /// gives every block a predecessor and a successor list, and there is a
    /// dominator set for every block.
    pub open spec fn well_formed(self) -> bool {
        let n = self.block_seq().len();
        &&& 1 <= n <= u32::MAX
        &&& forall|i: int| 0 <= i < n ==> (#[trigger] self.block_seq()[i]).name == BlockName(i as u32)
        &&& self.cfg_view().bounded(n as nat)
        &&& self.cfg_view().symmetric()
        &&& forall|b: u32| b < n ==> #[trigger] self.cfg_view().preds.contains_key(b)
        &&& forall|b: u32| b < n ==> #[trigger] self.cfg_view().succs.contains_key(b)
        &&& all_nonempty(block_models(self.block_seq()))
        &&& square(self.dominator_sets(), n as int)
    }

    /// An empty context: no blocks, an empty graph, no dominator sets.
    pub fn new() -> (r: Self)
        ensures
            r.block_seq().len() == 0,
            r.cfg_view().preds == Map::<u32, Seq<u32>>::empty(),
            r.cfg_view().succs == Map::<u32, Seq<u32>>::empty(),
            r.dominator_sets() == Seq::<Seq<bool>>::empty(),
            r.arg_names() is None,
            r.func_type() is None,
            r.func_name() == Seq::<char>::empty(),
    {
        let r = FuncContext {
            args: None,
            name: String::new(),
            fn_type: None,
            cfg: Cfg::new(),
            blocks: Vec::new(),
            dominators: Vec::new(),
        };
        assert(bitmaps_view(r.dominators@) =~= Seq::<Seq<bool>>::empty());
        r
    }

    /// Reads a function: its name, arguments and type, its blocks and their
    /// control-flow graph (following `br`, `jmp` and fall-through), and the
    /// dominator sets of the blocks.
    pub fn init(&mut self, function: &Function)
        requires
            cfg_ready(*function, true),
        ensures
            final(self).func_name() == function.name@,
            final(self).arg_names() == crate::bril::opt_strs_view(function.args),
            final(self).func_type() == (match function.func_type {
                Some(t) => Some(t@),
                None => None,
            }),
            block_models(final(self).block_seq()) == split_blocks(insns_view(function.instructions@)),
            final(self).cfg_view() == add_edges(
                unlinked(final(self).block_seq().len() as nat),
                edges_upto(block_models(final(self).block_seq()), final(self).block_seq().len() as int, true),
            ),
            final(self).dominator_sets() == dominators_of(
                final(self).cfg_view(),
                final(self).block_seq().len() as int,
                true,
            ),
            final(self).well_formed(),
    {
        self.name = function.name.clone();
        self.args = crate::bril::copy_opt_strs(&function.args);
        self.fn_type = match &function.func_type {
            Some(t) => Some(t.clone()),
            None => None,
        };
        self.make_cfg(function);
        self.construct_dominators();
    }

    /// Splits the function into blocks and links them: each label of a `br`
    /// or `jmp` to the last block that opens with it, and each block that
    /// does not end with a terminator to the next block.
    fn make_cfg(&mut self, function: &Function)
        requires
            cfg_ready(*function, true),
        ensures
            final(self).name == old(self).name,
            final(self).args == old(self).args,
            final(self).fn_type == old(self).fn_type,
            block_models(final(self).block_seq()) == split_blocks(insns_view(function.instructions@)),
            final(self).cfg_view() == add_edges(
                unlinked(final(self).block_seq().len() as nat),
                edges_upto(block_models(final(self).block_seq()), final(self).block_seq().len() as int, true),
            ),
            1 <= final(self).block_seq().len() <= u32::MAX,
            forall|i: int| 0 <= i < final(self).block_seq().len() ==> (#[trigger] final(self).block_seq()[i]).name == BlockName(i as u32),
            final(self).cfg_view().bounded(final(self).block_seq().len() as nat),
            final(self).cfg_view().symmetric(),
            forall|b: u32| b < final(self).block_seq().len() ==> #[trigger] final(self).cfg_view().preds.contains_key(b),
            forall|b: u32| b < final(self).block_seq().len() ==> #[trigger] final(self).cfg_view().succs.contains_key(b),
            all_nonempty(block_models(final(self).block_seq())),
    {
        let ghost s = insns_view(function.instructions@);
        proof {
            lemma_split_shape(s);
        }
        let raw = split_into_blocks(&function.instructions);
        let ghost bs = blocks_view(raw@);
        proof {
            assert forall|i: int| 0 <= i < bs.len() implies (#[trigger] bs[i]).len() > 0 by {
                if i < split_state(s).0.len() {
                    assert(bs[i] == split_state(s).0[i]);
                }
            }
        }
        self.blocks = make_blocks(&raw);
        let n = self.blocks.len();
        self.cfg = Cfg::new();
        self.cfg.init(&self.blocks);
        let ghost c0 = self.cfg@;
        assert(c0.preds =~= unlinked(n as nat).preds);
        assert(c0.succs =~= unlinked(n as nat).succs);
        link_blocks(&mut self.cfg, &raw, true);
        proof {
            let es = edges_upto(bs, n as int, true);
            lemma_edges_bounded(bs, n as int, true);
            assert(unlinked(n as nat).bounded(n as nat));
            lemma_add_edges_bounded(unlinked(n as nat), es, n as nat);
            lemma_add_edges_keeps_keys(unlinked(n as nat), es);
            assert forall|p: u32, b: u32| #[trigger] unlinked(n as nat).preds_of(b).contains(p)
                <==> #[trigger] unlinked(n as nat).succs_of(p).contains(b) by {}
            lemma_add_edges_symmetric(unlinked(n as nat), es);
            assert(c0 == unlinked(n as nat));
        }
    }

    /// Computes the dominator sets: a pass over the blocks `n - 2` down to 0
    /// in which a block's set becomes the block itself and the blocks below
    /// `n - 1` common to its predecessors' sets (the block alone where it
    /// has no predecessor).
    pub fn construct_dominators(&mut self)
        requires
            old(self).block_seq().len() >= 1,
            old(self).block_seq().len() <= u32::MAX,
            old(self).cfg_view().bounded(old(self).block_seq().len() as nat),
            forall|b: u32| b < old(self).block_seq().len() ==> #[trigger] old(self).cfg_view().preds.contains_key(b),
        ensures
            final(self).dominator_sets() == dominators_of(old(self).cfg_view(), old(self).block_seq().len() as int, true),
            square(final(self).dominator_sets(), old(self).block_seq().len() as int),
            final(self).block_seq() == old(self).block_seq(),
            final(self).cfg_view() == old(self).cfg_view(),
            final(self).arg_names() == old(self).arg_names(),
            final(self).func_name() == old(self).func_name(),
            final(self).func_type() == old(self).func_type(),
    {
        let n = self.blocks.len();
        self.dominators = compute_dominators(&self.cfg, n, true);
    }

    /// The blocks not dominated by `block_idx` whose dominator set holds a
    /// block that `block_idx` dominates.
    pub fn dominance_frontier(&self, block_idx: u32) -> (r: HashSet<u32>)
        requires
            self.dominator_sets().len() <= u32::MAX,
            square(self.dominator_sets(), self.dominator_sets().len() as int),
        ensures
            r@ == frontier_of(self.dominator_sets(), block_idx as int),
    {
        frontier(&self.dominators, block_idx)
    }

    /// Adds to `blocks` the blocks that reach `curr` backward without
    /// passing through `top` or a block already in `blocks`, `curr` first.
    fn get_blocks_in_loop(&self, blocks: &mut HashSet<u32>, curr: u32, top: u32)
        requires
            self.well_formed(),
            curr < self.block_seq().len(),
            !old(blocks)@.contains(curr),
            forall|x: u32| #[trigger] old(blocks)@.contains(x) ==> x < self.block_seq().len(),
        ensures
            old(blocks)@.subset_of(final(blocks)@),
            forall|x: u32| #[trigger] final(blocks)@.contains(x) ==> x < self.block_seq().len(),
            curr != top ==> final(blocks)@.contains(curr),
            forall|v: u32|
                #[trigger] final(blocks)@.contains(v) && !old(blocks)@.contains(v)
                    ==> back_reachable(self.cfg_view(), curr, v, old(blocks)@.insert(top)),
            forall|w: u32, p: u32|
                final(blocks)@.contains(w) && !old(blocks)@.contains(w) && #[trigger] self.cfg_view().preds_of(w).contains(p)
                    ==> final(blocks)@.contains(p) || p == top,
        decreases self.block_seq().len() - old(blocks)@.len(),
    {
        let ghost n = self.block_seq().len();
        let ghost c = self.cfg_view();
        let ghost old_set = blocks@;
        proof {
            vstd::set_lib::range_set_properties::<u32>(0, n as u32);
            assert(old_set.subset_of(Set::<u32>::range(0, n as u32)));
            vstd::set_lib::lemma_len_subset(old_set, Set::<u32>::range(0, n as u32));
        }
        if curr != top {
            blocks.insert(curr);
            proof {
                assert(is_back_walk(c, seq![curr], old_set.insert(top)));
            }
            let preds = self.cfg.get_predecessors(&curr).unwrap();
            let mut j: usize = 0;
            while j < preds.len()
                invariant
                    self.well_formed(),
                    n == self.block_seq().len(),
                    c == self.cfg_view(),
                    curr < n,
                    curr != top,
                    !old_set.contains(curr),
                    old_set.finite(),
                    old_set == old(blocks)@,
                    preds@ == c.preds_of(curr),
                    j <= preds.len(),
                    old_set.insert(curr).subset_of(blocks@),
                    forall|x: u32| #[trigger] blocks@.contains(x) ==> x < n,
                    forall|v: u32|
                        #[trigger] blocks@.contains(v) && !old_set.contains(v)
                            ==> back_reachable(c, curr, v, old_set.insert(top)),
                    forall|w: u32, p: u32|
                        blocks@.contains(w) && !old_set.contains(w) && w != curr && #[trigger] c.preds_of(w).contains(p)
                            ==> blocks@.contains(p) || p == top,
                    forall|k: int| 0 <= k < j ==> blocks@.contains(#[trigger] preds@[k]) || preds@[k] == top,
                decreases preds.len() - j,
            {
                let pre = preds[j];
                assert(c.preds[curr][j as int] < n);
                if !blocks.contains(&pre) {
                    let ghost mid = blocks@;
                    proof {
                        vstd::set_lib::range_set_properties::<u32>(0, n as u32);
                        assert(mid.subset_of(Set::<u32>::range(0, n as u32)));
                        vstd::set_lib::lemma_len_subset(mid, Set::<u32>::range(0, n as u32));
                        vstd::set_lib::lemma_len_subset(old_set.insert(curr), mid);
                        assert(old_set.finite());
                        assert(old_set.insert(curr).len() == old_set.len() + 1);
                        assert(mid.len() <= n);
                    }
                    self.get_blocks_in_loop(blocks, pre, top);
                    proof {
                        assert forall|v: u32|
                            #[trigger] blocks@.contains(v) && !old_set.contains(v) implies back_reachable(
                                c,
                                curr,
                                v,
                                old_set.insert(top),
                            ) by {
                            if !mid.contains(v) {
                                let path = choose|path: Seq<u32>| #[trigger] is_back_walk(c, path, mid.insert(top))
                                    && path[0] == pre && path.last() == v;
                                assert(c.preds_of(curr).contains(pre)) by {
                                    assert(preds@[j as int] == pre);
                                }
                                lemma_walk_prepend(c, curr, path, old_set.insert(top), mid.insert(top));
                                assert(is_back_walk(c, seq![curr] + path, old_set.insert(top)));
                            }
                        }
                        assert forall|w: u32, p: u32|
                            blocks@.contains(w) && !old_set.contains(w) && w != curr
                                && #[trigger] c.preds_of(w).contains(p) implies blocks@.contains(p) || p == top by {
                            if mid.contains(w) {
                                if mid.contains(p) {
                                    assert(blocks@.contains(p));
                                }
                            }
                        }
                        assert forall|k: int| 0 <= k < j + 1 implies blocks@.contains(#[trigger] preds@[k]) || preds@[k] == top by {
                            if k < j {
                                if mid.contains(preds@[k]) {
                                    assert(blocks@.contains(preds@[k]));
                                }
                            }
                        }
                    }
                }
                j += 1;
            }
            proof {
                assert forall|w: u32, p: u32|
                    blocks@.contains(w) && !old_set.contains(w) && #[trigger] c.preds_of(w).contains(p)
                        implies blocks@.contains(p) || p == top by {
                    if w == curr {
                        let k = choose|k: int| 0 <= k < preds@.len() && preds@[k] == p;
                        assert(blocks@.contains(preds@[k]) || preds@[k] == top);
                    }
                }
            }
        }
    }

    /// The reaching definitions of the blocks: for each block, the names
    /// that may reach its end. A worklist takes the blocks `0..n - 1` from
    /// the end; a block's input is what reaches the ends of its predecessors
    /// (and, for block 0, the arguments), its output that input with the
    /// names it assigns; where the output grew, its successors are added.
    pub fn workflow(&self) -> (r: Vec<Vec<String>>)
        requires
            self.well_formed(),
        ensures
            rd_least(self.cfg_view(), block_models(self.block_seq()), self.arg_names(), sets_view(r@)),
            sets_view(r@) == reaching_sets(self.cfg_view(), block_models(self.block_seq()), self.arg_names()),
            forall|b: int| 0 <= b < r.len() ==> distinct(#[trigger] r@[b]@),
    {
        let ghost c = self.cfg_view();
        let ghost bs = block_models(self.block_seq());
        let ghost args = self.arg_names();
        let ghost u = name_universe(args, bs);
        let n = self.blocks.len();
        let mut worklist: Vec<u32> = Vec::new();
        let mut i: usize = 0;
        while i + 1 < n
            invariant
                1 <= n <= u32::MAX,
                i < n,
                worklist@ == Seq::new(i as nat, |k: int| k as u32),
            decreases n - i,
        {
            worklist.push(i as u32);
            assert(worklist@ =~= Seq::new(i as nat + 1, |k: int| k as u32));
            i += 1;
        }
        let (mut inputs, mut outputs) = Licm::reaching_defs_init(&self.args, &self.blocks);
        let ghost mut done: Set<u32> = Set::empty();
        proof {
            lemma_universe(args, bs);
            assert(sets_view(inputs@) =~= Seq::new(n as nat, |b: int| rd_entry(args, b)));
            assert forall|b: u32| #![trigger done.contains(b)] #![trigger worklist@.contains(b)] b < n - 1
                implies done.contains(b) || worklist@.contains(b) by {
                assert(worklist@[b as int] == b);
            }
            assert forall|s: Seq<Set<Seq<char>>>| #[trigger] rd_solution(c, bs, args, s) implies forall|b: int|
                0 <= b < n ==> sets_view(outputs@)[b].subset_of(#[trigger] s[b]) by {}
            assert(rd_inv(c, bs, args, sets_view(outputs@), sets_view(inputs@), worklist@, done));
            lemma_total_bound(sets_view(outputs@), u);
        }
        while worklist.len() > 0
            invariant
                self.well_formed(),
                n == self.block_seq().len(),
                c == self.cfg_view(),
                bs == block_models(self.block_seq()),
                args == self.arg_names(),
                u == name_universe(args, bs),
                u.finite(),
                rd_inv(c, bs, args, sets_view(outputs@), sets_view(inputs@), worklist@, done),
                outputs.len() == n,
                inputs.len() == n,
                forall|b: int| 0 <= b < n ==> distinct(#[trigger] outputs@[b]@),
                forall|b: int| 0 <= b < n ==> distinct(#[trigger] inputs@[b]@),
                0 <= total(sets_view(outputs@)) <= n * u.len(),
            decreases n * u.len() - total(sets_view(outputs@)), worklist.len(),
        {
            let ghost o = sets_view(outputs@);
            let ghost iv = sets_view(inputs@);
            let ghost w = worklist@;
            proof {
                lemma_rd_step(c, bs, args, o, iv, w, done);
            }
            let b = worklist.pop().unwrap();
            assert(b == w.last());
            let bu = b as usize;
            let preds = self.cfg.get_predecessors(&b).unwrap();
            assert(preds@ == c.preds_of(b));
            let mut folded: Vec<String> = Vec::new();
            assert(name_set(folded@) =~= Set::<Seq<char>>::empty());
            let mut k: usize = 0;
            while k < preds.len()
                invariant
                    n == self.block_seq().len(),
                    outputs.len() == n,
                    o == sets_view(outputs@),
                    c.bounded(n as nat),
                    preds@ == c.preds_of(b),
                    k <= preds.len(),
                    distinct(folded@),
                    name_set(folded@) == preds_union(o, preds@.take(k as int)),
                decreases preds.len() - k,
            {
                let q = preds[k] as usize;
                assert(c.preds[b][k as int] < n);
                assert(o[q as int] == name_set(outputs@[q as int]@));
                folded = Licm::reaching_defs_merge(&outputs[q], &folded);
                assert(name_set(folded@) =~= preds_union(o, preds@.take(k as int + 1))) by {
                    let t = preds@.take(k as int + 1);
                    assert forall|x: Seq<char>| preds_union(o, t).contains(x) implies name_set(folded@).contains(x) by {
                        let j = choose|j: int| 0 <= j < t.len() && #[trigger] o[t[j] as int].contains(x);
                        if j < k {
                            assert(preds@.take(k as int)[j] == t[j]);
                        }
                    }
                    assert forall|x: Seq<char>| name_set(folded@).contains(x) implies preds_union(o, t).contains(x) by {
                        if o[q as int].contains(x) {
                            assert(t[k as int] == q as u32);
                        } else {
                            let j = choose|j: int| 0 <= j < k && #[trigger] o[preds@.take(k as int)[j] as int].contains(x);
                            assert(t[j] == preds@.take(k as int)[j]);
                        }
                    }
                }
                k += 1;
            }
            assert(preds@.take(preds.len() as int) == preds@);
            let res = union_names(&folded, &inputs[bu]);
            let out_b = Licm::reaching_defs_transfer(&self.blocks[bu], &res);
            assert(insns_view(self.blocks@[bu as int].instructions@) == bs[bu as int]);
            inputs.set(bu, res);
            let old_len = outputs[bu].len();
            let new_len = out_b.len();
            proof {
                lemma_distinct_len(outputs@[bu as int]@);
                lemma_distinct_len(out_b@);
                assert(name_set(res@) =~= iv[bu as int].union(preds_union(o, c.preds_of(b))));
            }
            if old_len != new_len {
                let sucs = self.cfg.get_successors(&b).unwrap();
                let mut j: usize = 0;
                let ghost w1 = worklist@;
                while j < sucs.len()
                    invariant
                        j <= sucs.len(),
                        worklist@ == w1 + sucs@.take(j as int),
                    decreases sucs.len() - j,
                {
                    worklist.push(sucs[j]);
                    assert(worklist@ =~= w1 + sucs@.take(j as int + 1));
                    j += 1;
                }
                assert(sucs@.take(sucs.len() as int) == sucs@);
            }
            outputs.set(bu, out_b);
            proof {
                let out = name_set(out_b@);
                assert(sets_view(outputs@) =~= o.update(bu as int, out));
                assert(sets_view(inputs@) =~= iv.update(bu as int, name_set(res@)));
                assert(worklist@ == rd_next_w(c, w, b, out != o[bu as int]));
                done = done.insert(b);
                lemma_total_update(o, bu as int, out);
                lemma_total_bound(sets_view(outputs@), u);
                if out != o[bu as int] {
                    vstd::set_lib::lemma_len_subset(o[bu as int], out);
                }
            }
        }
        proof {
            lemma_rd_done(c, bs, args, sets_view(outputs@), sets_view(inputs@), worklist@, done);
            lemma_least_unique(c, bs, args, sets_view(outputs@));
        }
        outputs
    }

    /// For each block that closes a loop (an edge to a successor in its own
    /// dominator set; the last such successor where there are several), the
    /// body of that loop.
    pub fn find_natural_loops(&self) -> (r: HashMap<u32, HashSet<u32>>)
        requires
            self.block_seq().len() == 0 || self.well_formed(),
        ensures
            forall|b: u32|
                #[trigger] r@.contains_key(b) <==> (b < self.block_seq().len()
                    && back_edge_of(self.cfg_view(), self.dominator_sets(), b) is Some),
            forall|b: u32|
                #[trigger] r@.contains_key(b) ==> r@[b]@ == loop_body(
                    self.cfg_view(),
                    b,
                    back_edge_of(self.cfg_view(), self.dominator_sets(), b)->0,
                ),
    {
        let ghost c = self.cfg_view();
        let ghost doms = self.dominator_sets();
        let n = self.blocks.len();
        let mut loops: HashMap<u32, HashSet<u32>> = HashMap::new();
        if n == 0 {
            return loops;
        }
        let mut b: usize = 0;
        while b < n
            invariant
                self.well_formed(),
                n == self.block_seq().len(),
                c == self.cfg_view(),
                doms == self.dominator_sets(),
                b <= n,
                forall|x: u32| #[trigger] loops@.contains_key(x) <==> (x < b && back_edge_of(c, doms, x) is Some),
                forall|x: u32|
                    #[trigger] loops@.contains_key(x) ==> loops@[x]@ == loop_body(c, x, back_edge_of(c, doms, x)->0),
            decreases n - b,
        {
            let bb = b as u32;
            let sucks = self.cfg.get_successors(&bb).unwrap();
            let doms_b = &self.dominators[b];
            assert(doms[b as int] == doms_b@);
            let mut j: usize = 0;
            while j < sucks.len()
                invariant
                    self.well_formed(),
                    n == self.block_seq().len(),
                    c == self.cfg_view(),
                    doms == self.dominator_sets(),
                    b < n,
                    bb == b,
                    sucks@ == c.succs_of(bb),
                    doms_b@ == doms[b as int],
                    j <= sucks.len(),
                    forall|x: u32| x != bb ==> (#[trigger] loops@.contains_key(x) <==> (x < b && back_edge_of(c, doms, x) is Some)),
                    forall|x: u32|
                        x != bb && #[trigger] loops@.contains_key(x) ==> loops@[x]@ == loop_body(c, x, back_edge_of(c, doms, x)->0),
                    loops@.contains_key(bb) <==> back_edge_target(c, doms, bb, j as int) is Some,
                    loops@.contains_key(bb) ==> loops@[bb]@ == loop_body(c, bb, back_edge_target(c, doms, bb, j as int)->0),
                decreases sucks.len() - j,
            {
                let suck = sucks[j];
                assert(c.succs[bb][j as int] < n);
                if doms_b[suck as usize] {
                    let mut natty_loop: HashSet<u32> = HashSet::new();
                    self.get_blocks_in_loop(&mut natty_loop, bb, suck);
                    proof {
                        assert forall|v: u32| natty_loop@.contains(v) <==> loop_body(c, bb, suck).contains(v) by {
                            if natty_loop@.contains(v) {
                                assert(Set::<u32>::empty().insert(suck) =~= set![suck]);
                            }
                            if loop_body(c, bb, suck).contains(v) {
                                assert(Set::<u32>::empty().insert(suck) =~= set![suck]);
                                lemma_closed_holds_reach(c, natty_loop@, Set::empty(), bb, suck, v);
                            }
                        }
                        assert(natty_loop@ =~= loop_body(c, bb, suck));
                    }
                    loops.insert(bb, natty_loop);
                }
                j += 1;
            }
            assert(back_edge_of(c, doms, bb) == back_edge_target(c, doms, bb, sucks.len() as int));
            b += 1;
        }
        loops
    }

    /// Leaves the context as it is.
    pub fn make_dominance_tree(&mut self)
        ensures
            *final(self) == *old(self),
    {
    }
}

} // verus!
